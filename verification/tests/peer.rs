use rpc::auth::Identity;
use rpc::conn::{ConnectionId, Lifecycle, SendOutcome};
use rpc::error::RpcError;
use rpc::message_stream::{decode, FrameDecoder};
use rpc::notification::SubscriptionId;
use rpc::peer::{Disconnected, Dispatch, Outgoing, Peer};
use rpc::pending::{Failure, PendingTable, WaiterId};
use rpc::proto::{Envelope, MessageKind, Payload};
use rpc::PROTOCOL_VERSION;

fn somebody() -> Option<Identity> {
    Some(Identity { user_id: 1 })
}

fn peer_with_connection() -> (Peer, ConnectionId) {
    let mut peer = Peer::new(64);
    let id = peer.add_connection(&Envelope::hello(PROTOCOL_VERSION), somebody()).unwrap();
    (peer, id)
}

fn frame_of(peer: &mut Peer, connection: ConnectionId) -> Vec<u8> {
    match peer.next_frame(connection) {
        Outgoing::Frame(bytes) => bytes,
        out => panic!("{:?}", out),
    }
}

fn nothing_ended(connection: ConnectionId, reason: RpcError) -> Disconnected {
    Disconnected { connection, reason, lost: vec![], subscribers: vec![] }
}

fn response(id: u32, responding_to: u32, kind: MessageKind, data: Vec<u8>) -> Envelope {
    Envelope {
        version: PROTOCOL_VERSION,
        id,
        responding_to: Some(responding_to),
        payload: Payload::Response(kind, data),
    }
}

fn unsolicited(id: u32, kind: MessageKind, data: Vec<u8>) -> Envelope {
    Envelope { version: PROTOCOL_VERSION, id, responding_to: None, payload: Payload::Request(kind, data) }
}

#[test]
fn ping_resolves_with_pong() {
    let (mut peer, c) = peer_with_connection();
    let sent = peer.request(c, MessageKind::Ping, vec![], WaiterId(100));
    assert_eq!(sent, SendOutcome::Queued(1));
    let on_wire = decode(&frame_of(&mut peer, c)).unwrap();
    assert_eq!(on_wire, unsolicited(1, MessageKind::Ping, vec![]));
    assert_eq!(peer.waiter(c, 1), Some(WaiterId(100)));

    let pong = response(1, 1, MessageKind::Pong, vec![]);
    let out = peer.dispatch(c, pong.clone());
    assert_eq!(out, Dispatch::Deliver { waiter: WaiterId(100), response: pong });
    assert_eq!(peer.waiter(c, 1), None);
    assert_eq!(peer.pending_count(), 0);
    assert_eq!(peer.outstanding(c), 0);
}

#[test]
fn request_on_closed_connection_resolves_with_connection_lost() {
    let (mut peer, c) = peer_with_connection();
    assert_eq!(peer.request(c, MessageKind::Call, vec![1], WaiterId(1)), SendOutcome::Queued(1));
    let _ = peer.dispatch(c, response(1, 1, MessageKind::Reply, vec![]));
    assert_eq!(peer.request(c, MessageKind::Call, vec![2], WaiterId(2)), SendOutcome::Queued(2));
    let out = peer.disconnect(c);
    assert_eq!(out.lost, vec![Failure { waiter: WaiterId(2), error: RpcError::ConnectionLost }]);
    assert_eq!(peer.waiter(c, 2), None);
    // The reply comes too late: its connection is gone.
    let late = peer.dispatch(c, response(2, 2, MessageKind::Reply, vec![]));
    assert_eq!(late, Dispatch::Rejected(RpcError::ConnectionLost));
}

#[test]
fn responses_in_reverse_order_reach_their_own_waiters() {
    let (mut peer, c) = peer_with_connection();
    let n = 20u32;
    for k in 1..=n {
        let sent = peer.request(c, MessageKind::Call, vec![k as u8], WaiterId(1000 + k as u64));
        assert_eq!(sent, SendOutcome::Queued(k));
    }
    assert_eq!(peer.outstanding(c), n as usize);
    for k in (1..=n).rev() {
        let reply = response(500 + k, k, MessageKind::Reply, vec![k as u8, 0xFF]);
        let out = peer.dispatch(c, reply.clone());
        assert_eq!(out, Dispatch::Deliver { waiter: WaiterId(1000 + k as u64), response: reply });
        assert_eq!(peer.outstanding(c), (k - 1) as usize);
    }
    assert_eq!(peer.pending_count(), 0);
}

#[test]
fn responses_in_scrambled_order_reach_their_own_waiters() {
    let (mut peer, c) = peer_with_connection();
    for k in 1..=7u32 {
        let _ = peer.request(c, MessageKind::Call, vec![], WaiterId(k as u64 * 10));
    }
    for k in [4u32, 1, 7, 2, 6, 3, 5] {
        let reply = response(k, k, MessageKind::Reply, vec![k as u8]);
        let out = peer.dispatch(c, reply.clone());
        assert_eq!(out, Dispatch::Deliver { waiter: WaiterId(k as u64 * 10), response: reply });
    }
}

#[test]
fn disconnect_fails_exactly_the_outstanding_requests() {
    let mut peer = Peer::new(64);
    let a = peer.add_connection(&Envelope::hello(PROTOCOL_VERSION), somebody()).unwrap();
    let b = peer.add_connection(&Envelope::hello(PROTOCOL_VERSION), somebody()).unwrap();
    assert_ne!(a, b);
    for k in 0..5u64 {
        let _ = peer.request(a, MessageKind::Call, vec![], WaiterId(k));
        let _ = peer.request(b, MessageKind::Call, vec![], WaiterId(100 + k));
    }
    // One of a's requests is answered before the connection goes.
    let _ = peer.dispatch(a, response(1, 3, MessageKind::Reply, vec![]));
    assert_eq!(peer.outstanding(a), 4);
    let out = peer.disconnect(a);
    let expected: Vec<Failure> = [0u64, 1, 3, 4]
        .iter()
        .map(|k| Failure { waiter: WaiterId(*k), error: RpcError::ConnectionLost })
        .collect();
    assert_eq!(out.lost, expected);
    assert_eq!(peer.outstanding(a), 0);
    assert_eq!(peer.outstanding(b), 5);
    assert_eq!(peer.pending_count(), 5);
    assert!(!peer.is_registered(a));
    assert!(peer.is_registered(b));
    assert_eq!(peer.connection_count(), 1);
    for k in 1..=5u32 {
        assert_eq!(peer.waiter(a, k), None);
        assert_eq!(peer.waiter(b, k), Some(WaiterId(99 + k as u64)));
    }
}

#[test]
fn disconnect_without_outstanding_requests_fails_nobody() {
    let (mut peer, c) = peer_with_connection();
    let out = peer.disconnect(c);
    assert!(out.lost.is_empty());
    assert!(!peer.is_registered(c));
}

#[test]
fn disconnect_is_idempotent() {
    let (mut peer, c) = peer_with_connection();
    let _ = peer.subscribe(MessageKind::Event, None);
    let _ = peer.request(c, MessageKind::Call, vec![], WaiterId(1));
    let first = peer.disconnect(c);
    assert_eq!(first.lost.len(), 1);
    assert_eq!(first.subscribers, vec![SubscriptionId(0)]);
    assert_eq!(first.connection, c);
    assert_eq!(first.reason, RpcError::ConnectionLost);
    let second = peer.disconnect(c);
    assert_eq!(second, nothing_ended(c, RpcError::ConnectionLost));
    let never = peer.disconnect(ConnectionId(999));
    assert_eq!(never, nothing_ended(ConnectionId(999), RpcError::ConnectionLost));
}

#[test]
fn mismatched_version_is_never_registered() {
    let mut peer = Peer::new(8);
    for version in [0, 67, 69] {
        assert_eq!(peer.add_connection(&Envelope::hello(version), somebody()), Err(RpcError::VersionMismatch));
    }
    assert_eq!(peer.connection_count(), 0);
    let claimed = ConnectionId(0);
    assert!(!peer.is_registered(claimed));
    assert_eq!(peer.connection_state(claimed), None);
    let out = peer.dispatch(claimed, unsolicited(1, MessageKind::Call, vec![]));
    assert_eq!(out, Dispatch::Rejected(RpcError::ConnectionLost));
    assert_eq!(
        peer.request(claimed, MessageKind::Call, vec![], WaiterId(1)),
        SendOutcome::Refused(RpcError::ConnectionLost)
    );
    // The id that the failed newcomer would have had goes to the next one.
    assert_eq!(peer.add_connection(&Envelope::hello(PROTOCOL_VERSION), somebody()), Ok(ConnectionId(0)));
}

#[test]
fn unauthenticated_remote_is_never_registered() {
    let mut peer = Peer::new(8);
    assert_eq!(peer.add_connection(&Envelope::hello(PROTOCOL_VERSION), None), Err(RpcError::AuthFailed));
    assert_eq!(peer.add_connection(&Envelope::hello(67), None), Err(RpcError::VersionMismatch));
    assert_eq!(peer.connection_count(), 0);
}

#[test]
fn connection_ids_are_fresh() {
    let mut peer = Peer::new(8);
    let a = peer.add_connection(&Envelope::hello(PROTOCOL_VERSION), somebody()).unwrap();
    let b = peer.add_connection(&Envelope::hello(PROTOCOL_VERSION), somebody()).unwrap();
    let _ = peer.disconnect(a);
    let c = peer.add_connection(&Envelope::hello(PROTOCOL_VERSION), somebody()).unwrap();
    assert_eq!((a, b, c), (ConnectionId(0), ConnectionId(1), ConnectionId(2)));
    assert_eq!(peer.connection_state(b), Some(Lifecycle::Connected));
    assert_eq!(peer.connection_state(a), None);
}

#[test]
fn second_response_is_unmatched() {
    let (mut peer, c) = peer_with_connection();
    let _ = peer.request(c, MessageKind::Ping, vec![], WaiterId(5));
    let pong = response(1, 1, MessageKind::Pong, vec![]);
    assert!(matches!(peer.dispatch(c, pong.clone()), Dispatch::Deliver { .. }));
    assert_eq!(peer.dispatch(c, pong), Dispatch::Rejected(RpcError::UnmatchedResponse));
    // Dropping it is no failure of the connection.
    assert!(!RpcError::UnmatchedResponse.closes_connection());
    assert!(peer.is_registered(c));
}

#[test]
fn response_to_unknown_id_is_unmatched() {
    let (mut peer, c) = peer_with_connection();
    let _ = peer.request(c, MessageKind::Ping, vec![], WaiterId(5));
    let stray = response(1, 42, MessageKind::Pong, vec![]);
    assert_eq!(peer.dispatch(c, stray), Dispatch::Rejected(RpcError::UnmatchedResponse));
    assert_eq!(peer.waiter(c, 1), Some(WaiterId(5)));
}

#[test]
fn response_on_another_connection_is_unmatched() {
    let mut peer = Peer::new(8);
    let a = peer.add_connection(&Envelope::hello(PROTOCOL_VERSION), somebody()).unwrap();
    let b = peer.add_connection(&Envelope::hello(PROTOCOL_VERSION), somebody()).unwrap();
    let _ = peer.request(a, MessageKind::Ping, vec![], WaiterId(5));
    let pong = response(1, 1, MessageKind::Pong, vec![]);
    assert_eq!(peer.dispatch(b, pong.clone()), Dispatch::Rejected(RpcError::UnmatchedResponse));
    assert_eq!(peer.dispatch(a, pong.clone()), Dispatch::Deliver { waiter: WaiterId(5), response: pong });
}

#[test]
fn error_payload_resolves_the_request() {
    let (mut peer, c) = peer_with_connection();
    let _ = peer.request(c, MessageKind::Call, vec![], WaiterId(5));
    let failure = Envelope {
        version: PROTOCOL_VERSION,
        id: 9,
        responding_to: Some(1),
        payload: Payload::Error(MessageKind::Call, b"denied".to_vec()),
    };
    let out = peer.dispatch(c, failure.clone());
    assert_eq!(out, Dispatch::Deliver { waiter: WaiterId(5), response: failure });
    assert!(peer.is_registered(c));
}

#[test]
fn timeout_deregisters_and_late_response_is_dropped() {
    let (mut peer, c) = peer_with_connection();
    let _ = peer.request(c, MessageKind::Call, vec![], WaiterId(5));
    let failure = peer.timeout(c, 1);
    assert_eq!(failure, Some(Failure { waiter: WaiterId(5), error: RpcError::Timeout }));
    assert_eq!(peer.timeout(c, 1), None);
    assert_eq!(peer.connection_state(c), Some(Lifecycle::Connected));
    let late = response(1, 1, MessageKind::Reply, vec![]);
    assert_eq!(peer.dispatch(c, late), Dispatch::Rejected(RpcError::UnmatchedResponse));
}

#[test]
fn cancel_deregisters_without_touching_the_wire() {
    let (mut peer, c) = peer_with_connection();
    let _ = peer.request(c, MessageKind::Call, vec![7], WaiterId(5));
    assert!(peer.cancel(c, 1));
    assert!(!peer.cancel(c, 1));
    assert_eq!(peer.pending_count(), 0);
    // The request itself still goes out.
    let frame = frame_of(&mut peer, c);
    assert_eq!(decode(&frame).unwrap(), unsolicited(1, MessageKind::Call, vec![7]));
}

#[test]
fn notify_registers_no_waiter() {
    let (mut peer, c) = peer_with_connection();
    assert_eq!(peer.notify(c, MessageKind::Event, vec![1, 2]), SendOutcome::Queued(1));
    assert_eq!(peer.pending_count(), 0);
    assert_eq!(peer.request(c, MessageKind::Call, vec![], WaiterId(1)), SendOutcome::Queued(2));
    let first = decode(&frame_of(&mut peer, c)).unwrap();
    assert_eq!(first, unsolicited(1, MessageKind::Event, vec![1, 2]));
    assert_eq!(
        peer.notify(ConnectionId(77), MessageKind::Event, vec![]),
        SendOutcome::Refused(RpcError::ConnectionLost)
    );
}

#[test]
fn full_queue_registers_nothing() {
    let mut peer = Peer::new(1);
    let c = peer.add_connection(&Envelope::hello(PROTOCOL_VERSION), somebody()).unwrap();
    assert_eq!(peer.request(c, MessageKind::Call, vec![1], WaiterId(1)), SendOutcome::Queued(1));
    let busy = peer.request(c, MessageKind::Call, vec![2], WaiterId(2));
    assert_eq!(busy, SendOutcome::Full(Payload::Request(MessageKind::Call, vec![2])));
    assert_eq!(peer.pending_count(), 1);
    assert!(matches!(peer.next_frame(c), Outgoing::Frame(_)));
    assert_eq!(peer.request(c, MessageKind::Call, vec![2], WaiterId(2)), SendOutcome::Queued(2));
    assert_eq!(peer.waiter(c, 2), Some(WaiterId(2)));
}

#[test]
fn slow_connection_does_not_block_another() {
    let mut peer = Peer::new(1);
    let slow = peer.add_connection(&Envelope::hello(PROTOCOL_VERSION), somebody()).unwrap();
    let fast = peer.add_connection(&Envelope::hello(PROTOCOL_VERSION), somebody()).unwrap();
    let _ = peer.notify(slow, MessageKind::Event, vec![]);
    assert!(matches!(peer.notify(slow, MessageKind::Event, vec![]), SendOutcome::Full(_)));
    assert_eq!(peer.notify(fast, MessageKind::Event, vec![]), SendOutcome::Queued(1));
}

#[test]
fn unsolicited_request_goes_to_subscribers_and_application() {
    let (mut peer, c) = peer_with_connection();
    let on_calls = peer.subscribe(MessageKind::Call, None).unwrap();
    let _on_events = peer.subscribe(MessageKind::Event, None).unwrap();
    let call = unsolicited(31, MessageKind::Call, vec![1]);
    let out = peer.dispatch(c, call.clone());
    assert_eq!(
        out,
        Dispatch::Notify { subscribers: vec![on_calls], envelope: call, reply_expected: true }
    );
    // The application answers with the id of what it answers.
    let sent = peer.respond(c, 31, Payload::Response(MessageKind::Reply, vec![2]));
    assert_eq!(sent, SendOutcome::Queued(1));
    let on_wire = decode(&frame_of(&mut peer, c)).unwrap();
    assert_eq!(on_wire, response(1, 31, MessageKind::Reply, vec![2]));
}

#[test]
fn every_subscriber_gets_exactly_one_copy() {
    let (mut peer, c) = peer_with_connection();
    let m = 12;
    let mut ids = Vec::new();
    for _ in 0..m {
        ids.push(peer.subscribe(MessageKind::Event, None).unwrap());
    }
    let other = peer.subscribe(MessageKind::Ack, None).unwrap();
    let event = unsolicited(3, MessageKind::Event, vec![9]);
    match peer.dispatch(c, event.clone()) {
        Dispatch::Notify { subscribers, envelope, reply_expected } => {
            assert_eq!(subscribers, ids);
            assert_eq!(subscribers.len(), m);
            assert!(!subscribers.contains(&other));
            assert_eq!(envelope, event);
            assert!(!reply_expected);
        }
        out => panic!("{:?}", out),
    }
}

#[test]
fn responses_never_reach_subscribers() {
    let (mut peer, c) = peer_with_connection();
    let _ = peer.subscribe(MessageKind::Pong, None).unwrap();
    let _ = peer.subscribe(MessageKind::Ping, None).unwrap();
    let _ = peer.request(c, MessageKind::Ping, vec![], WaiterId(5));
    let pong = response(1, 1, MessageKind::Pong, vec![]);
    assert!(matches!(peer.dispatch(c, pong.clone()), Dispatch::Deliver { .. }));
    assert_eq!(peer.dispatch(c, pong), Dispatch::Rejected(RpcError::UnmatchedResponse));
}

#[test]
fn inbound_of_another_version_is_a_protocol_error() {
    let (mut peer, c) = peer_with_connection();
    let mut envelope = unsolicited(1, MessageKind::Event, vec![]);
    envelope.version = 67;
    assert_eq!(peer.dispatch(c, envelope), Dispatch::Rejected(RpcError::ProtocolError));
}

#[test]
fn closing_connection_sends_nothing_new_but_still_dispatches() {
    let (mut peer, c) = peer_with_connection();
    let _ = peer.request(c, MessageKind::Call, vec![], WaiterId(5));
    peer.begin_close(c);
    assert_eq!(peer.connection_state(c), Some(Lifecycle::Closing));
    assert_eq!(
        peer.request(c, MessageKind::Call, vec![], WaiterId(6)),
        SendOutcome::Refused(RpcError::ConnectionLost)
    );
    assert!(matches!(peer.next_frame(c), Outgoing::Frame(_)));
    assert_eq!(peer.next_frame(c), Outgoing::Finished);
    let reply = response(1, 1, MessageKind::Reply, vec![]);
    assert_eq!(peer.dispatch(c, reply.clone()), Dispatch::Deliver { waiter: WaiterId(5), response: reply });
    peer.begin_close(ConnectionId(55));
}

#[test]
fn fatal_error_disconnects_once() {
    let (mut peer, c) = peer_with_connection();
    let watcher = peer.subscribe(MessageKind::Event, Some(c)).unwrap();
    let _ = peer.request(c, MessageKind::Call, vec![], WaiterId(5));
    let out = peer.fail(c, RpcError::IoError);
    assert_eq!(out.lost, vec![Failure { waiter: WaiterId(5), error: RpcError::ConnectionLost }]);
    assert_eq!(out.subscribers, vec![watcher]);
    assert_eq!(out.connection, c);
    assert_eq!(out.reason, RpcError::IoError);
    let again = peer.fail(c, RpcError::ProtocolError);
    assert_eq!(again, nothing_ended(c, RpcError::ProtocolError));
}

#[test]
fn local_error_leaves_connection_alone() {
    let (mut peer, c) = peer_with_connection();
    let _ = peer.request(c, MessageKind::Call, vec![], WaiterId(5));
    for error in [RpcError::Timeout, RpcError::UnmatchedResponse, RpcError::ConnectionLost] {
        let out = peer.fail(c, error);
        assert_eq!(out, nothing_ended(c, error));
    }
    assert!(peer.is_registered(c));
    assert_eq!(peer.outstanding(c), 1);
}

#[test]
fn unsubscribe_stops_delivery() {
    let (mut peer, c) = peer_with_connection();
    let first = peer.subscribe(MessageKind::Event, None).unwrap();
    let second = peer.subscribe(MessageKind::Event, None).unwrap();
    assert!(peer.unsubscribe(first));
    assert!(!peer.unsubscribe(first));
    match peer.dispatch(c, unsolicited(1, MessageKind::Event, vec![])) {
        Dispatch::Notify { subscribers, .. } => assert_eq!(subscribers, vec![second]),
        out => panic!("{:?}", out),
    }
}

#[test]
fn two_peers_exchange_a_request_over_bytes() {
    let mut client = Peer::new(4);
    let mut server = Peer::new(4);
    let to_server = client.add_connection(&Envelope::hello(PROTOCOL_VERSION), somebody()).unwrap();
    let to_client = server.add_connection(&Envelope::hello(PROTOCOL_VERSION), somebody()).unwrap();
    let mut server_in = FrameDecoder::new();
    let mut client_in = FrameDecoder::new();

    let sent = client.request(to_server, MessageKind::Call, b"sum 1 2".to_vec(), WaiterId(8));
    assert_eq!(sent, SendOutcome::Queued(1));
    let bytes = frame_of(&mut client, to_server);
    // The transport delivers the frame in two pieces.
    let (head, tail) = bytes.split_at(6);
    assert!(server_in.feed(head).envelopes.is_empty());
    let mut arrived = server_in.feed(tail).envelopes;
    assert_eq!(arrived.len(), 1);
    let request = arrived.pop().unwrap();
    let asked = match server.dispatch(to_client, request) {
        Dispatch::Notify { envelope, reply_expected: true, .. } => envelope,
        out => panic!("{:?}", out),
    };
    let answer = Payload::Response(MessageKind::Reply, b"3".to_vec());
    assert_eq!(server.respond(to_client, asked.id, answer), SendOutcome::Queued(1));
    let bytes = frame_of(&mut server, to_client);
    let mut arrived = client_in.feed(&bytes).envelopes;
    let reply = arrived.pop().unwrap();
    match client.dispatch(to_server, reply) {
        Dispatch::Deliver { waiter, response } => {
            assert_eq!(waiter, WaiterId(8));
            assert_eq!(response.payload, Payload::Response(MessageKind::Reply, b"3".to_vec()));
            assert_eq!(response.responding_to, Some(1));
        }
        out => panic!("{:?}", out),
    }
    assert_eq!(client.pending_count(), 0);
}

#[test]
fn pending_table_keeps_one_entry_per_request() {
    let mut table = PendingTable::new();
    assert!(table.register(ConnectionId(1), 1, WaiterId(10)));
    assert!(!table.register(ConnectionId(1), 1, WaiterId(11)));
    assert!(table.register(ConnectionId(2), 1, WaiterId(12)));
    assert!(table.register(ConnectionId(1), 2, WaiterId(13)));
    assert_eq!(table.len(), 3);
    assert_eq!(table.waiter(ConnectionId(1), 1), Some(WaiterId(10)));
    assert_eq!(table.outstanding(ConnectionId(1)), 2);
    assert_eq!(table.resolve(ConnectionId(1), 1), Some(WaiterId(10)));
    assert_eq!(table.resolve(ConnectionId(1), 1), None);
    let lost = table.drain(ConnectionId(1));
    assert_eq!(lost, vec![Failure { waiter: WaiterId(13), error: RpcError::ConnectionLost }]);
    assert_eq!(table.len(), 1);
    assert_eq!(table.waiter(ConnectionId(2), 1), Some(WaiterId(12)));
    assert!(table.drain(ConnectionId(1)).is_empty());
}

#[test]
fn answer_to_a_request_that_never_came_is_refused() {
    let (mut peer, c) = peer_with_connection();
    let answer = Payload::Response(MessageKind::Reply, vec![]);
    assert_eq!(peer.respond(c, 31, answer), SendOutcome::Refused(RpcError::UnmatchedResponse));
    assert_eq!(peer.next_frame(c), Outgoing::Idle);
    // A notification asks for no answer, so none is owed for it.
    let _ = peer.dispatch(c, unsolicited(32, MessageKind::Event, vec![]));
    let answer = Payload::Response(MessageKind::Ack, vec![]);
    assert_eq!(peer.respond(c, 32, answer), SendOutcome::Refused(RpcError::UnmatchedResponse));
}

#[test]
fn a_request_is_answered_once() {
    let (mut peer, c) = peer_with_connection();
    let _ = peer.dispatch(c, unsolicited(31, MessageKind::Ping, vec![]));
    let pong = Payload::Response(MessageKind::Pong, vec![]);
    assert_eq!(peer.respond(c, 31, pong.clone()), SendOutcome::Queued(1));
    assert_eq!(peer.respond(c, 31, pong), SendOutcome::Refused(RpcError::UnmatchedResponse));
}

#[test]
fn an_answer_may_be_an_error_but_not_a_request() {
    let (mut peer, c) = peer_with_connection();
    let _ = peer.dispatch(c, unsolicited(31, MessageKind::Call, vec![]));
    let request = Payload::Request(MessageKind::Call, vec![]);
    assert_eq!(peer.respond(c, 31, request), SendOutcome::Refused(RpcError::ProtocolError));
    let error = Payload::Error(MessageKind::Call, b"no such thing".to_vec());
    assert_eq!(peer.respond(c, 31, error.clone()), SendOutcome::Queued(1));
    let on_wire = decode(&frame_of(&mut peer, c)).unwrap();
    assert_eq!(
        on_wire,
        Envelope { version: PROTOCOL_VERSION, id: 1, responding_to: Some(31), payload: error }
    );
}

#[test]
fn an_answer_is_owed_on_its_own_connection_only() {
    let mut peer = Peer::new(8);
    let a = peer.add_connection(&Envelope::hello(PROTOCOL_VERSION), somebody()).unwrap();
    let b = peer.add_connection(&Envelope::hello(PROTOCOL_VERSION), somebody()).unwrap();
    let _ = peer.dispatch(a, unsolicited(5, MessageKind::Call, vec![]));
    let answer = Payload::Response(MessageKind::Reply, vec![]);
    assert_eq!(peer.respond(b, 5, answer.clone()), SendOutcome::Refused(RpcError::UnmatchedResponse));
    let _ = peer.disconnect(a);
    assert_eq!(peer.respond(a, 5, answer), SendOutcome::Refused(RpcError::ConnectionLost));
}

#[test]
fn an_answer_stays_owed_while_the_queue_is_full() {
    let mut peer = Peer::new(1);
    let c = peer.add_connection(&Envelope::hello(PROTOCOL_VERSION), somebody()).unwrap();
    let _ = peer.dispatch(c, unsolicited(5, MessageKind::Call, vec![]));
    let _ = peer.notify(c, MessageKind::Event, vec![]);
    let answer = Payload::Response(MessageKind::Reply, vec![1]);
    assert_eq!(peer.respond(c, 5, answer.clone()), SendOutcome::Full(answer.clone()));
    assert!(matches!(peer.next_frame(c), Outgoing::Frame(_)));
    assert_eq!(peer.respond(c, 5, answer), SendOutcome::Queued(2));
}

#[test]
fn writer_is_told_when_to_wait_and_when_to_stop() {
    let (mut peer, c) = peer_with_connection();
    assert_eq!(peer.next_frame(c), Outgoing::Idle);
    let _ = peer.notify(c, MessageKind::Event, vec![]);
    assert_eq!(
        peer.next_frame(c),
        Outgoing::Frame(vec![15, 0, 0, 0, 68, 0, 0, 0, 1, 0, 0, 0, 0, 0, 0, 0, 0, 0, 6])
    );
    assert_eq!(peer.next_frame(c), Outgoing::Idle);
    peer.begin_close(c);
    assert_eq!(peer.next_frame(c), Outgoing::Finished);
    let _ = peer.disconnect(c);
    assert_eq!(peer.next_frame(c), Outgoing::Finished);
    assert_eq!(peer.next_frame(ConnectionId(40)), Outgoing::Finished);
}

#[test]
fn connection_must_open_with_a_handshake_frame() {
    let mut peer = Peer::new(8);
    let ping = unsolicited(1, MessageKind::Ping, vec![]);
    assert_eq!(peer.add_connection(&ping, somebody()), Err(RpcError::ProtocolError));
    let mut stale = unsolicited(1, MessageKind::Ping, vec![]);
    stale.version = 67;
    assert_eq!(peer.add_connection(&stale, somebody()), Err(RpcError::ProtocolError));
    assert_eq!(peer.connection_count(), 0);
}
