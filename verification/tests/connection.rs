use rpc::auth::Identity;
use rpc::conn::{judge_hello, Connection, ConnectionId, Lifecycle, SendOutcome};
use rpc::error::RpcError;
use rpc::message_stream::decode;
use rpc::proto::{Envelope, MessageKind, Payload, MAX_PAYLOAD_LEN};
use rpc::PROTOCOL_VERSION;

fn connected(capacity: usize) -> Connection {
    let mut connection = Connection::new(ConnectionId(4), capacity);
    assert_eq!(connection.handshake(&Envelope::hello(PROTOCOL_VERSION), Some(Identity { user_id: 11 })), Ok(()));
    connection
}

fn call(data: Vec<u8>) -> Payload {
    Payload::Request(MessageKind::Call, data)
}

#[test]
fn new_connection_is_connecting() {
    let connection = Connection::new(ConnectionId(4), 3);
    assert_eq!(connection.id(), ConnectionId(4));
    assert_eq!(connection.state(), Lifecycle::Connecting);
    assert_eq!(connection.protocol_version(), None);
    assert_eq!(connection.identity(), None);
    assert_eq!(connection.queued(), 0);
    assert_eq!(connection.capacity(), 3);
    assert!(connection.has_room());
}

#[test]
fn handshake_success_connects() {
    let connection = connected(3);
    assert_eq!(connection.state(), Lifecycle::Connected);
    assert_eq!(connection.protocol_version(), Some(68));
    assert_eq!(connection.identity(), Some(Identity { user_id: 11 }));
}

#[test]
fn handshake_version_mismatch_closes_directly() {
    for version in [0, 67, 69, u32::MAX] {
        let mut connection = Connection::new(ConnectionId(1), 3);
        let r = connection.handshake(&Envelope::hello(version), Some(Identity { user_id: 11 }));
        assert_eq!(r, Err(RpcError::VersionMismatch));
        assert_eq!(connection.state(), Lifecycle::Closed);
        assert_eq!(connection.protocol_version(), None);
    }
}

#[test]
fn handshake_version_is_judged_before_identity() {
    let mut connection = Connection::new(ConnectionId(1), 3);
    assert_eq!(connection.handshake(&Envelope::hello(67), None), Err(RpcError::VersionMismatch));
}

#[test]
fn handshake_without_identity_fails_auth() {
    let mut connection = Connection::new(ConnectionId(1), 3);
    assert_eq!(connection.handshake(&Envelope::hello(PROTOCOL_VERSION), None), Err(RpcError::AuthFailed));
    assert_eq!(connection.state(), Lifecycle::Closed);
}

#[test]
fn handshake_twice_is_a_protocol_error() {
    let mut connection = connected(3);
    let r = connection.handshake(&Envelope::hello(PROTOCOL_VERSION), Some(Identity { user_id: 11 }));
    assert_eq!(r, Err(RpcError::ProtocolError));
    assert_eq!(connection.state(), Lifecycle::Connected);
}

#[test]
fn closed_connection_admits_nothing() {
    let mut connection = Connection::new(ConnectionId(1), 3);
    let _ = connection.handshake(&Envelope::hello(67), Some(Identity { user_id: 11 }));
    let inbound = Envelope {
        version: PROTOCOL_VERSION,
        id: 1,
        responding_to: None,
        payload: call(vec![]),
    };
    assert_eq!(connection.accept(&inbound), Err(RpcError::ConnectionLost));
    assert_eq!(connection.send(None, call(vec![])), SendOutcome::Refused(RpcError::ConnectionLost));
    assert_eq!(connection.next_frame(), None);
}

#[test]
fn connecting_passes_only_handshake_frames() {
    let mut connection = Connection::new(ConnectionId(1), 3);
    let hello = Envelope {
        version: 12,
        id: 1,
        responding_to: None,
        payload: Payload::Request(MessageKind::Hello, vec![]),
    };
    let ping = Envelope {
        version: PROTOCOL_VERSION,
        id: 2,
        responding_to: None,
        payload: Payload::Request(MessageKind::Ping, vec![]),
    };
    assert_eq!(connection.accept(&hello), Ok(()));
    assert_eq!(connection.accept(&ping), Err(RpcError::ProtocolError));
    assert_eq!(
        connection.send(None, Payload::Request(MessageKind::Ping, vec![])),
        SendOutcome::Refused(RpcError::ProtocolError)
    );
    assert_eq!(
        connection.send(None, Payload::Request(MessageKind::Hello, vec![])),
        SendOutcome::Queued(1)
    );
}

#[test]
fn connected_rejects_other_versions_inbound() {
    let connection = connected(3);
    let mut inbound = Envelope {
        version: PROTOCOL_VERSION,
        id: 1,
        responding_to: None,
        payload: call(vec![]),
    };
    assert_eq!(connection.accept(&inbound), Ok(()));
    inbound.version = 67;
    assert_eq!(connection.accept(&inbound), Err(RpcError::ProtocolError));
}

#[test]
fn ids_ascend_from_one() {
    let mut connection = connected(10);
    for expected in 1..=5u32 {
        assert_eq!(connection.send(None, call(vec![])), SendOutcome::Queued(expected));
    }
    assert_eq!(connection.queued(), 5);
}

#[test]
fn full_queue_gives_payload_back() {
    let mut connection = connected(2);
    assert_eq!(connection.send(None, call(vec![1])), SendOutcome::Queued(1));
    assert_eq!(connection.send(None, call(vec![2])), SendOutcome::Queued(2));
    assert!(!connection.has_room());
    assert_eq!(connection.send(None, call(vec![3])), SendOutcome::Full(call(vec![3])));
    assert_eq!(connection.queued(), 2);
    // Room frees when the writer takes a frame; no id was used up meanwhile.
    assert!(connection.next_frame().is_some());
    assert_eq!(connection.send(None, call(vec![3])), SendOutcome::Queued(3));
}

#[test]
fn zero_capacity_never_queues() {
    let mut connection = connected(0);
    assert_eq!(connection.send(None, call(vec![])), SendOutcome::Full(call(vec![])));
}

#[test]
fn oversize_payload_is_refused() {
    let mut connection = connected(2);
    let outcome = connection.send(None, call(vec![0; MAX_PAYLOAD_LEN + 1]));
    assert_eq!(outcome, SendOutcome::Refused(RpcError::ProtocolError));
    assert_eq!(connection.queued(), 0);
    assert_eq!(connection.send(None, call(vec![0; MAX_PAYLOAD_LEN])), SendOutcome::Queued(1));
}

#[test]
fn frames_leave_in_send_order() {
    let mut connection = connected(4);
    let _ = connection.send(None, call(vec![1]));
    let _ = connection.send(Some(77), Payload::Response(MessageKind::Reply, vec![2]));
    let _ = connection.send(None, call(vec![3]));
    let first = decode(&connection.next_frame().unwrap()).unwrap();
    let second = decode(&connection.next_frame().unwrap()).unwrap();
    let third = decode(&connection.next_frame().unwrap()).unwrap();
    assert_eq!(
        first,
        Envelope { version: 68, id: 1, responding_to: None, payload: call(vec![1]) }
    );
    assert_eq!(
        second,
        Envelope {
            version: 68,
            id: 2,
            responding_to: Some(77),
            payload: Payload::Response(MessageKind::Reply, vec![2]),
        }
    );
    assert_eq!(third.id, 3);
    assert_eq!(connection.next_frame(), None);
}

#[test]
fn closing_drains_but_accepts_no_sends() {
    let mut connection = connected(4);
    let _ = connection.send(None, call(vec![1]));
    connection.begin_close();
    assert_eq!(connection.state(), Lifecycle::Closing);
    assert_eq!(connection.send(None, call(vec![2])), SendOutcome::Refused(RpcError::ConnectionLost));
    let inbound = Envelope {
        version: PROTOCOL_VERSION,
        id: 1,
        responding_to: None,
        payload: call(vec![]),
    };
    assert_eq!(connection.accept(&inbound), Ok(()));
    assert!(connection.next_frame().is_some());
    assert_eq!(connection.next_frame(), None);
    connection.begin_close();
    assert_eq!(connection.state(), Lifecycle::Closing);
    connection.close();
    assert_eq!(connection.state(), Lifecycle::Closed);
}

#[test]
fn begin_close_while_connecting_closes() {
    let mut connection = Connection::new(ConnectionId(1), 3);
    connection.begin_close();
    assert_eq!(connection.state(), Lifecycle::Closed);
}

#[test]
fn closed_is_terminal() {
    let mut connection = connected(4);
    let _ = connection.send(None, call(vec![1]));
    connection.close();
    assert_eq!(connection.state(), Lifecycle::Closed);
    assert_eq!(connection.queued(), 0);
    connection.begin_close();
    assert_eq!(connection.state(), Lifecycle::Closed);
    let r = connection.handshake(&Envelope::hello(PROTOCOL_VERSION), Some(Identity { user_id: 1 }));
    assert_eq!(r, Err(RpcError::ProtocolError));
    assert_eq!(connection.state(), Lifecycle::Closed);
    assert!(connection.fail(RpcError::Timeout));
    assert_eq!(connection.state(), Lifecycle::Closed);
}

#[test]
fn fatal_errors_close_and_others_do_not() {
    for error in [
        RpcError::IoError,
        RpcError::ProtocolError,
        RpcError::VersionMismatch,
        RpcError::AuthFailed,
    ] {
        assert!(error.closes_connection());
        let mut connection = connected(4);
        assert!(connection.fail(error));
        assert_eq!(connection.state(), Lifecycle::Closed);
    }
    for error in [RpcError::Timeout, RpcError::ConnectionLost, RpcError::UnmatchedResponse] {
        assert!(!error.closes_connection());
        let mut connection = connected(4);
        assert!(!connection.fail(error));
        assert_eq!(connection.state(), Lifecycle::Connected);
    }
}

#[test]
fn hello_is_judged_by_kind_then_version() {
    assert_eq!(judge_hello(&Envelope::hello(PROTOCOL_VERSION)), Ok(()));
    assert_eq!(judge_hello(&Envelope::hello(69)), Err(RpcError::VersionMismatch));
    let ping = Envelope {
        version: 69,
        id: 0,
        responding_to: None,
        payload: Payload::Request(MessageKind::Ping, vec![]),
    };
    assert_eq!(judge_hello(&ping), Err(RpcError::ProtocolError));
    let mut connection = Connection::new(ConnectionId(1), 3);
    assert_eq!(
        connection.handshake(&ping, Some(Identity { user_id: 11 })),
        Err(RpcError::ProtocolError)
    );
    assert_eq!(connection.state(), Lifecycle::Closed);
}

#[test]
fn hello_envelope_exact() {
    assert_eq!(
        Envelope::hello(68),
        Envelope {
            version: 68,
            id: 0,
            responding_to: None,
            payload: Payload::Request(MessageKind::Hello, vec![]),
        }
    );
}
