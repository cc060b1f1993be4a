//! The peer: the hub that registers connections, numbers requests, matches
//! responses to their waiters and routes everything else to subscribers.
//!
//! The peer decides; it performs no I/O and suspends nobody. Each operation
//! takes what happened and returns what is to be done: the frame to write,
//! the waiter to wake, the subscribers to hand a copy to.

use crate::auth::Identity;
use crate::conn::{
    lemma_after_send_wf, Connection, ConnectionId, ConnectionView, Lifecycle, SendOutcome,
    SendVerdict,
};
use crate::error::RpcError;
use crate::message_stream::spec_encode;
use crate::notification::{
    recipients, selected, slot_of, Dispatcher, DispatcherView, Subscription, SubscriptionId,
};
use crate::pending::{
    connection_lost, keys_distinct, lemma_connection_lost, lemma_request_finds_its_waiter,
    lemma_resolved_once, lemma_slot_found, lemma_surviving_entries, outstanding_on, surviving,
    waiter_of, without, Failure, PendingRequest, PendingTable, WaiterId,
};
use crate::proto::{Envelope, EnvelopeView, MessageKind, Payload, PayloadView};
use crate::replies::{
    forgotten, lemma_forgotten, lemma_noted, lemma_settled, noted, settled, InboundRequest,
    ReplyLedger,
};
use crate::PROTOCOL_VERSION;
use vstd::prelude::*;

verus! {

/// What is to be done with an inbound envelope.
#[derive(Debug, PartialEq, Eq)]
pub enum Dispatch {
    /// It answers an outstanding request: wake that request's waiter with it.
    Deliver { waiter: WaiterId, response: Envelope },
    /// It arrived unasked: hand a copy to each of these subscribers and,
    /// where a reply is expected, to the application, which answers later.
    Notify { subscribers: Vec<SubscriptionId>, envelope: Envelope, reply_expected: bool },
    /// It is dropped. `UnmatchedResponse` where it answers a request nobody
    /// waits for; `ConnectionLost` where its connection is not registered;
    /// `ProtocolError` where it is of another protocol version.
    Rejected(RpcError),
}

/// The mathematical value of a [`Dispatch`].
#[verifier::ext_equal]
pub enum DispatchView {
    Deliver { waiter: WaiterId, response: EnvelopeView },
    Notify { subscribers: Seq<SubscriptionId>, envelope: EnvelopeView, reply_expected: bool },
    Rejected(RpcError),
}

impl View for Dispatch {
    type V = DispatchView;

    open spec fn view(&self) -> DispatchView {
        match self {
            Dispatch::Deliver { waiter, response } => DispatchView::Deliver {
                waiter: *waiter,
                response: response@,
            },
            Dispatch::Notify { subscribers, envelope, reply_expected } => DispatchView::Notify {
                subscribers: subscribers@,
                envelope: envelope@,
                reply_expected: *reply_expected,
            },
            Dispatch::Rejected(error) => DispatchView::Rejected(*error),
        }
    }
}

/// What the writer of a connection is to do next.
#[derive(Debug, PartialEq, Eq)]
pub enum Outgoing {
    /// Write this frame, in one piece.
    Frame(Vec<u8>),
    /// Nothing is queued. Wait until something is.
    Idle,
    /// Nothing is queued and nothing will be: the connection is closing and
    /// has drained, or it is not registered. End the stream.
    Finished,
}

/// The mathematical value of an [`Outgoing`].
#[verifier::ext_equal]
pub enum OutgoingView {
    Frame(Seq<u8>),
    Idle,
    Finished,
}

impl View for Outgoing {
    type V = OutgoingView;

    open spec fn view(&self) -> OutgoingView {
        match self {
            Outgoing::Frame(bytes) => OutgoingView::Frame(bytes@),
            Outgoing::Idle => OutgoingView::Idle,
            Outgoing::Finished => OutgoingView::Finished,
        }
    }
}

/// What follows from the end of a connection.
#[derive(Debug, PartialEq, Eq)]
pub struct Disconnected {
    /// The connection that ended.
    pub connection: ConnectionId,
    /// Why it ended: `ConnectionLost` where it was disconnected, else the
    /// error that was fatal to it.
    pub reason: RpcError,
    /// What the waiters of the requests that were outstanding on the
    /// connection are to be told: `ConnectionLost`, one each.
    pub lost: Vec<Failure>,
    /// The subscribers to tell of the disconnect.
    pub subscribers: Vec<SubscriptionId>,
}

/// The mathematical value of a [`Disconnected`].
#[verifier::ext_equal]
pub struct DisconnectedView {
    pub connection: ConnectionId,
    pub reason: RpcError,
    pub lost: Seq<Failure>,
    pub subscribers: Seq<SubscriptionId>,
}

impl View for Disconnected {
    type V = DisconnectedView;

    open spec fn view(&self) -> DisconnectedView {
        DisconnectedView {
            connection: self.connection,
            reason: self.reason,
            lost: self.lost@,
            subscribers: self.subscribers@,
        }
    }
}

/// The mathematical values of a run of connections, in order.
pub open spec fn connection_views(connections: Seq<Connection>) -> Seq<ConnectionView> {
    connections.map_values(|c: Connection| c@)
}

/// The mathematical value of a [`Peer`].
#[verifier::ext_equal]
pub struct PeerView {
    /// The registered connections, in the order they were added.
    pub connections: Seq<ConnectionView>,
    /// The outstanding requests, oldest first.
    pub pending: Seq<PendingRequest>,
    /// The remote's requests that the application has yet to answer.
    pub owed: Seq<InboundRequest>,
    /// The register of subscriptions.
    pub dispatcher: DispatcherView,
    /// The id that the next connection gets.
    pub next_connection_id: u32,
    /// The room that each new connection's outgoing queue gets.
    pub queue_capacity: nat,
}

impl PeerView {
    /// Where the connection with this id stands, if it is registered.
    pub open spec fn index_of(self, id: ConnectionId) -> Option<int> {
        if exists|i: int| 0 <= i < self.connections.len() && (#[trigger] self.connections[i]).id == id {
            Some(
                choose|i: int|
                    0 <= i < self.connections.len() && (#[trigger] self.connections[i]).id == id,
            )
        } else {
            None
        }
    }

    /// The connection with this id, if it is registered.
    pub open spec fn connection(self, id: ConnectionId) -> Option<ConnectionView> {
        match self.index_of(id) {
            Some(i) => Some(self.connections[i]),
            None => None,
        }
    }

    /// Whether a connection with this id is registered.
    pub open spec fn is_registered(self, id: ConnectionId) -> bool {
        self.index_of(id) is Some
    }

    /// Whether an outstanding request belongs to a registered connection
    /// that has handed out its id.
    pub open spec fn backs(self, entry: PendingRequest) -> bool {
        exists|i: int|
            0 <= i < self.connections.len() && (#[trigger] self.connections[i]).id
                == entry.connection_id && entry.request_id < self.connections[i].next_id
    }

    /// Every registered connection is past its handshake and not yet
    /// closed, and no two share an id; at most one request is outstanding
    /// per connection and id, and each belongs to a registered connection.
    pub open spec fn wf(self) -> bool {
        &&& self.dispatcher.wf()
        &&& keys_distinct(self.pending)
        &&& self.owed.no_duplicates()
        &&& forall|i: int|
            0 <= i < self.connections.len() ==> {
                &&& (#[trigger] self.connections[i]).wf()
                &&& self.connections[i].state is Connected || self.connections[i].state is Closing
                &&& self.connections[i].id.0 < self.next_connection_id
            }
        &&& forall|i: int, j: int|
            0 <= i < j < self.connections.len() ==> (#[trigger] self.connections[i]).id != (
            #[trigger] self.connections[j]).id
        &&& forall|k: int| 0 <= k < self.pending.len() ==> self.backs(#[trigger] self.pending[k])
    }

    /// The connection that a newcomer starts as.
    pub open spec fn newcomer(self) -> ConnectionView {
        ConnectionView::fresh(ConnectionId(self.next_connection_id), self.queue_capacity)
    }

    /// How adding a connection with these handshake facts ends. The
    /// remote's opening envelope is judged first, then the identity, then
    /// whether an id is left.
    pub open spec fn add_result(self, hello: EnvelopeView, identity: Option<Identity>) -> Result<
        ConnectionId,
        RpcError,
    > {
        match self.newcomer().handshake_result(hello, identity) {
            Err(error) => Err(error),
            Ok(()) => if self.next_connection_id == u32::MAX {
                Err(RpcError::ProtocolError)
            } else {
                Ok(ConnectionId(self.next_connection_id))
            },
        }
    }

    /// The peer after adding a connection with these handshake facts.
    pub open spec fn after_add(self, hello: EnvelopeView, identity: Option<Identity>) -> PeerView {
        if self.add_result(hello, identity) is Ok {
            PeerView {
                connections: self.connections.push(
                    self.newcomer().after_handshake(hello, identity),
                ),
                next_connection_id: (self.next_connection_id + 1) as u32,
                ..self
            }
        } else {
            self
        }
    }

    /// What becomes of a payload to be sent on a connection.
    pub open spec fn send_verdict(self, id: ConnectionId, payload: PayloadView) -> SendVerdict {
        match self.connection(id) {
            Some(connection) => connection.send_verdict(payload),
            None => SendVerdict::Refuse(RpcError::ConnectionLost),
        }
    }

    /// The peer with one connection replaced.
    pub open spec fn replaced(self, i: int, connection: ConnectionView) -> PeerView {
        PeerView { connections: self.connections.update(i, connection), ..self }
    }

    /// The peer after a payload has been handed to a connection for sending.
    pub open spec fn after_send(
        self,
        id: ConnectionId,
        responding_to: Option<u32>,
        payload: PayloadView,
    ) -> PeerView {
        if self.send_verdict(id, payload) is Queue {
            self.replaced(
                self.index_of(id)->0,
                self.connection(id)->0.after_send(responding_to, payload),
            )
        } else {
            self
        }
    }

    /// The peer after a request has been handed to a connection: where it
    /// is queued, it is outstanding under the id that the connection gave it.
    pub open spec fn after_request(
        self,
        id: ConnectionId,
        payload: PayloadView,
        waiter: WaiterId,
    ) -> PeerView {
        if self.send_verdict(id, payload) is Queue {
            PeerView {
                pending: self.pending.push(
                    PendingRequest {
                        connection_id: id,
                        request_id: self.connection(id)->0.next_id,
                        waiter,
                    },
                ),
                ..self.after_send(id, None, payload)
            }
        } else {
            self
        }
    }

    /// What is to be done with an envelope that arrived on a connection.
    pub open spec fn dispatched(self, id: ConnectionId, envelope: EnvelopeView) -> DispatchView {
        match self.connection(id) {
            None => DispatchView::Rejected(RpcError::ConnectionLost),
            Some(connection) => match connection.accepts(envelope) {
                Err(error) => DispatchView::Rejected(error),
                Ok(()) => match envelope.responding_to {
                    Some(request_id) => match waiter_of(self.pending, id, request_id) {
                        Some(waiter) => DispatchView::Deliver { waiter, response: envelope },
                        None => DispatchView::Rejected(RpcError::UnmatchedResponse),
                    },
                    None => DispatchView::Notify {
                        subscribers: recipients(self.dispatcher.subscriptions, id, envelope),
                        envelope,
                        reply_expected: envelope.wants_reply(),
                    },
                },
            },
        }
    }

    /// The peer after an envelope has arrived on a connection: where it is
    /// delivered to a waiter, that request is no longer outstanding; where
    /// it goes to the application for an answer, that answer is owed; in
    /// every other case nothing changes.
    pub open spec fn after_dispatch(self, id: ConnectionId, envelope: EnvelopeView) -> PeerView {
        match self.dispatched(id, envelope) {
            DispatchView::Deliver { .. } => PeerView {
                pending: without(self.pending, id, envelope.responding_to->0),
                ..self
            },
            DispatchView::Notify { reply_expected, .. } => if reply_expected {
                PeerView {
                    owed: noted(
                        self.owed,
                        InboundRequest { connection_id: id, request_id: envelope.id },
                    ),
                    ..self
                }
            } else {
                self
            },
            DispatchView::Rejected(_) => self,
        }
    }

    /// What becomes of an answer to a request of the remote's. It has to be
    /// a response or an error, and the request has to be one that arrived
    /// on this connection and is still unanswered.
    pub open spec fn respond_verdict(
        self,
        id: ConnectionId,
        responding_to: u32,
        payload: PayloadView,
    ) -> SendVerdict {
        if !self.is_registered(id) {
            SendVerdict::Refuse(RpcError::ConnectionLost)
        } else if payload is Request {
            SendVerdict::Refuse(RpcError::ProtocolError)
        } else if !self.owed.contains(
            InboundRequest { connection_id: id, request_id: responding_to },
        ) {
            SendVerdict::Refuse(RpcError::UnmatchedResponse)
        } else {
            self.send_verdict(id, payload)
        }
    }

    /// The peer after an answer has been handed to a connection: where it
    /// is queued, it is no longer owed.
    pub open spec fn after_respond(
        self,
        id: ConnectionId,
        responding_to: u32,
        payload: PayloadView,
    ) -> PeerView {
        if self.respond_verdict(id, responding_to, payload) is Queue {
            PeerView {
                owed: settled(
                    self.owed,
                    InboundRequest { connection_id: id, request_id: responding_to },
                ),
                ..self.after_send(id, Some(responding_to), payload)
            }
        } else {
            self
        }
    }

    /// The peer after a caller has given up on a request.
    pub open spec fn after_cancel(self, id: ConnectionId, request_id: u32) -> PeerView {
        PeerView { pending: without(self.pending, id, request_id), ..self }
    }

    /// The report of an event on a connection that ends nothing.
    pub open spec fn nothing_ended(id: ConnectionId, reason: RpcError) -> DisconnectedView {
        DisconnectedView {
            connection: id,
            reason,
            lost: Seq::empty(),
            subscribers: Seq::empty(),
        }
    }

    /// What follows from the end of a connection: nothing where it is not
    /// registered.
    pub open spec fn disconnected(self, id: ConnectionId, reason: RpcError) -> DisconnectedView {
        if self.is_registered(id) {
            DisconnectedView {
                connection: id,
                reason,
                lost: connection_lost(outstanding_on(self.pending, id)),
                subscribers: selected(self.dispatcher.subscriptions, id, None),
            }
        } else {
            PeerView::nothing_ended(id, reason)
        }
    }

    /// The peer after the end of a connection: the connection is gone from
    /// the register and so is every request that was outstanding on it.
    pub open spec fn after_disconnect(self, id: ConnectionId) -> PeerView {
        match self.index_of(id) {
            Some(i) => PeerView {
                connections: self.connections.remove(i),
                pending: surviving(self.pending, id),
                owed: forgotten(self.owed, id),
                ..self
            },
            None => self,
        }
    }

    /// The peer after shutdown has begun on a connection.
    pub open spec fn after_begin_close(self, id: ConnectionId) -> PeerView {
        match self.index_of(id) {
            Some(i) => self.replaced(i, self.connections[i].after_begin_close()),
            None => self,
        }
    }

    /// What the writer of a connection is to do next: write the frame of the
    /// oldest queued envelope where there is one; else wait, unless the
    /// connection is closing or gone.
    pub open spec fn outgoing(self, id: ConnectionId) -> OutgoingView {
        match self.connection(id) {
            Some(connection) => if connection.outgoing.len() > 0 {
                OutgoingView::Frame(spec_encode(connection.outgoing[0]))
            } else if connection.state is Closing {
                OutgoingView::Finished
            } else {
                OutgoingView::Idle
            },
            None => OutgoingView::Finished,
        }
    }

    /// The peer after the writer of a connection has taken the oldest
    /// queued envelope.
    pub open spec fn after_drain(self, id: ConnectionId) -> PeerView {
        match self.index_of(id) {
            Some(i) => if self.connections[i].outgoing.len() > 0 {
                self.replaced(i, self.connections[i].after_drain())
            } else {
                self
            },
            None => self,
        }
    }
}

/// With distinct ids, a connection stands where any connection with its id stands.
pub proof fn lemma_index_is(peer: PeerView, id: ConnectionId, i: int)
    requires
        peer.wf(),
        0 <= i < peer.connections.len(),
        peer.connections[i].id == id,
    ensures
        peer.index_of(id) == Some(i),
        peer.connection(id) == Some(peer.connections[i]),
{
    let chosen = peer.index_of(id)->0;
    if chosen < i {
        assert(peer.connections[chosen].id != peer.connections[i].id);
    } else if chosen > i {
        assert(peer.connections[i].id != peer.connections[chosen].id);
    }
}

/// Replacing a connection by a later stage of itself keeps the peer well formed.
proof fn lemma_replaced_wf(peer: PeerView, i: int, connection: ConnectionView)
    requires
        peer.wf(),
        0 <= i < peer.connections.len(),
        connection.wf(),
        connection.id == peer.connections[i].id,
        connection.state is Connected || connection.state is Closing,
        connection.next_id >= peer.connections[i].next_id,
    ensures
        peer.replaced(i, connection).wf(),
{
    let after = peer.replaced(i, connection);
    assert forall|k: int| 0 <= k < after.pending.len() implies after.backs(
        #[trigger] after.pending[k],
    ) by {
        let entry = peer.pending[k];
        assert(peer.backs(entry));
        let j = choose|j: int|
            0 <= j < peer.connections.len() && (#[trigger] peer.connections[j]).id
                == entry.connection_id && entry.request_id < peer.connections[j].next_id;
        assert(after.connections[j].id == entry.connection_id);
    }
}

/// Dropping outstanding requests keeps the peer well formed.
proof fn lemma_fewer_pending_wf(peer: PeerView, pending: Seq<PendingRequest>)
    requires
        peer.wf(),
        keys_distinct(pending),
        forall|entry: PendingRequest| #[trigger] pending.contains(entry) ==> peer.pending.contains(entry),
    ensures
        (PeerView { pending, ..peer }).wf(),
{
    let after = PeerView { pending, ..peer };
    assert forall|k: int| 0 <= k < pending.len() implies after.backs(#[trigger] pending[k]) by {
        let entry = pending[k];
        assert(pending.contains(entry));
        let k0 = choose|k0: int| 0 <= k0 < peer.pending.len() && peer.pending[k0] == entry;
        assert(peer.backs(peer.pending[k0]));
        let j = choose|j: int|
            0 <= j < peer.connections.len() && (#[trigger] peer.connections[j]).id
                == entry.connection_id && entry.request_id < peer.connections[j].next_id;
        assert(after.connections[j].id == entry.connection_id);
    }
}

/// Taking a request out of the table keeps the peer well formed.
proof fn lemma_after_cancel_wf(peer: PeerView, id: ConnectionId, request_id: u32)
    requires
        peer.wf(),
    ensures
        peer.after_cancel(id, request_id).wf(),
{
    let rest = without(peer.pending, id, request_id);
    lemma_resolved_once(peer.pending, id, request_id);
    lemma_slot_found(peer.pending, id, request_id);
    assert forall|entry: PendingRequest| #[trigger] rest.contains(entry) implies peer.pending.contains(
        entry,
    ) by {
        let k = choose|k: int| 0 <= k < rest.len() && rest[k] == entry;
        match crate::pending::slot(peer.pending, id, request_id) {
            Some(gone) => {
                let k0 = if k < gone {
                    k
                } else {
                    k + 1
                };
                assert(peer.pending[k0] == entry);
            },
            None => {},
        }
    }
    lemma_fewer_pending_wf(peer, rest);
}

/// Sending a request keeps the peer well formed, and the id it goes out
/// under is not the id of any request already outstanding.
pub proof fn lemma_after_request_wf(
    peer: PeerView,
    id: ConnectionId,
    payload: PayloadView,
    waiter: WaiterId,
)
    requires
        peer.wf(),
        peer.send_verdict(id, payload) is Queue,
    ensures
        peer.connection(id) is Some,
        peer.connection(id)->0.state is Connected,
        waiter_of(peer.pending, id, peer.connection(id)->0.next_id) is None,
        peer.after_send(id, None, payload).wf(),
        peer.after_request(id, payload, waiter).wf(),
        peer.after_request(id, payload, waiter).index_of(id) == peer.index_of(id),
{
    let i = peer.index_of(id)->0;
    let connection = peer.connections[i];
    let request_id = connection.next_id;
    let queued = connection.after_send(None, payload);
    lemma_after_send_wf(connection, None, payload);
    lemma_replaced_wf(peer, i, queued);
    let sent = peer.after_send(id, None, payload);
    let entry = PendingRequest { connection_id: id, request_id, waiter };
    lemma_slot_found(peer.pending, id, request_id);
    if let Some(k) = crate::pending::slot(peer.pending, id, request_id) {
        assert(peer.backs(peer.pending[k]));
        let j = choose|j: int|
            0 <= j < peer.connections.len() && (#[trigger] peer.connections[j]).id == id
                && request_id < peer.connections[j].next_id;
        lemma_index_is(peer, id, j);
    }
    lemma_request_finds_its_waiter(peer.pending, entry, id, request_id);
    let after = peer.after_request(id, payload, waiter);
    assert(after.connections == sent.connections);
    assert forall|k: int| 0 <= k < after.pending.len() implies after.backs(
        #[trigger] after.pending[k],
    ) by {
        if k < sent.pending.len() {
            assert(sent.backs(sent.pending[k]));
        } else {
            assert(after.connections[i].id == id);
        }
    }
    lemma_index_is(after, id, i);
}

/// Correlation, end to end: the response to a request wakes exactly the
/// waiter that the request was sent for and takes the request out of the
/// table; a second response with the same id wakes nobody.
pub proof fn lemma_response_reaches_its_waiter(
    peer: PeerView,
    id: ConnectionId,
    payload: PayloadView,
    waiter: WaiterId,
    response: EnvelopeView,
)
    requires
        peer.wf(),
        peer.send_verdict(id, payload) is Queue,
        response.version == PROTOCOL_VERSION,
        response.responding_to == Some(peer.connection(id)->0.next_id),
    ensures
        peer.after_request(id, payload, waiter).dispatched(id, response) == (DispatchView::Deliver {
            waiter,
            response,
        }),
        peer.after_request(id, payload, waiter).after_dispatch(id, response).pending
            == peer.pending,
        peer.after_request(id, payload, waiter).after_dispatch(id, response).dispatched(
            id,
            response,
        ) == DispatchView::Rejected(RpcError::UnmatchedResponse),
{
    let request_id = peer.connection(id)->0.next_id;
    let entry = PendingRequest { connection_id: id, request_id, waiter };
    lemma_after_request_wf(peer, id, payload, waiter);
    lemma_request_finds_its_waiter(peer.pending, entry, id, request_id);
    let sent = peer.after_request(id, payload, waiter);
    let i = peer.index_of(id)->0;
    assert(sent.connection(id)->0.state is Connected);
    let done = sent.after_dispatch(id, response);
    assert(done.connections == sent.connections);
    lemma_index_is(sent, id, i);
    assert(done.index_of(id) == sent.index_of(id));
}

/// Whatever is delivered to a waiter is the response to its request: the
/// envelope names a request that this waiter is registered for on this
/// connection. And what goes to subscribers answers no request.
pub proof fn lemma_delivery_is_correlated(peer: PeerView, id: ConnectionId, envelope: EnvelopeView)
    ensures
        peer.dispatched(id, envelope) matches DispatchView::Deliver { waiter, response } ==> {
            &&& response == envelope
            &&& envelope.responding_to is Some
            &&& peer.pending.contains(
                PendingRequest {
                    connection_id: id,
                    request_id: envelope.responding_to->0,
                    waiter,
                },
            )
        },
        peer.dispatched(id, envelope) is Notify ==> !envelope.is_reply(),
        envelope.is_reply() ==> !(peer.dispatched(id, envelope) is Notify),
{
    if let Some(request_id) = envelope.responding_to {
        lemma_slot_found(peer.pending, id, request_id);
        if let Some(k) = crate::pending::slot(peer.pending, id, request_id) {
            assert(peer.pending[k] == PendingRequest {
                connection_id: id,
                request_id,
                waiter: peer.pending[k].waiter,
            });
        }
    }
}

/// Responses may arrive in any order: the response to one request does not
/// change what becomes of the response to another, and whichever of the
/// two arrives first, the peer ends up the same.
pub proof fn lemma_responses_in_any_order(
    peer: PeerView,
    first_connection: ConnectionId,
    first: EnvelopeView,
    second_connection: ConnectionId,
    second: EnvelopeView,
)
    requires
        peer.wf(),
        first.responding_to is Some,
        second.responding_to is Some,
        !(first_connection == second_connection && first.responding_to == second.responding_to),
    ensures
        peer.after_dispatch(first_connection, first).dispatched(second_connection, second)
            == peer.dispatched(second_connection, second),
        peer.after_dispatch(second_connection, second).dispatched(first_connection, first)
            == peer.dispatched(first_connection, first),
        peer.after_dispatch(first_connection, first).after_dispatch(second_connection, second)
            == peer.after_dispatch(second_connection, second).after_dispatch(
            first_connection,
            first,
        ),
{
    let first_id = first.responding_to->0;
    let second_id = second.responding_to->0;
    crate::pending::lemma_responses_in_any_order(
        peer.pending,
        first_connection,
        first_id,
        second_connection,
        second_id,
    );
    let after_first = peer.after_dispatch(first_connection, first);
    let after_second = peer.after_dispatch(second_connection, second);
    assert(after_first.connections == peer.connections);
    assert(after_second.connections == peer.connections);
    assert(after_first.index_of(second_connection) == peer.index_of(second_connection));
    assert(after_second.index_of(first_connection) == peer.index_of(first_connection));
    lemma_slot_found(peer.pending, first_connection, first_id);
    lemma_slot_found(peer.pending, second_connection, second_id);
}

/// An answer is owed once: a request of the remote's that was handed to the
/// application for an answer can be answered, and once its answer is
/// queued a second answer to it is refused as `UnmatchedResponse`.
pub proof fn lemma_answer_is_owed_once(
    peer: PeerView,
    id: ConnectionId,
    request: EnvelopeView,
    answer: PayloadView,
)
    requires
        peer.wf(),
        peer.dispatched(id, request) is Notify,
        request.wants_reply(),
        !(answer is Request),
    ensures
        peer.after_dispatch(id, request).wf(),
        peer.after_dispatch(id, request).respond_verdict(id, request.id, answer)
            == peer.send_verdict(id, answer),
        peer.send_verdict(id, answer) is Queue ==> peer.after_dispatch(id, request).after_respond(
            id,
            request.id,
            answer,
        ).respond_verdict(id, request.id, answer) == SendVerdict::Refuse(
            RpcError::UnmatchedResponse,
        ),
{
    let entry = InboundRequest { connection_id: id, request_id: request.id };
    let asked = peer.after_dispatch(id, request);
    lemma_noted(peer.owed, entry, entry);
    lemma_settled(asked.owed, entry, entry);
    assert(asked.connections == peer.connections);
    assert(asked.index_of(id) == peer.index_of(id));
    if peer.send_verdict(id, answer) is Queue {
        let i = peer.index_of(id)->0;
        let connection = peer.connections[i];
        lemma_after_send_wf(connection, Some(request.id), answer);
        lemma_replaced_wf(asked, i, connection.after_send(Some(request.id), answer));
        let sent = asked.after_send(id, Some(request.id), answer);
        lemma_index_is(sent, id, i);
        let done = asked.after_respond(id, request.id, answer);
        assert(done.connections == sent.connections);
        assert(done.index_of(id) == sent.index_of(id));
    }
}

/// A remote that announces another version is never registered: adding it
/// fails, with `VersionMismatch` where its opening envelope is otherwise in
/// order, and leaves the peer as it was; the newcomer goes from
/// `Connecting` straight to `Closed`; and an envelope that claims to come
/// from it is dropped.
pub proof fn lemma_mismatched_version_is_never_dispatched(
    peer: PeerView,
    hello: EnvelopeView,
    identity: Option<Identity>,
    envelope: EnvelopeView,
)
    requires
        peer.wf(),
        hello.version != PROTOCOL_VERSION,
    ensures
        peer.add_result(hello, identity) is Err,
        hello.payload.kind().spec_is_handshake() ==> peer.add_result(hello, identity) == Err::<
            ConnectionId,
            RpcError,
        >(RpcError::VersionMismatch),
        peer.after_add(hello, identity) == peer,
        peer.newcomer().state is Connecting,
        peer.newcomer().after_handshake(hello, identity).state is Closed,
        peer.after_add(hello, identity).dispatched(peer.newcomer().id, envelope)
            == DispatchView::Rejected(RpcError::ConnectionLost),
{
    let id = peer.newcomer().id;
    if let Some(i) = peer.index_of(id) {
        assert(peer.connections[i].id.0 < peer.next_connection_id);
    }
}

/// Losing a connection fails exactly the requests outstanding on it, each
/// with `ConnectionLost`, leaves none of them in the table and the
/// connection out of the register, and spares every other connection's
/// requests. Doing it again changes nothing more.
pub proof fn lemma_disconnect_fails_all_outstanding(
    peer: PeerView,
    id: ConnectionId,
    reason: RpcError,
    other: ConnectionId,
    request_id: u32,
)
    requires
        peer.wf(),
    ensures
        peer.disconnected(id, reason).lost.len() == outstanding_on(peer.pending, id).len(),
        forall|k: int|
            0 <= k < peer.disconnected(id, reason).lost.len() ==> {
                &&& (#[trigger] peer.disconnected(id, reason).lost[k]).error == RpcError::ConnectionLost
                &&& peer.disconnected(id, reason).lost[k].waiter == outstanding_on(peer.pending, id)[k].waiter
            },
        peer.after_disconnect(id).wf(),
        !peer.after_disconnect(id).is_registered(id),
        outstanding_on(peer.after_disconnect(id).pending, id).len() == 0,
        waiter_of(peer.after_disconnect(id).pending, id, request_id) is None,
        other != id ==> waiter_of(peer.after_disconnect(id).pending, other, request_id)
            == waiter_of(peer.pending, other, request_id),
        peer.after_disconnect(id).after_disconnect(id) == peer.after_disconnect(id),
        peer.after_disconnect(id).disconnected(id, reason) == PeerView::nothing_ended(id, reason),
{
    let after = peer.after_disconnect(id);
    lemma_forgotten(peer.owed, id);
    lemma_surviving_entries(peer.pending, id);
    lemma_connection_lost(peer.pending, id, other, request_id);
    lemma_connection_lost(peer.pending, id, id, request_id);
    match peer.index_of(id) {
        None => {
            let gone = outstanding_on(peer.pending, id);
            if gone.len() > 0 {
                assert(gone.contains(gone[0]));
                let k = choose|k: int| 0 <= k < peer.pending.len() && peer.pending[k] == gone[0];
                assert(peer.backs(peer.pending[k]));
            }
            lemma_slot_found(peer.pending, id, request_id);
            if let Some(k) = crate::pending::slot(peer.pending, id, request_id) {
                assert(peer.backs(peer.pending[k]));
            }
        },
        Some(i) => {
            assert forall|j: int| 0 <= j < after.connections.len() implies (
            #[trigger] after.connections[j]).id != id by {
                let j0 = if j < i {
                    j
                } else {
                    j + 1
                };
                assert(after.connections[j] == peer.connections[j0]);
                if j0 < i {
                    assert(peer.connections[j0].id != peer.connections[i].id);
                } else {
                    assert(peer.connections[i].id != peer.connections[j0].id);
                }
            }
            assert forall|a: int, b: int| 0 <= a < b < after.connections.len() implies (
            #[trigger] after.connections[a]).id != (#[trigger] after.connections[b]).id by {
                let a0 = if a < i {
                    a
                } else {
                    a + 1
                };
                let b0 = if b < i {
                    b
                } else {
                    b + 1
                };
                assert(peer.connections[a0].id != peer.connections[b0].id);
            }
            assert forall|k: int| 0 <= k < after.pending.len() implies after.backs(
                #[trigger] after.pending[k],
            ) by {
                let entry = after.pending[k];
                assert(after.pending.contains(entry));
                let k0 = choose|k0: int| 0 <= k0 < peer.pending.len() && peer.pending[k0] == entry;
                assert(peer.backs(peer.pending[k0]));
                let j = choose|j: int|
                    0 <= j < peer.connections.len() && (#[trigger] peer.connections[j]).id
                        == entry.connection_id && entry.request_id < peer.connections[j].next_id;
                let j1 = if j < i {
                    j
                } else {
                    j - 1
                };
                assert(after.connections[j1] == peer.connections[j]);
            }
        },
    }
}

/// The hub of all connections of one process.
#[derive(Debug)]
pub struct Peer {
    connections: Vec<Connection>,
    pending: PendingTable,
    replies: ReplyLedger,
    dispatcher: Dispatcher,
    next_connection_id: u32,
    queue_capacity: usize,
}

impl View for Peer {
    type V = PeerView;

    closed spec fn view(&self) -> PeerView {
        PeerView {
            connections: connection_views(self.connections@),
            pending: self.pending@,
            owed: self.replies@,
            dispatcher: self.dispatcher@,
            next_connection_id: self.next_connection_id,
            queue_capacity: self.queue_capacity as nat,
        }
    }
}

impl Peer {
    /// See [`PeerView::wf`].
    pub open spec fn wf(&self) -> bool {
        self@.wf()
    }

    /// A peer without connections, whose connections will each queue up to
    /// `queue_capacity` outgoing envelopes.
    pub fn new(queue_capacity: usize) -> (peer: Peer)
        ensures
            peer.wf(),
            peer@.connections == Seq::<ConnectionView>::empty(),
            peer@.pending == Seq::<PendingRequest>::empty(),
            peer@.owed == Seq::<InboundRequest>::empty(),
            peer@.dispatcher.subscriptions == Seq::<Subscription>::empty(),
            peer@.next_connection_id == 0,
            peer@.queue_capacity == queue_capacity,
    {
        let peer = Peer {
            connections: Vec::new(),
            pending: PendingTable::new(),
            replies: ReplyLedger::new(),
            dispatcher: Dispatcher::new(),
            next_connection_id: 0,
            queue_capacity,
        };
        assert(peer@.connections =~= Seq::<ConnectionView>::empty());
        peer
    }

    /// Where the connection with this id stands.
    fn find(&self, id: ConnectionId) -> (found: Option<usize>)
        requires
            self.wf(),
        ensures
            match found {
                Some(i) => self@.index_of(id) == Some(i as int) && i < self.connections@.len(),
                None => self@.index_of(id) is None,
            },
    {
        let mut i: usize = 0;
        while i < self.connections.len()
            invariant
                self.wf(),
                i <= self.connections@.len(),
                forall|j: int| 0 <= j < i ==> (#[trigger] self@.connections[j]).id != id,
            decreases self.connections@.len() - i,
        {
            if self.connections[i].id() == id {
                proof {
                    lemma_index_is(self@, id, i as int);
                }
                return Some(i);
            }
            i = i + 1;
        }
        None
    }

    /// Whether a connection with this id is registered.
    pub fn is_registered(&self, id: ConnectionId) -> (registered: bool)
        requires
            self.wf(),
        ensures
            registered == self@.is_registered(id),
    {
        self.find(id).is_some()
    }

    /// The stage of a registered connection: `Connected` or `Closing`.
    pub fn connection_state(&self, id: ConnectionId) -> (state: Option<Lifecycle>)
        requires
            self.wf(),
        ensures
            state == match self@.connection(id) {
                Some(connection) => Some(connection.state),
                None => None,
            },
            state is Some ==> state->0 is Connected || state->0 is Closing,
    {
        match self.find(id) {
            Some(i) => Some(self.connections[i].state()),
            None => None,
        }
    }

    /// How many connections are registered.
    pub fn connection_count(&self) -> (count: usize)
        ensures
            count == self@.connections.len(),
    {
        self.connections.len()
    }

    /// How many requests are outstanding, on all connections together.
    pub fn pending_count(&self) -> (count: usize)
        ensures
            count == self@.pending.len(),
    {
        self.pending.len()
    }

    /// How many requests are outstanding on one connection.
    pub fn outstanding(&self, id: ConnectionId) -> (count: usize)
        ensures
            count == outstanding_on(self@.pending, id).len(),
    {
        self.pending.outstanding(id)
    }

    /// Who waits for the response to a request, if it is outstanding.
    pub fn waiter(&self, id: ConnectionId, request_id: u32) -> (waiter: Option<WaiterId>)
        requires
            self.wf(),
        ensures
            waiter == waiter_of(self@.pending, id, request_id),
    {
        self.pending.waiter(id, request_id)
    }

    /// Takes a transport whose handshake facts are known into the register:
    /// the envelope that the remote opened the connection with, and the
    /// identity that the authenticator established for it, if any.
    ///
    /// The newcomer starts as `Connecting`. An opening envelope that is no
    /// handshake frame ends it with `ProtocolError`, one of another version
    /// than this build's with `VersionMismatch`, a missing identity with
    /// `AuthFailed`; it is then closed without ever having been connected,
    /// and the peer is as before. Otherwise it is registered as `Connected`
    /// under a fresh id. `ProtocolError` where no id is left.
    pub fn add_connection(&mut self, hello: &Envelope, identity: Option<Identity>) -> (r: Result<
        ConnectionId,
        RpcError,
    >)
        requires
            old(self).wf(),
        ensures
            final(self).wf(),
            r == old(self)@.add_result(hello@, identity),
            final(self)@ == old(self)@.after_add(hello@, identity),
    {
        let id = ConnectionId(self.next_connection_id);
        let mut connection = Connection::new(id, self.queue_capacity);
        match connection.handshake(hello, identity) {
            Err(error) => Err(error),
            Ok(()) => {
                if self.next_connection_id == u32::MAX {
                    connection.close();
                    return Err(RpcError::ProtocolError);
                }
                self.connections.push(connection);
                self.next_connection_id = self.next_connection_id + 1;
                proof {
                    let before = old(self)@;
                    let after = self@;
                    assert(after.connections =~= before.connections.push(connection@));
                    assert forall|k: int| 0 <= k < after.pending.len() implies after.backs(
                        #[trigger] after.pending[k],
                    ) by {
                        let entry = before.pending[k];
                        assert(before.backs(entry));
                        let j = choose|j: int|
                            0 <= j < before.connections.len() && (
                            #[trigger] before.connections[j]).id == entry.connection_id
                                && entry.request_id < before.connections[j].next_id;
                        assert(after.connections[j].id == entry.connection_id);
                    }
                }
                Ok(id)
            },
        }
    }

    /// Hands a payload to the connection at `i` for sending.
    fn send_at(&mut self, i: usize, responding_to: Option<u32>, payload: Payload) -> (outcome:
        SendOutcome)
        requires
            old(self).wf(),
            i < old(self).connections@.len(),
        ensures
            final(self).wf(),
            final(self).pending == old(self).pending,
            final(self)@.pending == old(self)@.pending,
            match old(self)@.connections[i as int].send_verdict(payload@) {
                SendVerdict::Queue => {
                    &&& outcome matches SendOutcome::Queued(id)
                    &&& id == old(self)@.connections[i as int].next_id
                    &&& final(self)@ == old(self)@.replaced(
                        i as int,
                        old(self)@.connections[i as int].after_send(responding_to, payload@),
                    )
                },
                SendVerdict::Full => {
                    &&& outcome matches SendOutcome::Full(back)
                    &&& back@ == payload@
                    &&& final(self)@ == old(self)@
                },
                SendVerdict::Refuse(error) => {
                    &&& outcome matches SendOutcome::Refused(e)
                    &&& e == error
                    &&& final(self)@ == old(self)@
                },
            },
    {
        let ghost before = self@;
        let outcome = self.connections[i].send(responding_to, payload);
        proof {
            let now = self.connections@[i as int]@;
            assert(self@.connections =~= before.connections.update(i as int, now));
            assert(self@ == before.replaced(i as int, now));
            lemma_replaced_wf(before, i as int, now);
            if !(before.connections[i as int].send_verdict(payload@) is Queue) {
                assert(before.connections.update(i as int, now) =~= before.connections);
            }
        }
        outcome
    }

    /// Sends a request and registers `waiter` for its response.
    ///
    /// The connection numbers the request with its next id and queues it.
    /// From then on the request is outstanding, until its response is
    /// dispatched, its connection is lost, or its caller gives up. Where the
    /// queue is full nothing is registered and the payload comes back: the
    /// caller waits for room and asks again. Refused with `ConnectionLost`
    /// where the connection is not registered or is closing, and with
    /// `ProtocolError` where the payload is too large or the connection has
    /// run out of ids.
    pub fn request(&mut self, id: ConnectionId, kind: MessageKind, data: Vec<u8>, waiter: WaiterId)
        -> (outcome: SendOutcome)
        requires
            old(self).wf(),
        ensures
            final(self).wf(),
            final(self)@ == old(self)@.after_request(id, PayloadView::Request(kind, data@), waiter),
            match old(self)@.send_verdict(id, PayloadView::Request(kind, data@)) {
                SendVerdict::Queue => outcome matches SendOutcome::Queued(request_id)
                    && request_id == old(self)@.connection(id)->0.next_id,
                SendVerdict::Full => outcome matches SendOutcome::Full(back) && back@
                    == PayloadView::Request(kind, data@),
                SendVerdict::Refuse(error) => outcome matches SendOutcome::Refused(e) && e == error,
            },
    {
        match self.find(id) {
            None => SendOutcome::Refused(RpcError::ConnectionLost),
            Some(i) => {
                let ghost before = self@;
                let ghost payload = PayloadView::Request(kind, data@);
                let outcome = self.send_at(i, None, Payload::Request(kind, data));
                match outcome {
                    SendOutcome::Queued(request_id) => {
                        proof {
                            lemma_after_request_wf(before, id, payload, waiter);
                        }
                        let registered = self.pending.register(id, request_id, waiter);
                        assert(registered);
                        SendOutcome::Queued(request_id)
                    },
                    other => other,
                }
            },
        }
    }

    /// Sends a notification: fire and forget. Nobody is registered to wait;
    /// the outcome says only whether the envelope was queued.
    pub fn notify(&mut self, id: ConnectionId, kind: MessageKind, data: Vec<u8>) -> (outcome:
        SendOutcome)
        requires
            old(self).wf(),
        ensures
            final(self).wf(),
            final(self)@ == old(self)@.after_send(id, None, PayloadView::Request(kind, data@)),
            match old(self)@.send_verdict(id, PayloadView::Request(kind, data@)) {
                SendVerdict::Queue => outcome matches SendOutcome::Queued(envelope_id)
                    && envelope_id == old(self)@.connection(id)->0.next_id,
                SendVerdict::Full => outcome matches SendOutcome::Full(back) && back@
                    == PayloadView::Request(kind, data@),
                SendVerdict::Refuse(error) => outcome matches SendOutcome::Refused(e) && e == error,
            },
    {
        match self.find(id) {
            None => SendOutcome::Refused(RpcError::ConnectionLost),
            Some(i) => self.send_at(i, None, Payload::Request(kind, data)),
        }
    }

    /// Sends the application's answer to a request that arrived unasked: a
    /// response or error payload that carries the id of that request.
    ///
    /// An answer may only name a request that the remote has sent on this
    /// connection, that was handed to the application, and that has not
    /// been answered yet; any other is refused as `UnmatchedResponse`. A
    /// request payload is no answer and is refused as `ProtocolError`. Once
    /// the answer is queued the request is settled. Where the queue is full
    /// the payload comes back and the answer stays owed.
    pub fn respond(&mut self, id: ConnectionId, responding_to: u32, payload: Payload) -> (outcome:
        SendOutcome)
        requires
            old(self).wf(),
        ensures
            final(self).wf(),
            final(self)@ == old(self)@.after_respond(id, responding_to, payload@),
            match old(self)@.respond_verdict(id, responding_to, payload@) {
                SendVerdict::Queue => outcome matches SendOutcome::Queued(envelope_id)
                    && envelope_id == old(self)@.connection(id)->0.next_id,
                SendVerdict::Full => outcome matches SendOutcome::Full(back) && back@ == payload@,
                SendVerdict::Refuse(error) => outcome matches SendOutcome::Refused(e) && e == error,
            },
    {
        match self.find(id) {
            None => SendOutcome::Refused(RpcError::ConnectionLost),
            Some(i) => {
                let is_request = match &payload {
                    Payload::Request(_, _) => true,
                    _ => false,
                };
                if is_request {
                    return SendOutcome::Refused(RpcError::ProtocolError);
                }
                if !self.replies.owes(id, responding_to) {
                    return SendOutcome::Refused(RpcError::UnmatchedResponse);
                }
                let outcome = self.send_at(i, Some(responding_to), payload);
                match outcome {
                    SendOutcome::Queued(envelope_id) => {
                        let _ = self.replies.settle(id, responding_to);
                        SendOutcome::Queued(envelope_id)
                    },
                    other => other,
                }
            },
        }
    }

    /// Tells the writer of a connection what to do next, and takes the
    /// envelope whose frame it hands out off the queue. Frames are handed
    /// out in the order their envelopes were queued.
    pub fn next_frame(&mut self, id: ConnectionId) -> (out: Outgoing)
        requires
            old(self).wf(),
        ensures
            final(self).wf(),
            out@ == old(self)@.outgoing(id),
            final(self)@ == old(self)@.after_drain(id),
    {
        match self.find(id) {
            None => Outgoing::Finished,
            Some(i) => {
                let ghost before = self@;
                let frame = self.connections[i].next_frame();
                proof {
                    let now = self.connections@[i as int]@;
                    assert(self@.connections =~= before.connections.update(i as int, now));
                    assert(self@ == before.replaced(i as int, now));
                    lemma_replaced_wf(before, i as int, now);
                    if before.connections[i as int].outgoing.len() == 0 {
                        assert(before.connections.update(i as int, now) =~= before.connections);
                    }
                }
                match frame {
                    Some(bytes) => Outgoing::Frame(bytes),
                    None => match self.connections[i].state() {
                        Lifecycle::Closing => Outgoing::Finished,
                        _ => Outgoing::Idle,
                    },
                }
            },
        }
    }

    /// Decides what is to be done with an envelope that arrived on a connection.
    ///
    /// An envelope that answers a request is matched by connection and id
    /// to the one waiter of that request, which it then leaves the table
    /// with; where nobody waits (the response is late, a duplicate, or its
    /// caller gave up) it is dropped as `UnmatchedResponse`, which is no
    /// failure of the connection. Any other envelope is unsolicited: it goes
    /// to the subscribers for its kind and, where a reply is expected, to
    /// the application. An envelope on an unregistered connection is
    /// dropped with `ConnectionLost`, one of another protocol version with
    /// `ProtocolError`.
    pub fn dispatch(&mut self, id: ConnectionId, envelope: Envelope) -> (out: Dispatch)
        requires
            old(self).wf(),
        ensures
            final(self).wf(),
            out@ == old(self)@.dispatched(id, envelope@),
            final(self)@ == old(self)@.after_dispatch(id, envelope@),
    {
        match self.find(id) {
            None => Dispatch::Rejected(RpcError::ConnectionLost),
            Some(i) => {
                match self.connections[i].accept(&envelope) {
                    Err(error) => Dispatch::Rejected(error),
                    Ok(()) => {
                        match envelope.responding_to {
                            Some(request_id) => {
                                let ghost before = self@;
                                match self.pending.resolve(id, request_id) {
                                    Some(waiter) => {
                                        proof {
                                            lemma_after_cancel_wf(before, id, request_id);
                                        }
                                        Dispatch::Deliver { waiter, response: envelope }
                                    },
                                    None => Dispatch::Rejected(RpcError::UnmatchedResponse),
                                }
                            },
                            None => {
                                let subscribers = self.dispatcher.dispatch(id, &envelope);
                                let reply_expected = envelope.wants_reply();
                                if reply_expected {
                                    self.replies.note(id, envelope.id);
                                }
                                Dispatch::Notify { subscribers, envelope, reply_expected }
                            },
                        }
                    },
                }
            },
        }
    }

    /// Takes a request out of the table: its caller has dropped it. The
    /// request that went out on the wire is not retracted; a response that
    /// still arrives finds no waiter and is dropped. Returns whether the
    /// request was outstanding.
    pub fn cancel(&mut self, id: ConnectionId, request_id: u32) -> (cancelled: bool)
        requires
            old(self).wf(),
        ensures
            final(self).wf(),
            cancelled == (waiter_of(old(self)@.pending, id, request_id) is Some),
            final(self)@ == old(self)@.after_cancel(id, request_id),
    {
        self.withdraw(id, request_id).is_some()
    }

    /// Takes a request out of the table: its deadline has passed. Returns
    /// what its waiter is to be told, `Timeout`; `None` where the request
    /// is not outstanding any more. The connection is not affected.
    pub fn timeout(&mut self, id: ConnectionId, request_id: u32) -> (failure: Option<Failure>)
        requires
            old(self).wf(),
        ensures
            final(self).wf(),
            failure == match waiter_of(old(self)@.pending, id, request_id) {
                Some(waiter) => Some(Failure { waiter, error: RpcError::Timeout }),
                None => None,
            },
            final(self)@ == old(self)@.after_cancel(id, request_id),
    {
        match self.withdraw(id, request_id) {
            Some(waiter) => Some(Failure { waiter, error: RpcError::Timeout }),
            None => None,
        }
    }

    /// Takes a request out of the table and returns its waiter.
    fn withdraw(&mut self, id: ConnectionId, request_id: u32) -> (waiter: Option<WaiterId>)
        requires
            old(self).wf(),
        ensures
            final(self).wf(),
            waiter == waiter_of(old(self)@.pending, id, request_id),
            final(self)@ == old(self)@.after_cancel(id, request_id),
    {
        proof {
            lemma_after_cancel_wf(self@, id, request_id);
        }
        self.pending.resolve(id, request_id)
    }

    /// Begins the shutdown of a connection: it becomes `Closing`, accepts
    /// nothing new for sending, and goes on draining its queue and
    /// dispatching what arrives. Nothing changes where the connection is
    /// not registered or is closing already.
    pub fn begin_close(&mut self, id: ConnectionId)
        requires
            old(self).wf(),
        ensures
            final(self).wf(),
            final(self)@ == old(self)@.after_begin_close(id),
    {
        match self.find(id) {
            None => {},
            Some(i) => {
                let ghost before = self@;
                self.connections[i].begin_close();
                proof {
                    let now = self.connections@[i as int]@;
                    assert(self@.connections =~= before.connections.update(i as int, now));
                    assert(self@ == before.replaced(i as int, now));
                    lemma_replaced_wf(before, i as int, now);
                }
            },
        }
    }

    /// Ends a connection: it is closed and leaves the register, and every
    /// request outstanding on it fails with `ConnectionLost`.
    ///
    /// Returns one failure for each of those requests and the subscribers to
    /// tell. Afterwards nothing is outstanding on the connection. A second
    /// call, or a call for an id that was never registered, does nothing and
    /// returns nothing.
    pub fn disconnect(&mut self, id: ConnectionId) -> (out: Disconnected)
        requires
            old(self).wf(),
        ensures
            final(self).wf(),
            out@ == old(self)@.disconnected(id, RpcError::ConnectionLost),
            final(self)@ == old(self)@.after_disconnect(id),
            !final(self)@.is_registered(id),
            out.lost@.len() == outstanding_on(old(self)@.pending, id).len(),
            outstanding_on(final(self)@.pending, id).len() == 0,
    {
        self.end(id, RpcError::ConnectionLost)
    }

    /// Takes a connection out of the register and fails what was
    /// outstanding on it.
    fn end(&mut self, id: ConnectionId, reason: RpcError) -> (out: Disconnected)
        requires
            old(self).wf(),
        ensures
            final(self).wf(),
            out@ == old(self)@.disconnected(id, reason),
            final(self)@ == old(self)@.after_disconnect(id),
            !final(self)@.is_registered(id),
            out.lost@.len() == outstanding_on(old(self)@.pending, id).len(),
            outstanding_on(final(self)@.pending, id).len() == 0,
    {
        proof {
            lemma_disconnect_fails_all_outstanding(self@, id, reason, id, 0);
        }
        match self.find(id) {
            None => Disconnected {
                connection: id,
                reason,
                lost: Vec::new(),
                subscribers: Vec::new(),
            },
            Some(i) => {
                let ghost before = self@;
                let mut connection = self.connections.remove(i);
                connection.close();
                let lost = self.pending.drain(id);
                self.replies.forget(id);
                let subscribers = self.dispatcher.disconnected(id);
                assert(self@.connections =~= before.connections.remove(i as int));
                Disconnected { connection: id, reason, lost, subscribers }
            },
        }
    }

    /// Reacts to an error on a connection. A fatal one (transport failure,
    /// protocol violation) ends the connection as [`Peer::disconnect`] does,
    /// with the error as the reason, and once: a later report for the same
    /// connection finds nothing to end. Any other error changes nothing.
    pub fn fail(&mut self, id: ConnectionId, error: RpcError) -> (out: Disconnected)
        requires
            old(self).wf(),
        ensures
            final(self).wf(),
            error.is_fatal() ==> out@ == old(self)@.disconnected(id, error) && final(self)@
                == old(self)@.after_disconnect(id),
            !error.is_fatal() ==> out@ == PeerView::nothing_ended(id, error) && final(self)@
                == old(self)@,
    {
        if error.closes_connection() {
            self.end(id, error)
        } else {
            Disconnected { connection: id, reason: error, lost: Vec::new(), subscribers: Vec::new() }
        }
    }

    /// Registers an interest in unsolicited envelopes of `kind`, on one
    /// connection or on all. `None` once all subscription ids are used up.
    pub fn subscribe(&mut self, kind: MessageKind, connection: Option<ConnectionId>) -> (id: Option<
        SubscriptionId,
    >)
        requires
            old(self).wf(),
        ensures
            final(self).wf(),
            final(self)@.connections == old(self)@.connections,
            final(self)@.pending == old(self)@.pending,
            final(self)@.next_connection_id == old(self)@.next_connection_id,
            final(self)@.queue_capacity == old(self)@.queue_capacity,
            old(self)@.dispatcher.next_id == u64::MAX ==> id is None && final(self)@ == old(self)@,
            old(self)@.dispatcher.next_id < u64::MAX ==> {
                &&& id == Some(SubscriptionId(old(self)@.dispatcher.next_id))
                &&& final(self)@.dispatcher.next_id == old(self)@.dispatcher.next_id + 1
                &&& final(self)@.dispatcher.subscriptions
                    == old(self)@.dispatcher.subscriptions.push(
                    Subscription { id: id->0, kind, connection },
                )
            },
    {
        self.dispatcher.subscribe(kind, connection)
    }

    /// Removes a subscription. Returns whether there was one with this id.
    pub fn unsubscribe(&mut self, id: SubscriptionId) -> (removed: bool)
        requires
            old(self).wf(),
        ensures
            final(self).wf(),
            final(self)@.connections == old(self)@.connections,
            final(self)@.pending == old(self)@.pending,
            final(self)@.next_connection_id == old(self)@.next_connection_id,
            final(self)@.queue_capacity == old(self)@.queue_capacity,
            final(self)@.dispatcher.next_id == old(self)@.dispatcher.next_id,
            removed == (slot_of(old(self)@.dispatcher.subscriptions, id) is Some),
            final(self)@.dispatcher.subscriptions == match slot_of(
                old(self)@.dispatcher.subscriptions,
                id,
            ) {
                Some(i) => old(self)@.dispatcher.subscriptions.remove(i),
                None => old(self)@.dispatcher.subscriptions,
            },
    {
        self.dispatcher.unsubscribe(id)
    }
}

} // verus!
