//! One connection: its lifecycle, its envelope ids and its bounded outgoing queue.

use crate::auth::Identity;
use crate::error::RpcError;
use crate::message_stream::{encode, spec_encode};
use crate::proto::{envelope_views, Envelope, EnvelopeView, Payload, PayloadView, MAX_PAYLOAD_LEN};
use crate::PROTOCOL_VERSION;
use std::collections::VecDeque;
use vstd::prelude::*;

verus! {

/// Names a registered connection. Unique among the connections registered at one time.
#[derive(Clone, Copy, Debug, PartialEq, Eq, Hash, Structural)]
pub struct ConnectionId(pub u32);

/// The stages of a connection's life, in the order they are passed through.
#[derive(Clone, Copy, Debug, PartialEq, Eq, Hash, Structural)]
pub enum Lifecycle {
    /// Handshake in flight; only handshake frames pass.
    Connecting,
    /// Normal traffic.
    Connected,
    /// Shutdown begun: the outgoing queue drains, nothing new is accepted
    /// for sending, inbound traffic is still processed.
    Closing,
    /// Terminal. Everything is released.
    Closed,
}

impl Lifecycle {
    /// How far along its life a connection in this stage is.
    pub open spec fn rank(self) -> nat {
        match self {
            Lifecycle::Connecting => 0,
            Lifecycle::Connected => 1,
            Lifecycle::Closing => 2,
            Lifecycle::Closed => 3,
        }
    }

    /// Whether a connection in this stage may be in stage `next` afterwards.
    /// Stages are only ever passed forwards, shutdown cannot begin before the
    /// handshake is over, and nothing follows `Closed`.
    pub open spec fn may_become(self, next: Lifecycle) -> bool {
        match self {
            Lifecycle::Connecting => !(next is Closing),
            Lifecycle::Connected => !(next is Connecting),
            Lifecycle::Closing => next is Closing || next is Closed,
            Lifecycle::Closed => next is Closed,
        }
    }
}

/// What is to be made of the envelope that a remote opens a connection
/// with: it has to be a handshake frame, and it has to announce this
/// build's protocol version.
pub open spec fn hello_verdict(hello: EnvelopeView) -> Result<(), RpcError> {
    if !hello.payload.kind().spec_is_handshake() {
        Err(RpcError::ProtocolError)
    } else if hello.version != PROTOCOL_VERSION {
        Err(RpcError::VersionMismatch)
    } else {
        Ok(())
    }
}

/// Judges the envelope that a remote opens a connection with.
/// `ProtocolError` where it is no handshake frame, `VersionMismatch` where
/// it announces another version than this build's.
pub fn judge_hello(hello: &Envelope) -> (r: Result<(), RpcError>)
    ensures
        r == hello_verdict(hello@),
{
    if !hello.payload.kind().is_handshake() {
        Err(RpcError::ProtocolError)
    } else if hello.version != PROTOCOL_VERSION {
        Err(RpcError::VersionMismatch)
    } else {
        Ok(())
    }
}

/// What [`Connection::send`] would do with a payload.
pub enum SendVerdict {
    /// The envelope is queued.
    Queue,
    /// The queue is full; the sender has to wait for room.
    Full,
    /// The envelope is refused.
    Refuse(RpcError),
}

/// What [`Connection::send`] did.
#[derive(Debug, PartialEq, Eq)]
pub enum SendOutcome {
    /// The envelope is queued under this id.
    Queued(u32),
    /// The queue is full. The payload comes back, to be sent when there is room.
    Full(Payload),
    /// The envelope was refused.
    Refused(RpcError),
}

/// The mathematical value of a [`Connection`].
#[verifier::ext_equal]
pub struct ConnectionView {
    pub id: ConnectionId,
    pub state: Lifecycle,
    /// The version agreed in the handshake.
    pub protocol_version: Option<u32>,
    /// The remote's identity, once authenticated.
    pub identity: Option<Identity>,
    /// The id that the next outgoing envelope gets.
    pub next_id: u32,
    /// The envelopes waiting to be written, oldest first.
    pub outgoing: Seq<EnvelopeView>,
    /// How many envelopes the queue may hold.
    pub capacity: nat,
}

impl ConnectionView {
    /// A connection at the start of its life.
    pub open spec fn fresh(id: ConnectionId, capacity: nat) -> ConnectionView {
        ConnectionView {
            id,
            state: Lifecycle::Connecting,
            protocol_version: None,
            identity: None,
            next_id: 1,
            outgoing: Seq::empty(),
            capacity,
        }
    }

    /// The queue respects its bound and holds valid envelopes of this
    /// protocol version with ascending ids below `next_id`; a closed
    /// connection holds nothing; a connection past the handshake has agreed
    /// on this build's version and knows its remote.
    pub open spec fn wf(self) -> bool {
        &&& self.outgoing.len() <= self.capacity
        &&& self.next_id >= 1
        &&& forall|i: int|
            0 <= i < self.outgoing.len() ==> {
                &&& (#[trigger] self.outgoing[i]).is_valid()
                &&& self.outgoing[i].version == PROTOCOL_VERSION
                &&& 1 <= self.outgoing[i].id < self.next_id
            }
        &&& forall|i: int, j: int|
            0 <= i < j < self.outgoing.len() ==> (#[trigger] self.outgoing[i]).id < (
            #[trigger] self.outgoing[j]).id
        &&& self.state is Closed ==> self.outgoing.len() == 0
        &&& self.state is Connecting ==> self.protocol_version is None && self.identity is None
        &&& (self.state is Connected || self.state is Closing) ==> self.protocol_version == Some(
            PROTOCOL_VERSION,
        ) && self.identity is Some
    }

    /// This connection, closed and emptied.
    pub open spec fn closed(self) -> ConnectionView {
        ConnectionView { state: Lifecycle::Closed, outgoing: Seq::empty(), ..self }
    }

    /// How a handshake with these facts ends: the remote's opening envelope
    /// and the identity that was established for it. The envelope is
    /// judged first.
    pub open spec fn handshake_result(
        self,
        hello: EnvelopeView,
        identity: Option<Identity>,
    ) -> Result<(), RpcError> {
        if !(self.state is Connecting) {
            Err(RpcError::ProtocolError)
        } else if hello_verdict(hello) is Err {
            hello_verdict(hello)
        } else if identity is None {
            Err(RpcError::AuthFailed)
        } else {
            Ok(())
        }
    }

    /// The connection after a handshake with these facts: `Connected` where
    /// it succeeds, `Closed` where it fails, and as before where the
    /// connection is not waiting for one.
    pub open spec fn after_handshake(
        self,
        hello: EnvelopeView,
        identity: Option<Identity>,
    ) -> ConnectionView {
        if !(self.state is Connecting) {
            self
        } else if self.handshake_result(hello, identity) is Ok {
            ConnectionView {
                state: Lifecycle::Connected,
                protocol_version: Some(hello.version),
                identity,
                ..self
            }
        } else {
            self.closed()
        }
    }

    /// What becomes of a payload handed to `send`.
    pub open spec fn send_verdict(self, payload: PayloadView) -> SendVerdict {
        if self.state is Closing || self.state is Closed {
            SendVerdict::Refuse(RpcError::ConnectionLost)
        } else if self.state is Connecting && !payload.kind().spec_is_handshake() {
            SendVerdict::Refuse(RpcError::ProtocolError)
        } else if payload.body().len() > MAX_PAYLOAD_LEN {
            SendVerdict::Refuse(RpcError::ProtocolError)
        } else if self.next_id == u32::MAX {
            SendVerdict::Refuse(RpcError::ProtocolError)
        } else if self.outgoing.len() >= self.capacity {
            SendVerdict::Full
        } else {
            SendVerdict::Queue
        }
    }

    /// The envelope that `send` makes of a payload.
    pub open spec fn stamped(self, responding_to: Option<u32>, payload: PayloadView) -> EnvelopeView {
        EnvelopeView { version: PROTOCOL_VERSION, id: self.next_id, responding_to, payload }
    }

    /// The connection after `send` has queued a payload.
    pub open spec fn after_send(
        self,
        responding_to: Option<u32>,
        payload: PayloadView,
    ) -> ConnectionView {
        ConnectionView {
            next_id: (self.next_id + 1) as u32,
            outgoing: self.outgoing.push(self.stamped(responding_to, payload)),
            ..self
        }
    }

    /// The connection after its writer has taken the oldest envelope.
    pub open spec fn after_drain(self) -> ConnectionView {
        ConnectionView { outgoing: self.outgoing.subrange(1, self.outgoing.len() as int), ..self }
    }

    /// Whether an inbound envelope may pass. While connecting only handshake
    /// frames pass; afterwards only envelopes of this build's version; once
    /// closed, nothing.
    pub open spec fn accepts(self, e: EnvelopeView) -> Result<(), RpcError> {
        match self.state {
            Lifecycle::Closed => Err(RpcError::ConnectionLost),
            Lifecycle::Connecting => if e.payload.kind().spec_is_handshake() {
                Ok(())
            } else {
                Err(RpcError::ProtocolError)
            },
            _ => if e.version == PROTOCOL_VERSION {
                Ok(())
            } else {
                Err(RpcError::ProtocolError)
            },
        }
    }

    /// The connection after shutdown has begun: a connected one drains, one
    /// still in its handshake closes at once.
    pub open spec fn after_begin_close(self) -> ConnectionView {
        match self.state {
            Lifecycle::Connecting => self.closed(),
            Lifecycle::Connected => ConnectionView { state: Lifecycle::Closing, ..self },
            _ => self,
        }
    }
}

/// The stages form a one-way street: whatever a connection does, it never
/// gets back to an earlier stage, so a stage once left is left for good,
/// and `Closed` is left never.
pub proof fn lemma_lifecycle_is_one_way(a: Lifecycle, b: Lifecycle)
    ensures
        a.may_become(a),
        a.may_become(b) ==> a.rank() <= b.rank(),
        a.may_become(b) && b.may_become(a) ==> a == b,
        a is Closed && a.may_become(b) ==> b is Closed,
        a.rank() <= Lifecycle::Closed.rank(),
{
}

/// Queuing a payload keeps a connection well formed and in its stage, and
/// uses up exactly one id.
pub proof fn lemma_after_send_wf(
    connection: ConnectionView,
    responding_to: Option<u32>,
    payload: PayloadView,
)
    requires
        connection.wf(),
        connection.send_verdict(payload) is Queue,
    ensures
        connection.after_send(responding_to, payload).wf(),
        connection.after_send(responding_to, payload).state == connection.state,
        connection.after_send(responding_to, payload).id == connection.id,
        connection.after_send(responding_to, payload).next_id == connection.next_id + 1,
{
}

/// Ids are handed out in ascending order and never twice: of two
/// envelopes queued one after the other the later has the greater id, and
/// every id in the queue is one that has been handed out.
pub proof fn lemma_ids_ascend(
    connection: ConnectionView,
    first_reply: Option<u32>,
    first: PayloadView,
    second_reply: Option<u32>,
    second: PayloadView,
)
    requires
        connection.wf(),
        connection.send_verdict(first) is Queue,
        connection.after_send(first_reply, first).send_verdict(second) is Queue,
    ensures
        connection.stamped(first_reply, first).id < connection.after_send(
            first_reply,
            first,
        ).stamped(second_reply, second).id,
        forall|i: int|
            0 <= i < connection.outgoing.len() ==> (#[trigger] connection.outgoing[i]).id
                < connection.stamped(first_reply, first).id,
{
}

/// Frames leave in the order their envelopes were queued: what is queued
/// goes to the end, and what the writer takes comes from the front.
pub proof fn lemma_frames_leave_in_send_order(
    connection: ConnectionView,
    responding_to: Option<u32>,
    payload: PayloadView,
)
    requires
        connection.wf(),
        connection.send_verdict(payload) is Queue,
    ensures
        connection.after_send(responding_to, payload).outgoing == connection.outgoing.push(
            connection.stamped(responding_to, payload),
        ),
        connection.outgoing.len() > 0 ==> connection.after_send(
            responding_to,
            payload,
        ).after_drain() == connection.after_drain().after_send(responding_to, payload),
        connection.outgoing.len() == 0 ==> connection.after_send(
            responding_to,
            payload,
        ).outgoing[0] == connection.stamped(responding_to, payload),
{
    if connection.outgoing.len() > 0 {
        let a = connection.after_send(responding_to, payload).after_drain();
        let b = connection.after_drain().after_send(responding_to, payload);
        assert(a.outgoing =~= b.outgoing);
    }
}

/// A remote that announces another version never gets through: its
/// handshake fails, with `VersionMismatch` where its opening envelope is
/// otherwise in order, the connection goes from `Connecting` straight to
/// `Closed`, and from then on it lets no envelope in and none out.
pub proof fn lemma_version_mismatch_closes(
    connection: ConnectionView,
    hello: EnvelopeView,
    identity: Option<Identity>,
    inbound: EnvelopeView,
    outbound: PayloadView,
)
    requires
        connection.state is Connecting,
        hello.version != PROTOCOL_VERSION,
    ensures
        connection.handshake_result(hello, identity) is Err,
        hello.payload.kind().spec_is_handshake() ==> connection.handshake_result(hello, identity)
            == Err::<(), RpcError>(RpcError::VersionMismatch),
        connection.after_handshake(hello, identity).state is Closed,
        connection.after_handshake(hello, identity).accepts(inbound) is Err,
        connection.after_handshake(hello, identity).send_verdict(outbound) is Refuse,
{
}

/// One framed duplex connection, as far as the protocol is concerned.
#[derive(Debug)]
pub struct Connection {
    id: ConnectionId,
    state: Lifecycle,
    protocol_version: Option<u32>,
    identity: Option<Identity>,
    next_id: u32,
    outgoing: VecDeque<Envelope>,
    capacity: usize,
}

impl View for Connection {
    type V = ConnectionView;

    closed spec fn view(&self) -> ConnectionView {
        ConnectionView {
            id: self.id,
            state: self.state,
            protocol_version: self.protocol_version,
            identity: self.identity,
            next_id: self.next_id,
            outgoing: envelope_views(self.outgoing@),
            capacity: self.capacity as nat,
        }
    }
}

impl Connection {
    /// See [`ConnectionView::wf`].
    pub open spec fn wf(&self) -> bool {
        self@.wf()
    }

    /// A connection whose handshake is about to start, with room for
    /// `capacity` outgoing envelopes.
    pub fn new(id: ConnectionId, capacity: usize) -> (connection: Connection)
        ensures
            connection.wf(),
            connection@ == ConnectionView::fresh(id, capacity as nat),
    {
        Connection {
            id,
            state: Lifecycle::Connecting,
            protocol_version: None,
            identity: None,
            next_id: 1,
            outgoing: VecDeque::new(),
            capacity,
        }
    }

    pub fn id(&self) -> (id: ConnectionId)
        ensures
            id == self@.id,
    {
        self.id
    }

    pub fn state(&self) -> (state: Lifecycle)
        ensures
            state == self@.state,
    {
        self.state
    }

    /// The version agreed in the handshake, once it has succeeded.
    pub fn protocol_version(&self) -> (version: Option<u32>)
        ensures
            version == self@.protocol_version,
    {
        self.protocol_version
    }

    /// The remote's identity, once the handshake has succeeded.
    pub fn identity(&self) -> (identity: Option<Identity>)
        ensures
            identity == self@.identity,
    {
        self.identity
    }

    /// How many envelopes wait to be written.
    pub fn queued(&self) -> (len: usize)
        ensures
            len == self@.outgoing.len(),
    {
        self.outgoing.len()
    }

    /// How many envelopes the queue may hold.
    pub fn capacity(&self) -> (capacity: usize)
        ensures
            capacity == self@.capacity,
    {
        self.capacity
    }

    /// Whether a send would find room in the queue.
    pub fn has_room(&self) -> (room: bool)
        ensures
            room == (self@.outgoing.len() < self@.capacity),
    {
        self.outgoing.len() < self.capacity
    }

    /// Releases everything and enters `Closed`.
    fn shut(&mut self)
        ensures
            final(self)@ == old(self)@.closed(),
    {
        self.state = Lifecycle::Closed;
        self.outgoing.clear();
    }

    /// Ends the handshake with what was learned: the envelope that the
    /// remote opened the connection with, and the identity that the
    /// authenticator established, if any.
    ///
    /// An opening envelope that is no handshake frame closes the connection
    /// with `ProtocolError`, one of another version than this build's with
    /// `VersionMismatch`; a missing identity closes it with `AuthFailed`;
    /// otherwise the connection is `Connected`. A connection that is not
    /// `Connecting` answers `ProtocolError` and stays as it is.
    pub fn handshake(&mut self, hello: &Envelope, identity: Option<Identity>) -> (r: Result<
        (),
        RpcError,
    >)
        requires
            old(self).wf(),
        ensures
            final(self).wf(),
            r == old(self)@.handshake_result(hello@, identity),
            final(self)@ == old(self)@.after_handshake(hello@, identity),
            old(self)@.state.may_become(final(self)@.state),
    {
        match self.state {
            Lifecycle::Connecting => {
                match judge_hello(hello) {
                    Err(error) => {
                        self.shut();
                        Err(error)
                    },
                    Ok(()) => {
                        if identity.is_none() {
                            self.shut();
                            Err(RpcError::AuthFailed)
                        } else {
                            self.state = Lifecycle::Connected;
                            self.protocol_version = Some(hello.version);
                            self.identity = identity;
                            Ok(())
                        }
                    },
                }
            },
            _ => Err(RpcError::ProtocolError),
        }
    }

    /// Queues a payload for writing, under the next id and this build's version.
    ///
    /// Refused with `ConnectionLost` once shutdown has begun, and with
    /// `ProtocolError` for anything but a handshake frame while connecting,
    /// for a payload over `MAX_PAYLOAD_LEN`, and when the ids are used up.
    /// Where the queue is full nothing changes and the payload comes back.
    /// Ids are handed out in ascending order, starting at 1, and never twice.
    pub fn send(&mut self, responding_to: Option<u32>, payload: Payload) -> (outcome: SendOutcome)
        requires
            old(self).wf(),
        ensures
            final(self).wf(),
            match old(self)@.send_verdict(payload@) {
                SendVerdict::Queue => {
                    &&& outcome matches SendOutcome::Queued(id)
                    &&& id == old(self)@.next_id
                    &&& final(self)@ == old(self)@.after_send(responding_to, payload@)
                },
                SendVerdict::Full => {
                    &&& outcome matches SendOutcome::Full(back)
                    &&& back@ == payload@
                    &&& final(self)@ == old(self)@
                },
                SendVerdict::Refuse(error) => {
                    &&& outcome matches SendOutcome::Refused(e)
                    &&& e == error
                    &&& final(self)@ == old(self)@
                },
            },
    {
        match self.state {
            Lifecycle::Closing => {
                return SendOutcome::Refused(RpcError::ConnectionLost);
            },
            Lifecycle::Closed => {
                return SendOutcome::Refused(RpcError::ConnectionLost);
            },
            Lifecycle::Connecting => {
                if !payload.kind().is_handshake() {
                    return SendOutcome::Refused(RpcError::ProtocolError);
                }
            },
            Lifecycle::Connected => {},
        }
        if payload.body().len() > MAX_PAYLOAD_LEN {
            return SendOutcome::Refused(RpcError::ProtocolError);
        }
        if self.next_id == u32::MAX {
            return SendOutcome::Refused(RpcError::ProtocolError);
        }
        if self.outgoing.len() >= self.capacity {
            return SendOutcome::Full(payload);
        }
        let id = self.next_id;
        let envelope = Envelope { version: PROTOCOL_VERSION, id, responding_to, payload };
        self.outgoing.push_back(envelope);
        self.next_id = id + 1;
        proof {
            assert(envelope_views(self.outgoing@) =~= envelope_views(old(self).outgoing@).push(
                envelope@,
            ));
        }
        SendOutcome::Queued(id)
    }

    /// Takes the oldest queued envelope and returns its frame, for the
    /// writer to put on the stream in one piece. Frames leave in the order
    /// their envelopes were queued. `None` when nothing is queued.
    pub fn next_frame(&mut self) -> (frame: Option<Vec<u8>>)
        requires
            old(self).wf(),
        ensures
            final(self).wf(),
            old(self)@.outgoing.len() == 0 ==> frame is None && final(self)@ == old(self)@,
            old(self)@.outgoing.len() > 0 ==> {
                &&& frame matches Some(bytes)
                &&& bytes@ == spec_encode(old(self)@.outgoing[0])
                &&& final(self)@ == old(self)@.after_drain()
            },
    {
        match self.outgoing.pop_front() {
            None => None,
            Some(envelope) => {
                proof {
                    assert(envelope@ == old(self)@.outgoing[0]);
                    assert(envelope_views(self.outgoing@) =~= old(self)@.outgoing.subrange(
                        1,
                        old(self)@.outgoing.len() as int,
                    ));
                }
                match encode(&envelope) {
                    Ok(bytes) => Some(bytes),
                    // Queued envelopes are valid, so their encoding cannot fail.
                    Err(_) => None,
                }
            },
        }
    }

    /// Whether an inbound envelope may pass in the connection's present stage.
    pub fn accept(&self, envelope: &Envelope) -> (r: Result<(), RpcError>)
        ensures
            r == self@.accepts(envelope@),
    {
        match self.state {
            Lifecycle::Closed => Err(RpcError::ConnectionLost),
            Lifecycle::Connecting => {
                if envelope.payload.kind().is_handshake() {
                    Ok(())
                } else {
                    Err(RpcError::ProtocolError)
                }
            },
            _ => {
                if envelope.version == PROTOCOL_VERSION {
                    Ok(())
                } else {
                    Err(RpcError::ProtocolError)
                }
            },
        }
    }

    /// Begins shutdown. A connected connection goes on to drain its queue as
    /// `Closing`; one still in its handshake closes at once; otherwise
    /// nothing changes.
    pub fn begin_close(&mut self)
        requires
            old(self).wf(),
        ensures
            final(self).wf(),
            final(self)@ == old(self)@.after_begin_close(),
            old(self)@.state.may_become(final(self)@.state),
    {
        match self.state {
            Lifecycle::Connecting => {
                self.shut();
            },
            Lifecycle::Connected => {
                self.state = Lifecycle::Closing;
            },
            _ => {},
        }
    }

    /// Enters `Closed` and releases the queue: the stream has ended, or the
    /// application has disconnected.
    pub fn close(&mut self)
        requires
            old(self).wf(),
        ensures
            final(self).wf(),
            final(self)@ == old(self)@.closed(),
            old(self)@.state.may_become(final(self)@.state),
    {
        self.shut();
    }

    /// Reacts to an error on this connection: a fatal one closes it, any
    /// other leaves it alone. Returns whether the connection is closed now.
    pub fn fail(&mut self, error: RpcError) -> (closed: bool)
        requires
            old(self).wf(),
        ensures
            final(self).wf(),
            final(self)@ == if error.is_fatal() {
                old(self)@.closed()
            } else {
                old(self)@
            },
            closed == (final(self)@.state is Closed),
            old(self)@.state.may_become(final(self)@.state),
    {
        if error.closes_connection() {
            self.shut();
        }
        match self.state {
            Lifecycle::Closed => true,
            _ => false,
        }
    }
}

} // verus!
