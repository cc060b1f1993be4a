//! The envelope model: the one message structure used for all traffic.
//!
//! Pure data. Every payload kind is a variant of a closed enum, so a new kind
//! is added by extending the enum and the exhaustive matches over it.

use vstd::prelude::*;
use vstd::slice::slice_to_vec;

verus! {

/// The largest number of bytes an envelope's payload may carry.
pub const MAX_PAYLOAD_LEN: usize = 1048576;

/// The kinds of message a payload can announce.
#[derive(Clone, Copy, Debug, PartialEq, Eq, Hash, Structural)]
pub enum MessageKind {
    /// Opens a connection; the envelope's `version` is the sender's protocol version.
    Hello,
    /// Acknowledges a message that carries no other answer.
    Ack,
    /// Liveness probe; answered with `Pong`.
    Ping,
    /// The answer to `Ping`.
    Pong,
    /// An application request; answered with `Reply` or an error payload.
    Call,
    /// The answer to `Call`.
    Reply,
    /// An application notification; nobody answers it.
    Event,
}

impl MessageKind {
    /// The byte that stands for this kind on the wire.
    pub open spec fn spec_tag(self) -> u8 {
        match self {
            MessageKind::Hello => 0,
            MessageKind::Ack => 1,
            MessageKind::Ping => 2,
            MessageKind::Pong => 3,
            MessageKind::Call => 4,
            MessageKind::Reply => 5,
            MessageKind::Event => 6,
        }
    }

    /// The kind a wire byte stands for, if any.
    pub open spec fn spec_from_tag(tag: u8) -> Option<MessageKind> {
        if tag == 0 {
            Some(MessageKind::Hello)
        } else if tag == 1 {
            Some(MessageKind::Ack)
        } else if tag == 2 {
            Some(MessageKind::Ping)
        } else if tag == 3 {
            Some(MessageKind::Pong)
        } else if tag == 4 {
            Some(MessageKind::Call)
        } else if tag == 5 {
            Some(MessageKind::Reply)
        } else if tag == 6 {
            Some(MessageKind::Event)
        } else {
            None
        }
    }

    /// Whether the receiver of a request of this kind owes the sender a response.
    pub open spec fn spec_expects_reply(self) -> bool {
        self is Ping || self is Call
    }

    /// Whether a message of this kind belongs to the handshake.
    pub open spec fn spec_is_handshake(self) -> bool {
        self is Hello
    }

    /// The byte that stands for this kind on the wire.
    #[verifier::when_used_as_spec(spec_tag)]
    pub fn tag(self) -> (tag: u8)
        ensures
            tag == self.spec_tag(),
    {
        match self {
            MessageKind::Hello => 0,
            MessageKind::Ack => 1,
            MessageKind::Ping => 2,
            MessageKind::Pong => 3,
            MessageKind::Call => 4,
            MessageKind::Reply => 5,
            MessageKind::Event => 6,
        }
    }

    /// The kind a wire byte stands for; `None` for a byte that names no kind.
    #[verifier::when_used_as_spec(spec_from_tag)]
    pub fn from_tag(tag: u8) -> (kind: Option<MessageKind>)
        ensures
            kind == MessageKind::spec_from_tag(tag),
    {
        match tag {
            0 => Some(MessageKind::Hello),
            1 => Some(MessageKind::Ack),
            2 => Some(MessageKind::Ping),
            3 => Some(MessageKind::Pong),
            4 => Some(MessageKind::Call),
            5 => Some(MessageKind::Reply),
            6 => Some(MessageKind::Event),
            _ => None,
        }
    }

    /// Whether the receiver of a request of this kind owes the sender a response.
    #[verifier::when_used_as_spec(spec_expects_reply)]
    pub fn expects_reply(self) -> (expected: bool)
        ensures
            expected == self.spec_expects_reply(),
    {
        match self {
            MessageKind::Ping => true,
            MessageKind::Call => true,
            _ => false,
        }
    }

    /// Whether a message of this kind belongs to the handshake.
    #[verifier::when_used_as_spec(spec_is_handshake)]
    pub fn is_handshake(self) -> (handshake: bool)
        ensures
            handshake == self.spec_is_handshake(),
    {
        match self {
            MessageKind::Hello => true,
            _ => false,
        }
    }

    /// Tags and kinds correspond one to one.
    pub proof fn lemma_tag_roundtrip(self)
        ensures
            MessageKind::spec_from_tag(self.spec_tag()) == Some(self),
            self.spec_tag() <= 6,
    {
    }

    /// A byte that names a kind is that kind's tag.
    pub proof fn lemma_from_tag_is_tag(tag: u8)
        ensures
            MessageKind::spec_from_tag(tag) matches Some(kind) ==> kind.spec_tag() == tag,
            MessageKind::spec_from_tag(tag) is Some <==> tag <= 6,
    {
    }
}

/// What an envelope carries.
#[derive(Clone, Debug, PartialEq, Eq)]
pub enum Payload {
    /// A request, or a notification when nobody waits for the answer.
    Request(MessageKind, Vec<u8>),
    /// The answer to a request.
    Response(MessageKind, Vec<u8>),
    /// An application-level failure, carried in place of a response. The
    /// message is UTF-8 text, kept as the bytes that travel.
    Error(MessageKind, Vec<u8>),
}

/// The mathematical value of a [`Payload`].
pub enum PayloadView {
    Request(MessageKind, Seq<u8>),
    Response(MessageKind, Seq<u8>),
    Error(MessageKind, Seq<u8>),
}

impl PayloadView {
    /// The message kind the payload announces.
    pub open spec fn kind(self) -> MessageKind {
        match self {
            PayloadView::Request(kind, _) => kind,
            PayloadView::Response(kind, _) => kind,
            PayloadView::Error(kind, _) => kind,
        }
    }

    /// The bytes the payload carries.
    pub open spec fn body(self) -> Seq<u8> {
        match self {
            PayloadView::Request(_, data) => data,
            PayloadView::Response(_, data) => data,
            PayloadView::Error(_, message) => message,
        }
    }

    /// The byte that tells the three variants apart on the wire.
    pub open spec fn variant_tag(self) -> u8 {
        match self {
            PayloadView::Request(_, _) => 0,
            PayloadView::Response(_, _) => 1,
            PayloadView::Error(_, _) => 2,
        }
    }

    /// The payload with the given variant tag, kind and bytes.
    pub open spec fn from_parts(variant: u8, kind: MessageKind, body: Seq<u8>) -> PayloadView {
        if variant == 0 {
            PayloadView::Request(kind, body)
        } else if variant == 1 {
            PayloadView::Response(kind, body)
        } else {
            PayloadView::Error(kind, body)
        }
    }
}

impl View for Payload {
    type V = PayloadView;

    open spec fn view(&self) -> PayloadView {
        match self {
            Payload::Request(kind, data) => PayloadView::Request(*kind, data@),
            Payload::Response(kind, data) => PayloadView::Response(*kind, data@),
            Payload::Error(kind, message) => PayloadView::Error(*kind, message@),
        }
    }
}

impl Payload {
    /// The message kind the payload announces.
    pub fn kind(&self) -> (kind: MessageKind)
        ensures
            kind == self@.kind(),
    {
        match self {
            Payload::Request(kind, _) => *kind,
            Payload::Response(kind, _) => *kind,
            Payload::Error(kind, _) => *kind,
        }
    }

    /// The bytes the payload carries.
    pub fn body(&self) -> (body: &Vec<u8>)
        ensures
            body@ == self@.body(),
    {
        match self {
            Payload::Request(_, data) => data,
            Payload::Response(_, data) => data,
            Payload::Error(_, message) => message,
        }
    }

    /// The byte that tells the three variants apart on the wire.
    pub fn variant_tag(&self) -> (tag: u8)
        ensures
            tag == self@.variant_tag(),
    {
        match self {
            Payload::Request(_, _) => 0,
            Payload::Response(_, _) => 1,
            Payload::Error(_, _) => 2,
        }
    }

    /// A copy of this payload.
    pub fn duplicate(&self) -> (copy: Payload)
        ensures
            copy@ == self@,
    {
        match self {
            Payload::Request(kind, data) => Payload::Request(*kind, slice_to_vec(data.as_slice())),
            Payload::Response(kind, data) => Payload::Response(
                *kind,
                slice_to_vec(data.as_slice()),
            ),
            Payload::Error(kind, message) => Payload::Error(
                *kind,
                slice_to_vec(message.as_slice()),
            ),
        }
    }
}

/// The unit of traffic: a versioned, numbered wrapper around one payload.
#[derive(Clone, Debug, PartialEq, Eq)]
pub struct Envelope {
    /// The sender's protocol version.
    pub version: u32,
    /// Assigned by the sender; unique per connection and direction.
    pub id: u32,
    /// The `id` of the envelope this one answers, if it answers one.
    pub responding_to: Option<u32>,
    pub payload: Payload,
}

/// The mathematical value of an [`Envelope`].
pub struct EnvelopeView {
    pub version: u32,
    pub id: u32,
    pub responding_to: Option<u32>,
    pub payload: PayloadView,
}

impl EnvelopeView {
    /// The envelope that opens a connection for a peer of `version`.
    pub open spec fn hello(version: u32) -> EnvelopeView {
        EnvelopeView {
            version,
            id: 0,
            responding_to: None,
            payload: PayloadView::Request(MessageKind::Hello, Seq::empty()),
        }
    }

    /// The payload fits the size bound, so the envelope can travel.
    pub open spec fn is_valid(self) -> bool {
        self.payload.body().len() <= MAX_PAYLOAD_LEN
    }

    /// The envelope answers an earlier one.
    pub open spec fn is_reply(self) -> bool {
        self.responding_to is Some
    }

    /// The envelope arrives unasked and its sender waits for an answer.
    pub open spec fn wants_reply(self) -> bool {
        self.responding_to is None && self.payload is Request
            && self.payload.kind().spec_expects_reply()
    }
}

impl View for Envelope {
    type V = EnvelopeView;

    open spec fn view(&self) -> EnvelopeView {
        EnvelopeView {
            version: self.version,
            id: self.id,
            responding_to: self.responding_to,
            payload: self.payload@,
        }
    }
}

impl Envelope {
    /// The envelope that opens a connection: it announces the sender's
    /// protocol version and carries nothing else.
    pub fn hello(version: u32) -> (envelope: Envelope)
        ensures
            envelope@ == EnvelopeView::hello(version),
            envelope@.is_valid(),
    {
        Envelope {
            version,
            id: 0,
            responding_to: None,
            payload: Payload::Request(MessageKind::Hello, Vec::new()),
        }
    }

    /// Whether the payload fits the size bound.
    pub fn is_valid(&self) -> (valid: bool)
        ensures
            valid == self@.is_valid(),
    {
        self.payload.body().len() <= MAX_PAYLOAD_LEN
    }

    /// Whether the envelope answers an earlier one.
    pub fn is_reply(&self) -> (reply: bool)
        ensures
            reply == self@.is_reply(),
    {
        self.responding_to.is_some()
    }

    /// Whether the envelope arrives unasked and its sender waits for an answer.
    pub fn wants_reply(&self) -> (wanted: bool)
        ensures
            wanted == self@.wants_reply(),
    {
        match (&self.responding_to, &self.payload) {
            (None, Payload::Request(kind, _)) => kind.expects_reply(),
            _ => false,
        }
    }

    /// A copy of this envelope.
    pub fn duplicate(&self) -> (copy: Envelope)
        ensures
            copy@ == self@,
    {
        Envelope {
            version: self.version,
            id: self.id,
            responding_to: self.responding_to,
            payload: self.payload.duplicate(),
        }
    }
}

/// The mathematical values of a run of envelopes, in order.
pub open spec fn envelope_views(envelopes: Seq<Envelope>) -> Seq<EnvelopeView> {
    envelopes.map_values(|e: Envelope| e@)
}

} // verus!
