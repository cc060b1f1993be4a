//! Message framing: envelopes to length-delimited frames and back.
//!
//! A frame is a four-byte little-endian length followed by that many bytes of
//! encoded envelope. The encoded envelope is a fifteen-byte header followed by
//! the payload bytes:
//!
//! | bytes  | field                                             |
//! |--------|---------------------------------------------------|
//! | 0..4   | `version`, little-endian                          |
//! | 4..8   | `id`, little-endian                               |
//! | 8      | 1 if `responding_to` is present, else 0           |
//! | 9..13  | `responding_to`, little-endian; zero when absent  |
//! | 13     | payload variant: 0 request, 1 response, 2 error   |
//! | 14     | message kind tag                                  |
//! | 15..   | payload bytes                                     |

use crate::error::RpcError;
use crate::proto::{
    envelope_views, Envelope, EnvelopeView, MessageKind, Payload, PayloadView,
};
use vstd::prelude::*;
use vstd::slice::{slice_subrange, slice_to_vec};

verus! {

/// Width of the length prefix that starts every frame.
pub const LENGTH_PREFIX_LEN: usize = 4;

/// Width of the fixed part of an encoded envelope.
pub const ENVELOPE_HEADER_LEN: usize = 15;

/// The largest length a frame may declare: a header and a full payload.
pub const MAX_FRAME_LEN: usize = 1048591;

/// The four bytes of `x`, least significant first.
pub open spec fn u32_le(x: u32) -> Seq<u8> {
    seq![
        (x % 256) as u8,
        ((x / 256) % 256) as u8,
        (((x / 256) / 256) % 256) as u8,
        (((x / 256) / 256) / 256) as u8,
    ]
}

/// The number whose least-significant-first bytes are the first four of `bytes`.
pub open spec fn le_u32(bytes: Seq<u8>) -> u32
    recommends
        bytes.len() >= 4,
{
    (bytes[0] as int + 256 * (bytes[1] as int + 256 * (bytes[2] as int + 256 * (bytes[3] as int))))
        as u32
}

/// Reading back the bytes of a number gives the number.
pub proof fn lemma_u32_le_roundtrip(x: u32)
    ensures
        u32_le(x).len() == 4,
        le_u32(u32_le(x)) == x,
{
}

/// Four bytes are the bytes of the number they spell.
pub proof fn lemma_le_u32_roundtrip(bytes: Seq<u8>)
    requires
        bytes.len() == 4,
    ensures
        u32_le(le_u32(bytes)) == bytes,
{
    assert(u32_le(le_u32(bytes)) =~= bytes);
}

/// The five bytes that carry `responding_to`.
pub open spec fn reply_bytes(responding_to: Option<u32>) -> Seq<u8> {
    match responding_to {
        Some(id) => seq![1u8] + u32_le(id),
        None => seq![0u8] + u32_le(0),
    }
}

/// The fixed fifteen bytes that start an encoded envelope.
pub open spec fn header_bytes(e: EnvelopeView) -> Seq<u8> {
    u32_le(e.version) + u32_le(e.id) + reply_bytes(e.responding_to) + seq![
        e.payload.variant_tag(),
        e.payload.kind().spec_tag(),
    ]
}

/// An envelope as bytes, without the length prefix.
pub open spec fn encode_body(e: EnvelopeView) -> Seq<u8> {
    header_bytes(e) + e.payload.body()
}

/// The envelope that `body` encodes; `None` where it is too short, too long,
/// or holds a flag, variant or kind that the format does not know.
pub open spec fn decode_body(body: Seq<u8>) -> Option<EnvelopeView> {
    if body.len() < ENVELOPE_HEADER_LEN || body.len() > MAX_FRAME_LEN {
        None
    } else {
        let flag = body[8];
        let reply = le_u32(body.subrange(9, 13));
        let variant = body[13];
        let kind = MessageKind::spec_from_tag(body[14]);
        if flag > 1 || (flag == 0 && reply != 0) || variant > 2 || kind is None {
            None
        } else {
            Some(
                EnvelopeView {
                    version: le_u32(body.subrange(0, 4)),
                    id: le_u32(body.subrange(4, 8)),
                    responding_to: if flag == 1 {
                        Some(reply)
                    } else {
                        None
                    },
                    payload: PayloadView::from_parts(
                        variant,
                        kind->0,
                        body.subrange(ENVELOPE_HEADER_LEN as int, body.len() as int),
                    ),
                },
            )
        }
    }
}

/// The frame of an envelope: the length of its encoding, then the encoding.
pub open spec fn spec_encode(e: EnvelopeView) -> Seq<u8> {
    u32_le(encode_body(e).len() as u32) + encode_body(e)
}

/// The length that the first four bytes of `bytes` declare.
pub open spec fn declared_len(bytes: Seq<u8>) -> int
    recommends
        bytes.len() >= 4,
{
    le_u32(bytes.subrange(0, 4)) as int
}

/// The envelope that exactly one whole frame holds; `None` where `frame` is
/// not one whole frame, declares more than the maximum, or holds a malformed
/// envelope.
pub open spec fn spec_decode(frame: Seq<u8>) -> Option<EnvelopeView> {
    if frame.len() < LENGTH_PREFIX_LEN {
        None
    } else if declared_len(frame) > MAX_FRAME_LEN {
        None
    } else if frame.len() != LENGTH_PREFIX_LEN + declared_len(frame) {
        None
    } else {
        decode_body(frame.subrange(LENGTH_PREFIX_LEN as int, frame.len() as int))
    }
}

/// An encoded envelope is its header and its payload, and decodes to itself.
pub proof fn lemma_body_roundtrip(e: EnvelopeView)
    requires
        e.is_valid(),
    ensures
        encode_body(e).len() == ENVELOPE_HEADER_LEN + e.payload.body().len(),
        encode_body(e).len() <= MAX_FRAME_LEN,
        decode_body(encode_body(e)) == Some(e),
{
    let b = encode_body(e);
    let reply = match e.responding_to {
        Some(id) => id,
        None => 0u32,
    };
    lemma_u32_le_roundtrip(e.version);
    lemma_u32_le_roundtrip(e.id);
    lemma_u32_le_roundtrip(reply);
    e.payload.kind().lemma_tag_roundtrip();
    assert(header_bytes(e).len() == 15);
    assert(b.subrange(0, 4) =~= u32_le(e.version));
    assert(b.subrange(4, 8) =~= u32_le(e.id));
    assert(b.subrange(9, 13) =~= u32_le(reply));
    assert(b.subrange(15, b.len() as int) =~= e.payload.body());
    assert(b[8] == if e.responding_to is Some { 1u8 } else { 0u8 });
    assert(b[13] == e.payload.variant_tag());
    assert(b[14] == e.payload.kind().spec_tag());
}

/// Round trip: a valid envelope's frame decodes to that envelope.
pub proof fn lemma_decode_encode(e: EnvelopeView)
    requires
        e.is_valid(),
    ensures
        spec_encode(e).len() == LENGTH_PREFIX_LEN + ENVELOPE_HEADER_LEN + e.payload.body().len(),
        spec_decode(spec_encode(e)) == Some(e),
{
    lemma_body_roundtrip(e);
    let body = encode_body(e);
    let frame = spec_encode(e);
    lemma_u32_le_roundtrip(body.len() as u32);
    assert(frame.subrange(0, 4) =~= u32_le(body.len() as u32));
    assert(frame.subrange(4, frame.len() as int) =~= body);
}

/// The encoding is canonical: bytes that decode are the frame of what they decode to.
pub proof fn lemma_encode_decode(frame: Seq<u8>)
    requires
        spec_decode(frame) is Some,
    ensures
        spec_decode(frame)->0.is_valid(),
        spec_encode(spec_decode(frame)->0) == frame,
{
    let e = spec_decode(frame)->0;
    let body = frame.subrange(4, frame.len() as int);
    let kind = MessageKind::spec_from_tag(body[14]);
    MessageKind::lemma_from_tag_is_tag(body[14]);
    lemma_le_u32_roundtrip(body.subrange(0, 4));
    lemma_le_u32_roundtrip(body.subrange(4, 8));
    lemma_le_u32_roundtrip(body.subrange(9, 13));
    lemma_le_u32_roundtrip(frame.subrange(0, 4));
    assert(e.payload.body() == body.subrange(15, body.len() as int));
    assert(e.payload.variant_tag() == body[13]);
    assert(e.payload.kind().spec_tag() == body[14]);
    assert(u32_le(0)[0] == 0 && u32_le(0)[1] == 0 && u32_le(0)[2] == 0 && u32_le(0)[3] == 0);
    assert(body[8] == 0 ==> body.subrange(9, 13) == u32_le(0));
    assert(encode_body(e) =~= body);
    assert(spec_encode(e) =~= frame);
}

/// Appends the four bytes of `x`, least significant first.
fn put_u32(out: &mut Vec<u8>, x: u32)
    ensures
        final(out)@ == old(out)@ + u32_le(x),
{
    let q1: u32 = x / 256;
    let q2: u32 = q1 / 256;
    let q3: u32 = q2 / 256;
    out.push((x % 256) as u8);
    out.push((q1 % 256) as u8);
    out.push((q2 % 256) as u8);
    out.push(q3 as u8);
    assert(out@ =~= old(out)@ + u32_le(x));
}

/// Reads the number spelled by the four bytes at `at`.
fn get_u32(bytes: &[u8], at: usize) -> (x: u32)
    requires
        at + 4 <= bytes@.len(),
    ensures
        x == le_u32(bytes@.subrange(at as int, at + 4)),
{
    let b0: u32 = bytes[at] as u32;
    let b1: u32 = bytes[at + 1] as u32;
    let b2: u32 = bytes[at + 2] as u32;
    let b3: u32 = bytes[at + 3] as u32;
    b0 + 256 * (b1 + 256 * (b2 + 256 * b3))
}

/// Encodes an envelope without the length prefix.
///
/// Succeeds exactly for valid envelopes, those whose payload fits
/// `MAX_PAYLOAD_LEN`; any other is refused with `ProtocolError`.
pub fn encode_envelope(envelope: &Envelope) -> (r: Result<Vec<u8>, RpcError>)
    ensures
        envelope@.is_valid() ==> r is Ok && r->Ok_0@ == encode_body(envelope@),
        !envelope@.is_valid() ==> r == Err::<Vec<u8>, RpcError>(RpcError::ProtocolError),
{
    if !envelope.is_valid() {
        return Err(RpcError::ProtocolError);
    }
    let mut out: Vec<u8> = Vec::new();
    put_u32(&mut out, envelope.version);
    put_u32(&mut out, envelope.id);
    match envelope.responding_to {
        Some(id) => {
            out.push(1);
            put_u32(&mut out, id);
        },
        None => {
            out.push(0);
            put_u32(&mut out, 0);
        },
    }
    out.push(envelope.payload.variant_tag());
    out.push(envelope.payload.kind().tag());
    assert(out@ =~= header_bytes(envelope@));
    let mut body = slice_to_vec(envelope.payload.body().as_slice());
    out.append(&mut body);
    Ok(out)
}

/// Decodes an envelope from bytes without a length prefix.
///
/// Fails with `ProtocolError` exactly where the bytes are malformed or too many.
pub fn decode_envelope(body: &[u8]) -> (r: Result<Envelope, RpcError>)
    ensures
        match r {
            Ok(e) => decode_body(body@) == Some(e@),
            Err(err) => err == RpcError::ProtocolError && decode_body(body@) is None,
        },
{
    if body.len() < ENVELOPE_HEADER_LEN || body.len() > MAX_FRAME_LEN {
        return Err(RpcError::ProtocolError);
    }
    let version = get_u32(body, 0);
    let id = get_u32(body, 4);
    let flag = body[8];
    let reply = get_u32(body, 9);
    let variant = body[13];
    let kind = MessageKind::from_tag(body[14]);
    if flag > 1 || (flag == 0 && reply != 0) || variant > 2 {
        return Err(RpcError::ProtocolError);
    }
    match kind {
        None => Err(RpcError::ProtocolError),
        Some(kind) => {
            let data = slice_to_vec(slice_subrange(body, ENVELOPE_HEADER_LEN, body.len()));
            let payload = if variant == 0 {
                Payload::Request(kind, data)
            } else if variant == 1 {
                Payload::Response(kind, data)
            } else {
                Payload::Error(kind, data)
            };
            Ok(
                Envelope {
                    version,
                    id,
                    responding_to: if flag == 1 {
                        Some(reply)
                    } else {
                        None
                    },
                    payload,
                },
            )
        },
    }
}

/// Encodes an envelope as one frame: length prefix, then the envelope.
///
/// Encoding never fails for a valid envelope. One whose payload exceeds
/// `MAX_PAYLOAD_LEN` is refused with `ProtocolError`.
pub fn encode(envelope: &Envelope) -> (r: Result<Vec<u8>, RpcError>)
    ensures
        envelope@.is_valid() ==> r is Ok && r->Ok_0@ == spec_encode(envelope@),
        !envelope@.is_valid() ==> r == Err::<Vec<u8>, RpcError>(RpcError::ProtocolError),
{
    match encode_envelope(envelope) {
        Err(e) => Err(e),
        Ok(body) => {
            proof {
                lemma_body_roundtrip(envelope@);
            }
            let mut body = body;
            let mut frame: Vec<u8> = Vec::new();
            put_u32(&mut frame, body.len() as u32);
            frame.append(&mut body);
            Ok(frame)
        },
    }
}

/// Decodes exactly one whole frame.
///
/// Fails with `ProtocolError` where `frame` is not one whole frame, declares
/// a length over `MAX_FRAME_LEN`, or holds a malformed envelope. The declared
/// length is judged before any byte after the prefix is looked at.
pub fn decode(frame: &[u8]) -> (r: Result<Envelope, RpcError>)
    ensures
        match r {
            Ok(e) => spec_decode(frame@) == Some(e@),
            Err(err) => err == RpcError::ProtocolError && spec_decode(frame@) is None,
        },
{
    if frame.len() < LENGTH_PREFIX_LEN {
        return Err(RpcError::ProtocolError);
    }
    let declared = get_u32(frame, 0);
    if declared as usize > MAX_FRAME_LEN {
        return Err(RpcError::ProtocolError);
    }
    if frame.len() - LENGTH_PREFIX_LEN != declared as usize {
        return Err(RpcError::ProtocolError);
    }
    decode_envelope(slice_subrange(frame, LENGTH_PREFIX_LEN, frame.len()))
}

/// What a run of bytes holds when read as frames from its start.
#[verifier::ext_equal]
pub struct StreamParse {
    /// The envelopes of the whole frames, in stream order, up to the first bad frame.
    pub envelopes: Seq<EnvelopeView>,
    /// The bytes of the frame that is still incomplete; empty after a failure.
    pub rest: Seq<u8>,
    /// Whether a frame declared too great a length or held a malformed envelope.
    pub failed: bool,
}

impl StreamParse {
    /// This result, preceded by envelopes that were read earlier.
    pub open spec fn after(self, first: Seq<EnvelopeView>) -> StreamParse {
        StreamParse { envelopes: first + self.envelopes, rest: self.rest, failed: self.failed }
    }
}

/// `bytes` is the beginning of a frame that is not yet whole: either the
/// length prefix is incomplete, or it declares an acceptable length and fewer
/// bytes than that follow it.
pub open spec fn is_partial_frame(bytes: Seq<u8>) -> bool {
    bytes.len() < LENGTH_PREFIX_LEN || (declared_len(bytes) <= MAX_FRAME_LEN && bytes.len()
        < LENGTH_PREFIX_LEN + declared_len(bytes))
}

/// Reads `bytes` as a stream of frames. Reading stops for good at the first
/// frame that declares a length over `MAX_FRAME_LEN` or holds a malformed
/// envelope; there is no resynchronisation.
#[verifier::opaque]
pub open spec fn parse_stream(bytes: Seq<u8>) -> StreamParse
    decreases bytes.len(),
{
    if is_partial_frame(bytes) {
        StreamParse { envelopes: Seq::empty(), rest: bytes, failed: false }
    } else if declared_len(bytes) > MAX_FRAME_LEN {
        StreamParse { envelopes: Seq::empty(), rest: Seq::empty(), failed: true }
    } else {
        let end = LENGTH_PREFIX_LEN + declared_len(bytes);
        match decode_body(bytes.subrange(LENGTH_PREFIX_LEN as int, end)) {
            None => StreamParse { envelopes: Seq::empty(), rest: Seq::empty(), failed: true },
            Some(e) => parse_stream(bytes.subrange(end, bytes.len() as int)).after(seq![e]),
        }
    }
}

/// One step of [`parse_stream`]: what the first frame of `bytes` decides.
pub proof fn lemma_parse_stream_step(bytes: Seq<u8>)
    ensures
        is_partial_frame(bytes) ==> parse_stream(bytes) == (StreamParse {
            envelopes: Seq::empty(),
            rest: bytes,
            failed: false,
        }),
        bytes.len() >= LENGTH_PREFIX_LEN && declared_len(bytes) > MAX_FRAME_LEN ==> parse_stream(
            bytes,
        ) == (StreamParse { envelopes: Seq::empty(), rest: Seq::empty(), failed: true }),
        bytes.len() >= LENGTH_PREFIX_LEN && declared_len(bytes) <= MAX_FRAME_LEN && bytes.len()
            >= LENGTH_PREFIX_LEN + declared_len(bytes) ==> parse_stream(bytes) == (match decode_body(
            bytes.subrange(LENGTH_PREFIX_LEN as int, LENGTH_PREFIX_LEN + declared_len(bytes)),
        ) {
            None => StreamParse { envelopes: Seq::empty(), rest: Seq::empty(), failed: true },
            Some(e) => parse_stream(
                bytes.subrange(LENGTH_PREFIX_LEN + declared_len(bytes), bytes.len() as int),
            ).after(seq![e]),
        }),
{
    reveal(parse_stream);
}

/// How the stream is cut into chunks does not matter: reading `a` and then
/// `b` with what `a` left over gives what reading `a + b` at once gives, and a
/// failure within `a` is final.
pub proof fn lemma_parse_stream_split(a: Seq<u8>, b: Seq<u8>)
    ensures
        parse_stream(a).failed ==> parse_stream(a + b) == parse_stream(a),
        !parse_stream(a).failed ==> parse_stream(a + b) == parse_stream(
            parse_stream(a).rest + b,
        ).after(parse_stream(a).envelopes),
    decreases a.len(),
{
    reveal(parse_stream);
    let whole = a + b;
    if is_partial_frame(a) {
        assert(parse_stream(a).rest + b == whole);
        assert(parse_stream(whole).after(Seq::empty()) =~= parse_stream(whole));
    } else {
        assert(whole.subrange(0, 4) =~= a.subrange(0, 4));
        let n = declared_len(a);
        if n <= MAX_FRAME_LEN {
            let end = LENGTH_PREFIX_LEN + n;
            assert(whole.subrange(4, end) =~= a.subrange(4, end));
            if let Some(e) = decode_body(a.subrange(4, end)) {
                let tail = a.subrange(end, a.len() as int);
                assert(whole.subrange(end, whole.len() as int) =~= tail + b);
                lemma_parse_stream_split(tail, b);
                let pt = parse_stream(tail);
                if !pt.failed {
                    let rest = parse_stream(pt.rest + b);
                    assert(rest.after(pt.envelopes).after(seq![e]) =~= rest.after(
                        seq![e] + pt.envelopes,
                    ));
                }
            }
        }
    }
}

/// Frames written back to back are read back in the order they were written.
pub proof fn lemma_parse_stream_frame(e: EnvelopeView, following: Seq<u8>)
    requires
        e.is_valid(),
    ensures
        parse_stream(spec_encode(e) + following) == parse_stream(following).after(seq![e]),
{
    reveal(parse_stream);
    let frame = spec_encode(e);
    let whole = frame + following;
    let body = encode_body(e);
    lemma_body_roundtrip(e);
    lemma_u32_le_roundtrip(body.len() as u32);
    assert(whole.subrange(0, 4) =~= u32_le(body.len() as u32));
    let end = 4 + body.len() as int;
    assert(whole.subrange(4, end) =~= body);
    assert(whole.subrange(end, whole.len() as int) =~= following);
}

/// A length prefix over the maximum is refused on its own account: whatever
/// follows it, the stream fails there, and nothing behind the prefix counts.
pub proof fn lemma_oversize_rejected(prefix: Seq<u8>, following: Seq<u8>)
    requires
        prefix.len() == LENGTH_PREFIX_LEN,
        le_u32(prefix) > MAX_FRAME_LEN,
    ensures
        spec_decode(prefix + following) is None,
        parse_stream(prefix + following) == parse_stream(prefix),
        parse_stream(prefix).failed,
        parse_stream(prefix).envelopes.len() == 0,
        parse_stream(prefix).rest.len() == 0,
{
    assert((prefix + following).subrange(0, 4) =~= prefix);
    assert(prefix.subrange(0, 4) =~= prefix);
    lemma_parse_stream_step(prefix);
    lemma_parse_stream_step(prefix + following);
}

/// What one call of [`FrameDecoder::feed`] produced.
#[derive(Debug, PartialEq, Eq)]
pub struct Decoded {
    /// The envelopes whose frames became whole, in stream order.
    pub envelopes: Vec<Envelope>,
    /// `Some(ProtocolError)` once the stream has failed.
    pub error: Option<RpcError>,
}

/// Reads a byte stream, delivered in chunks of any size, as frames.
///
/// The decoder holds only the bytes of the one frame that is still
/// incomplete. A length prefix over `MAX_FRAME_LEN` fails the stream as soon
/// as its four bytes are in, before any byte that follows it is kept.
#[derive(Debug)]
pub struct FrameDecoder {
    buffer: Vec<u8>,
    failed: bool,
}

impl FrameDecoder {
    /// The bytes held for the frame that is still incomplete.
    pub closed spec fn buffered(&self) -> Seq<u8> {
        self.buffer@
    }

    /// Whether the stream has failed.
    pub closed spec fn spec_has_failed(&self) -> bool {
        self.failed
    }

    /// The decoder never holds a whole frame, nor any byte behind a length
    /// prefix that declares too much, nor anything once the stream has failed.
    pub open spec fn wf(&self) -> bool {
        if self.spec_has_failed() {
            self.buffered().len() == 0
        } else {
            is_partial_frame(self.buffered())
        }
    }

    /// A decoder at the start of a stream.
    pub fn new() -> (decoder: FrameDecoder)
        ensures
            decoder.wf(),
            decoder.buffered() == Seq::<u8>::empty(),
            !decoder.spec_has_failed(),
    {
        FrameDecoder { buffer: Vec::new(), failed: false }
    }

    /// Whether the stream has failed.
    #[verifier::when_used_as_spec(spec_has_failed)]
    pub fn has_failed(&self) -> (failed: bool)
        ensures
            failed == self.spec_has_failed(),
    {
        self.failed
    }

    /// How many bytes are held for the incomplete frame: never more than a
    /// length prefix and one frame of the greatest length.
    pub fn buffered_len(&self) -> (len: usize)
        requires
            self.wf(),
        ensures
            len == self.buffered().len(),
            len < LENGTH_PREFIX_LEN + MAX_FRAME_LEN,
    {
        self.buffer.len()
    }

    /// Moves bytes of `bytes`, from `pos` on, to the end of the buffer until
    /// the buffer holds `target` bytes or `bytes` is used up. Returns the
    /// position behind the last byte moved.
    fn fill(&mut self, bytes: &[u8], pos: usize, target: usize) -> (next: usize)
        requires
            pos <= bytes@.len(),
            old(self).buffer@.len() <= target,
        ensures
            pos <= next <= bytes@.len(),
            final(self).failed == old(self).failed,
            final(self).buffer@ == old(self).buffer@ + bytes@.subrange(pos as int, next as int),
            final(self).buffer@.len() <= target,
            final(self).buffer@.len() < target ==> next == bytes@.len(),
    {
        let missing = target - self.buffer.len();
        let left = bytes.len() - pos;
        let count = if missing < left {
            missing
        } else {
            left
        };
        let mut chunk = slice_to_vec(slice_subrange(bytes, pos, pos + count));
        self.buffer.append(&mut chunk);
        pos + count
    }

    /// Marks the stream as failed and lets go of what was buffered.
    fn fail(&mut self)
        ensures
            final(self).failed,
            final(self).buffer@ == Seq::<u8>::empty(),
    {
        self.failed = true;
        self.buffer.clear();
    }

    /// Decodes the whole frame that the buffer holds and empties the buffer.
    fn complete(&mut self) -> (r: Result<Envelope, RpcError>)
        requires
            old(self).buffer@.len() >= LENGTH_PREFIX_LEN,
            !old(self).failed,
        ensures
            final(self).buffer@ == Seq::<u8>::empty(),
            match r {
                Ok(e) => !final(self).failed && decode_body(
                    old(self).buffer@.subrange(
                        LENGTH_PREFIX_LEN as int,
                        old(self).buffer@.len() as int,
                    ),
                ) == Some(e@),
                Err(err) => final(self).failed && err == RpcError::ProtocolError && decode_body(
                    old(self).buffer@.subrange(
                        LENGTH_PREFIX_LEN as int,
                        old(self).buffer@.len() as int,
                    ),
                ) is None,
            },
    {
        let end = self.buffer.len();
        let decoded = decode_envelope(
            slice_subrange(self.buffer.as_slice(), LENGTH_PREFIX_LEN, end),
        );
        match decoded {
            Ok(envelope) => {
                self.buffer.clear();
                Ok(envelope)
            },
            Err(err) => {
                self.fail();
                Err(err)
            },
        }
    }

    /// Takes the next chunk of the stream and returns the envelopes of the
    /// frames that it completes.
    ///
    /// Together with what was buffered, the chunk is read as
    /// [`parse_stream`] reads it: whole frames become envelopes, the
    /// beginning of an incomplete frame stays buffered, and the first bad
    /// frame fails the stream. The envelopes that precede a bad frame are
    /// still returned. A failed decoder stays failed and returns nothing.
    pub fn feed(&mut self, bytes: &[u8]) -> (out: Decoded)
        requires
            old(self).wf(),
        ensures
            final(self).wf(),
            old(self).spec_has_failed() ==> {
                &&& out.envelopes@.len() == 0
                &&& out.error == Some(RpcError::ProtocolError)
                &&& final(self).spec_has_failed()
            },
            !old(self).spec_has_failed() ==> {
                let parsed = parse_stream(old(self).buffered() + bytes@);
                &&& envelope_views(out.envelopes@) == parsed.envelopes
                &&& final(self).buffered() == parsed.rest
                &&& final(self).spec_has_failed() == parsed.failed
                &&& out.error == if parsed.failed {
                    Some(RpcError::ProtocolError)
                } else {
                    None
                }
            },
    {
        let mut envelopes: Vec<Envelope> = Vec::new();
        if self.failed {
            return Decoded { envelopes, error: Some(RpcError::ProtocolError) };
        }
        let ghost total = parse_stream(self.buffer@ + bytes@);
        let mut pos: usize = 0;
        proof {
            assert(bytes@.subrange(0, bytes@.len() as int) =~= bytes@);
            assert(total.after(envelope_views(envelopes@)) =~= total);
        }
        while pos < bytes.len()
            invariant
                pos <= bytes@.len(),
                !old(self).failed,
                total == parse_stream(old(self).buffer@ + bytes@),
                !self.failed,
                is_partial_frame(self.buffer@),
                total == parse_stream(
                    self.buffer@ + bytes@.subrange(pos as int, bytes@.len() as int),
                ).after(envelope_views(envelopes@)),
            decreases bytes@.len() - pos,
        {
            let ghost stream = self.buffer@ + bytes@.subrange(pos as int, bytes@.len() as int);
            let ghost before = envelope_views(envelopes@);
            let ghost start = pos;
            let ghost held = self.buffer@;
            proof {
                lemma_parse_stream_step(stream);
            }
            if self.buffer.len() < LENGTH_PREFIX_LEN {
                pos = self.fill(bytes, pos, LENGTH_PREFIX_LEN);
            }
            assert(self.buffer@ + bytes@.subrange(pos as int, bytes@.len() as int) =~= stream);
            assert(self.buffer@ =~= stream.subrange(0, self.buffer@.len() as int));
            if self.buffer.len() >= LENGTH_PREFIX_LEN {
                let declared = get_u32(self.buffer.as_slice(), 0) as usize;
                assert(self.buffer@.subrange(0, 4) =~= stream.subrange(0, 4));
                assert(held.len() >= 4 ==> held.subrange(0, 4) =~= stream.subrange(0, 4));
                if declared > MAX_FRAME_LEN {
                    self.fail();
                    assert(total.envelopes =~= before);
                    return Decoded { envelopes, error: Some(RpcError::ProtocolError) };
                }
                pos = self.fill(bytes, pos, LENGTH_PREFIX_LEN + declared);
                assert(self.buffer@ + bytes@.subrange(pos as int, bytes@.len() as int)
                    =~= stream);
                assert(self.buffer@ =~= stream.subrange(0, self.buffer@.len() as int));
                assert(self.buffer@.subrange(0, 4) =~= stream.subrange(0, 4));
                if self.buffer.len() == LENGTH_PREFIX_LEN + declared {
                    assert(self.buffer@.subrange(4, 4 + declared) =~= stream.subrange(
                        4,
                        4 + declared,
                    ));
                    assert(bytes@.subrange(pos as int, bytes@.len() as int) =~= stream.subrange(
                        4 + declared,
                        stream.len() as int,
                    ));
                    assert(pos > start);
                    match self.complete() {
                        Err(_) => {
                            assert(total.envelopes =~= before);
                            return Decoded { envelopes, error: Some(RpcError::ProtocolError) };
                        },
                        Ok(envelope) => {
                            let ghost tail = parse_stream(
                                stream.subrange(4 + declared, stream.len() as int),
                            );
                            envelopes.push(envelope);
                            proof {
                                assert(self.buffer@ + bytes@.subrange(
                                    pos as int,
                                    bytes@.len() as int,
                                ) =~= stream.subrange(4 + declared, stream.len() as int));
                                assert(envelope_views(envelopes@) =~= before.push(envelope@));
                                assert(tail.after(seq![envelope@]).after(before) =~= tail.after(
                                    before.push(envelope@),
                                ));
                            }
                        },
                    }
                } else {
                    assert(pos == bytes@.len());
                }
            } else {
                assert(pos == bytes@.len());
            }
        }
        proof {
            assert(self.buffer@ + bytes@.subrange(pos as int, bytes@.len() as int)
                =~= self.buffer@);
            lemma_parse_stream_step(self.buffer@);
            assert(total.envelopes =~= envelope_views(envelopes@));
        }
        Decoded { envelopes, error: None }
    }
}

} // verus!
