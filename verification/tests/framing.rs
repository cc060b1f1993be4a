use rpc::error::RpcError;
use rpc::message_stream::{
    decode, decode_envelope, encode, encode_envelope, FrameDecoder, ENVELOPE_HEADER_LEN,
    LENGTH_PREFIX_LEN, MAX_FRAME_LEN,
};
use rpc::proto::{Envelope, MessageKind, Payload, MAX_PAYLOAD_LEN};
use rpc::PROTOCOL_VERSION;

fn ping(id: u32) -> Envelope {
    Envelope {
        version: PROTOCOL_VERSION,
        id,
        responding_to: None,
        payload: Payload::Request(MessageKind::Ping, Vec::new()),
    }
}

fn pong(id: u32, responding_to: u32, data: Vec<u8>) -> Envelope {
    Envelope {
        version: PROTOCOL_VERSION,
        id,
        responding_to: Some(responding_to),
        payload: Payload::Response(MessageKind::Pong, data),
    }
}

#[test]
fn protocol_version_is_68() {
    assert_eq!(PROTOCOL_VERSION, 68);
}

#[test]
fn frame_limits_fit_together() {
    assert_eq!(LENGTH_PREFIX_LEN, 4);
    assert_eq!(ENVELOPE_HEADER_LEN, 15);
    assert_eq!(MAX_FRAME_LEN, ENVELOPE_HEADER_LEN + MAX_PAYLOAD_LEN);
}

#[test]
fn encode_request_exact_bytes() {
    let frame = encode(&ping(1)).unwrap();
    assert_eq!(
        frame,
        vec![15, 0, 0, 0, 68, 0, 0, 0, 1, 0, 0, 0, 0, 0, 0, 0, 0, 0, 2]
    );
}

#[test]
fn encode_response_exact_bytes() {
    let frame = encode(&pong(9, 1, vec![0xAB])).unwrap();
    assert_eq!(
        frame,
        vec![16, 0, 0, 0, 68, 0, 0, 0, 9, 0, 0, 0, 1, 1, 0, 0, 0, 1, 3, 0xAB]
    );
}

#[test]
fn encode_is_little_endian() {
    let envelope = Envelope {
        version: 0x0102_0304,
        id: 0xA1B2_C3D4,
        responding_to: Some(0xFFFF_FFFF),
        payload: Payload::Error(MessageKind::Call, b"no".to_vec()),
    };
    let body = encode_envelope(&envelope).unwrap();
    assert_eq!(
        body,
        vec![4, 3, 2, 1, 0xD4, 0xC3, 0xB2, 0xA1, 1, 0xFF, 0xFF, 0xFF, 0xFF, 2, 4, b'n', b'o']
    );
    assert_eq!(decode_envelope(&body), Ok(envelope));
}

#[test]
fn round_trip_every_kind_and_variant() {
    let kinds = [
        MessageKind::Hello,
        MessageKind::Ack,
        MessageKind::Ping,
        MessageKind::Pong,
        MessageKind::Call,
        MessageKind::Reply,
        MessageKind::Event,
    ];
    let mut id = 0;
    for kind in kinds {
        for variant in 0..3 {
            for responding_to in [None, Some(0), Some(7), Some(u32::MAX)] {
                let data = vec![1, 2, 3, id as u8];
                let payload = match variant {
                    0 => Payload::Request(kind, data),
                    1 => Payload::Response(kind, data),
                    _ => Payload::Error(kind, data),
                };
                let envelope = Envelope { version: PROTOCOL_VERSION, id, responding_to, payload };
                let frame = encode(&envelope).unwrap();
                assert_eq!(frame.len(), 4 + 15 + 4);
                assert_eq!(decode(&frame), Ok(envelope));
                id += 1;
            }
        }
    }
}

#[test]
fn round_trip_empty_and_full_payload() {
    let empty = ping(0);
    assert_eq!(decode(&encode(&empty).unwrap()), Ok(empty));
    let full = Envelope {
        version: PROTOCOL_VERSION,
        id: 3,
        responding_to: None,
        payload: Payload::Request(MessageKind::Call, vec![0x5A; MAX_PAYLOAD_LEN]),
    };
    let frame = encode(&full).unwrap();
    assert_eq!(frame.len(), LENGTH_PREFIX_LEN + MAX_FRAME_LEN);
    assert_eq!(decode(&frame), Ok(full));
}

#[test]
fn encode_refuses_oversize_payload() {
    let too_big = Envelope {
        version: PROTOCOL_VERSION,
        id: 3,
        responding_to: None,
        payload: Payload::Request(MessageKind::Call, vec![0; MAX_PAYLOAD_LEN + 1]),
    };
    assert!(!too_big.is_valid());
    assert_eq!(encode(&too_big), Err(RpcError::ProtocolError));
    assert_eq!(encode_envelope(&too_big), Err(RpcError::ProtocolError));
}

#[test]
fn decode_rejects_declared_length_over_maximum() {
    // 1048592 = MAX_FRAME_LEN + 1, little-endian.
    let mut frame = vec![0x10, 0x00, 0x10, 0x00];
    assert_eq!(decode(&frame), Err(RpcError::ProtocolError));
    frame.extend_from_slice(&[0; 64]);
    assert_eq!(decode(&frame), Err(RpcError::ProtocolError));
    assert_eq!(decode(&[0xFF, 0xFF, 0xFF, 0xFF]), Err(RpcError::ProtocolError));
}

#[test]
fn decode_rejects_short_and_mislength_frames() {
    assert_eq!(decode(&[]), Err(RpcError::ProtocolError));
    assert_eq!(decode(&[15, 0, 0]), Err(RpcError::ProtocolError));
    let frame = encode(&ping(1)).unwrap();
    assert_eq!(decode(&frame[..frame.len() - 1]), Err(RpcError::ProtocolError));
    let mut long = frame.clone();
    long.push(0);
    assert_eq!(decode(&long), Err(RpcError::ProtocolError));
    // A frame whose envelope is shorter than the fixed header.
    assert_eq!(decode(&[2, 0, 0, 0, 68, 0]), Err(RpcError::ProtocolError));
}

#[test]
fn decode_rejects_unknown_kind_variant_and_flag() {
    let good = encode_envelope(&pong(9, 1, vec![7])).unwrap();
    assert!(decode_envelope(&good).is_ok());
    let mut bad_kind = good.clone();
    bad_kind[14] = 7;
    assert_eq!(decode_envelope(&bad_kind), Err(RpcError::ProtocolError));
    let mut bad_variant = good.clone();
    bad_variant[13] = 3;
    assert_eq!(decode_envelope(&bad_variant), Err(RpcError::ProtocolError));
    let mut bad_flag = good.clone();
    bad_flag[8] = 2;
    assert_eq!(decode_envelope(&bad_flag), Err(RpcError::ProtocolError));
    // No reply id may be spelled out where the flag says there is none.
    let mut stray_reply = good.clone();
    stray_reply[8] = 0;
    assert_eq!(decode_envelope(&stray_reply), Err(RpcError::ProtocolError));
}

#[test]
fn decoder_reads_frames_across_any_chunking() {
    let envelopes = vec![ping(1), pong(2, 1, vec![9, 9, 9]), ping(3)];
    let mut stream = Vec::new();
    for envelope in &envelopes {
        stream.extend_from_slice(&encode(envelope).unwrap());
    }
    for chunk in [1, 2, 3, 5, 19, 20, stream.len()] {
        let mut decoder = FrameDecoder::new();
        let mut seen = Vec::new();
        for piece in stream.chunks(chunk) {
            let out = decoder.feed(piece);
            assert_eq!(out.error, None);
            seen.extend(out.envelopes);
        }
        assert_eq!(seen, envelopes);
        assert_eq!(decoder.buffered_len(), 0);
        assert!(!decoder.has_failed());
    }
}

#[test]
fn decoder_buffers_until_frame_is_whole() {
    let frame = encode(&pong(2, 1, vec![1, 2, 3, 4])).unwrap();
    let mut decoder = FrameDecoder::new();
    let out = decoder.feed(&frame[..10]);
    assert!(out.envelopes.is_empty());
    assert_eq!(out.error, None);
    assert_eq!(decoder.buffered_len(), 10);
    let out = decoder.feed(&[]);
    assert!(out.envelopes.is_empty());
    assert_eq!(decoder.buffered_len(), 10);
    let out = decoder.feed(&frame[10..]);
    assert_eq!(out.envelopes, vec![pong(2, 1, vec![1, 2, 3, 4])]);
    assert_eq!(decoder.buffered_len(), 0);
}

#[test]
fn decoder_rejects_oversize_before_buffering_payload() {
    let mut decoder = FrameDecoder::new();
    let out = decoder.feed(&[0x10, 0x00]);
    assert_eq!(out.error, None);
    assert_eq!(decoder.buffered_len(), 2);
    // The prefix is complete with the next two bytes; what follows is never kept.
    let mut rest = vec![0x10, 0x00];
    rest.extend_from_slice(&[0xEE; 1000]);
    let out = decoder.feed(&rest);
    assert!(out.envelopes.is_empty());
    assert_eq!(out.error, Some(RpcError::ProtocolError));
    assert!(decoder.has_failed());
    assert_eq!(decoder.buffered_len(), 0);
}

#[test]
fn decoder_stays_failed() {
    let mut decoder = FrameDecoder::new();
    let out = decoder.feed(&[0xFF, 0xFF, 0xFF, 0xFF]);
    assert_eq!(out.error, Some(RpcError::ProtocolError));
    let out = decoder.feed(&encode(&ping(1)).unwrap());
    assert!(out.envelopes.is_empty());
    assert_eq!(out.error, Some(RpcError::ProtocolError));
    assert!(decoder.has_failed());
}

#[test]
fn decoder_returns_envelopes_that_precede_a_bad_frame() {
    let mut stream = encode(&ping(1)).unwrap();
    stream.extend_from_slice(&encode(&ping(2)).unwrap());
    // A frame of fifteen bytes with an unknown kind tag.
    stream.extend_from_slice(&[15, 0, 0, 0, 68, 0, 0, 0, 3, 0, 0, 0, 0, 0, 0, 0, 0, 0, 99]);
    stream.extend_from_slice(&encode(&ping(4)).unwrap());
    let mut decoder = FrameDecoder::new();
    let out = decoder.feed(&stream);
    assert_eq!(out.envelopes, vec![ping(1), ping(2)]);
    assert_eq!(out.error, Some(RpcError::ProtocolError));
    assert!(decoder.has_failed());
}

#[test]
fn decoder_rejects_empty_frame() {
    let mut decoder = FrameDecoder::new();
    let out = decoder.feed(&[0, 0, 0, 0]);
    assert_eq!(out.error, Some(RpcError::ProtocolError));
}

#[test]
fn message_kind_tags_round_trip() {
    let kinds = [
        (MessageKind::Hello, 0),
        (MessageKind::Ack, 1),
        (MessageKind::Ping, 2),
        (MessageKind::Pong, 3),
        (MessageKind::Call, 4),
        (MessageKind::Reply, 5),
        (MessageKind::Event, 6),
    ];
    for (kind, tag) in kinds {
        assert_eq!(kind.tag(), tag);
        assert_eq!(MessageKind::from_tag(tag), Some(kind));
    }
    for tag in 7..=255u8 {
        assert_eq!(MessageKind::from_tag(tag), None);
    }
}

#[test]
fn only_ping_and_call_expect_a_reply() {
    assert!(MessageKind::Ping.expects_reply());
    assert!(MessageKind::Call.expects_reply());
    assert!(!MessageKind::Hello.expects_reply());
    assert!(!MessageKind::Ack.expects_reply());
    assert!(!MessageKind::Pong.expects_reply());
    assert!(!MessageKind::Reply.expects_reply());
    assert!(!MessageKind::Event.expects_reply());
    assert!(MessageKind::Hello.is_handshake());
    assert!(!MessageKind::Ping.is_handshake());
}

#[test]
fn envelope_predicates() {
    assert!(ping(1).wants_reply());
    assert!(!ping(1).is_reply());
    assert!(pong(2, 1, vec![]).is_reply());
    assert!(!pong(2, 1, vec![]).wants_reply());
    let event = Envelope {
        version: PROTOCOL_VERSION,
        id: 5,
        responding_to: None,
        payload: Payload::Request(MessageKind::Event, vec![1]),
    };
    assert!(!event.wants_reply());
    assert_eq!(event.duplicate(), event);
    assert_eq!(event.payload.kind(), MessageKind::Event);
    assert_eq!(event.payload.body(), &vec![1]);
    assert_eq!(event.payload.variant_tag(), 0);
    assert_eq!(pong(2, 1, vec![]).payload.variant_tag(), 1);
    assert_eq!(Payload::Error(MessageKind::Call, vec![]).variant_tag(), 2);
}
