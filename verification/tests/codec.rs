use ipchess::codec::Challenge;
use ipchess::codec::ChallengeAccept;
use ipchess::codec::ChallengeCancel;
use ipchess::codec::ChallengeDecline;
use ipchess::codec::ChallengeReveal;
use ipchess::codec::EncodeError;
use ipchess::codec::Message;
use ipchess::codec::Payload;
use ipchess::codec::decode_frame;
use ipchess::codec::decode_message;
use ipchess::codec::encode_frame;
use ipchess::codec::encode_message;
use ipchess::codec::frame_len;

fn challenge_msg(commitment: Vec<u8>) -> Message {
    Message { payload: Some(Payload::Challenge(Challenge { commitment })) }
}

#[test]
fn encode_challenge_exact_bytes() {
    let msg = challenge_msg(vec![0xAA, 0xBB]);
    let bytes = encode_message(&msg).unwrap();
    // payload field 1, nested bytes field 1.
    assert_eq!(bytes, vec![0x0A, 0x04, 0x0A, 0x02, 0xAA, 0xBB]);
}

#[test]
fn encode_cancel_exact_bytes() {
    let msg = Message { payload: Some(Payload::ChallengeCancel(ChallengeCancel {})) };
    assert_eq!(encode_message(&msg).unwrap(), vec![0x22, 0x00]);
}

#[test]
fn encode_decline_exact_bytes() {
    let msg = Message { payload: Some(Payload::ChallengeDecline(ChallengeDecline {})) };
    assert_eq!(encode_message(&msg).unwrap(), vec![0x2A, 0x00]);
}

#[test]
fn round_trip_all_variants() {
    let value: Vec<u8> = (0..32).collect();
    let msgs = vec![
        challenge_msg(value.clone()),
        Message { payload: Some(Payload::ChallengeAccept(ChallengeAccept { random: value.clone() })) },
        Message { payload: Some(Payload::ChallengeReveal(ChallengeReveal { preimage: value.clone() })) },
        Message { payload: Some(Payload::ChallengeCancel(ChallengeCancel {})) },
        Message { payload: Some(Payload::ChallengeDecline(ChallengeDecline {})) },
    ];
    for msg in msgs {
        let bytes = encode_message(&msg).unwrap();
        assert_eq!(decode_message(&bytes).unwrap(), msg);
        let frame = encode_frame(&msg).unwrap();
        assert_eq!(decode_frame(&frame).unwrap(), msg);
    }
}

#[test]
fn round_trip_large_value() {
    // Longer than one varint byte can say: two-byte varints on the wire.
    let value: Vec<u8> = (0..300u32).map(|i| (i % 251) as u8).collect();
    let msg = challenge_msg(value);
    let bytes = encode_message(&msg).unwrap();
    assert_eq!(decode_message(&bytes).unwrap(), msg);
}

#[test]
fn empty_value_is_omitted() {
    let msg = challenge_msg(vec![]);
    let bytes = encode_message(&msg).unwrap();
    assert_eq!(bytes, vec![0x0A, 0x00]);
    assert_eq!(decode_message(&bytes).unwrap(), msg);
}

#[test]
fn decode_empty_buffer_is_payloadless() {
    let msg = decode_message(&vec![]).unwrap();
    assert_eq!(msg, Message { payload: None });
}

#[test]
fn encode_without_payload_fails() {
    let msg = Message { payload: None };
    assert_eq!(encode_message(&msg).unwrap_err(), EncodeError::MissingPayload);
    assert_eq!(encode_frame(&msg).unwrap_err(), EncodeError::MissingPayload);
}

#[test]
fn decode_rejects_malformed() {
    // Unknown payload tag.
    assert!(decode_message(&vec![0x32, 0x00]).is_err());
    // Truncated: length prefix claims more than present.
    assert!(decode_message(&vec![0x0A, 0x05, 0x0A]).is_err());
    // Trailing garbage after the payload field.
    assert!(decode_message(&vec![0x22, 0x00, 0x00]).is_err());
    // Unknown inner field tag.
    assert!(decode_message(&vec![0x0A, 0x02, 0x08, 0x01]).is_err());
    // Cancel with a non-empty body value.
    assert!(decode_message(&vec![0x22, 0x04, 0x0A, 0x02, 0x01, 0x02]).is_err());
    // Varint that never terminates.
    assert!(decode_message(&vec![0x0A, 0x80, 0x80, 0x80, 0x80, 0x80]).is_err());
}

#[test]
fn frame_prefix_is_big_endian_length() {
    let value: Vec<u8> = (0..300u32).map(|_| 7u8).collect();
    let msg = challenge_msg(value);
    let body = encode_message(&msg).unwrap();
    let frame = encode_frame(&msg).unwrap();
    assert_eq!(frame.len(), body.len() + 2);
    assert_eq!(frame_len(frame[0], frame[1]) as usize, body.len());
    assert_eq!(&frame[2..], &body[..]);
}

#[test]
fn frame_len_combines_bytes() {
    assert_eq!(frame_len(0x01, 0x02), 0x0102);
    assert_eq!(frame_len(0xFF, 0xFF), 0xFFFF);
    assert_eq!(frame_len(0x00, 0x26), 38);
}

#[test]
fn oversize_body_is_refused() {
    let msg = challenge_msg(vec![0u8; 70000]);
    assert_eq!(encode_frame(&msg).unwrap_err(), EncodeError::OversizeFrame);
    // The plain message codec still handles it.
    let bytes = encode_message(&msg).unwrap();
    assert_eq!(decode_message(&bytes).unwrap(), msg);
}

#[test]
fn decode_frame_rejects_bad_prefix() {
    assert!(decode_frame(&vec![]).is_err());
    assert!(decode_frame(&vec![0x00]).is_err());
    // Length prefix disagrees with the body length.
    assert!(decode_frame(&vec![0x00, 0x03, 0x22, 0x00]).is_err());
}
