//! The framed wire format of the challenge protocol.
//!
//! A frame on a substream is a 2-byte big-endian length prefix followed by
//! that many bytes of an encoded message. The message is a tagged union of
//! five payload variants, in protocol-buffer wire encoding: the payload is
//! a length-delimited field with tag 1 to 5, and its body holds at most one
//! length-delimited byte-string field with tag 1 (omitted when the value is
//! empty). A message with no payload encodes to zero bytes; it is valid on
//! the wire but semantically empty.
//!
//! `spec_parse_message` is the grammar: `decode_message` returns `Ok`
//! exactly on the byte strings the grammar accepts. Byte-string values of
//! any length are accepted on read; unknown field tags and trailing bytes
//! are rejected.

use vstd::prelude::*;

verus! {

// ---------------------------------------------------------------------
// Message types
// ---------------------------------------------------------------------

/// A challenge, carrying the digest the challenger commits to.
#[derive(Debug, Clone, PartialEq, Eq)]
pub struct Challenge {
    pub commitment: Vec<u8>,
}

/// Acceptance of a challenge, carrying the challenged side's random bytes.
#[derive(Debug, Clone, PartialEq, Eq)]
pub struct ChallengeAccept {
    pub random: Vec<u8>,
}

/// Reveal of the challenger's commitment preimage.
#[derive(Debug, Clone, PartialEq, Eq)]
pub struct ChallengeReveal {
    pub preimage: Vec<u8>,
}

/// Withdrawal of an outbound challenge by the challenger.
#[derive(Debug, Clone, PartialEq, Eq)]
pub struct ChallengeCancel {}

/// Refusal of an inbound challenge by the challenged side.
#[derive(Debug, Clone, PartialEq, Eq)]
pub struct ChallengeDecline {}

/// The five payload variants, identified on the wire by field tags 1 to 5.
#[derive(Debug, Clone, PartialEq, Eq)]
pub enum Payload {
    Challenge(Challenge),
    ChallengeAccept(ChallengeAccept),
    ChallengeReveal(ChallengeReveal),
    ChallengeCancel(ChallengeCancel),
    ChallengeDecline(ChallengeDecline),
}

/// A wire message: an optional payload.
#[derive(Debug, Clone, PartialEq, Eq)]
pub struct Message {
    pub payload: Option<Payload>,
}

/// Mathematical value of a payload.
pub enum PayloadView {
    Challenge { commitment: Seq<u8> },
    ChallengeAccept { random: Seq<u8> },
    ChallengeReveal { preimage: Seq<u8> },
    ChallengeCancel,
    ChallengeDecline,
}

/// Mathematical value of a message.
pub struct MessageView {
    pub payload: Option<PayloadView>,
}

impl View for Payload {
    type V = PayloadView;

    open spec fn view(&self) -> PayloadView {
        match self {
            Payload::Challenge(c) => PayloadView::Challenge { commitment: c.commitment@ },
            Payload::ChallengeAccept(a) => PayloadView::ChallengeAccept { random: a.random@ },
            Payload::ChallengeReveal(r) => PayloadView::ChallengeReveal { preimage: r.preimage@ },
            Payload::ChallengeCancel(_) => PayloadView::ChallengeCancel,
            Payload::ChallengeDecline(_) => PayloadView::ChallengeDecline,
        }
    }
}

impl View for Message {
    type V = MessageView;

    open spec fn view(&self) -> MessageView {
        MessageView {
            payload: match self.payload {
                Option::Some(p) => Option::Some(p@),
                Option::None => Option::None,
            },
        }
    }
}

/// Raised by encoding: the message has no payload, or its encoding does
/// not fit in a frame.
#[derive(Debug, Clone, Copy, PartialEq, Eq)]
pub enum EncodeError {
    MissingPayload,
    OversizeFrame,
}

/// Raised by decoding: the bytes are not in the wire grammar.
#[derive(Debug, Clone, Copy, PartialEq, Eq)]
pub struct DecodeError {}

// ---------------------------------------------------------------------
// Specification of the encoding
// ---------------------------------------------------------------------

/// 128 to the `n`th power: the number of values a `n`-byte varint covers.
pub open spec fn pow128(n: nat) -> nat
    decreases n,
{
    if n == 0 {
        1
    } else {
        128 * pow128((n - 1) as nat)
    }
}

/// Base-128 varint encoding, least-significant group first.
pub open spec fn spec_varint(n: nat) -> Seq<u8>
    decreases n,
{
    if n < 128 {
        seq![n as u8]
    } else {
        seq![(n % 128 + 128) as u8] + spec_varint(n / 128)
    }
}

/// Encoding of the byte-string field with tag 1 inside a payload body;
/// an empty value is omitted.
pub open spec fn spec_bytes_field(b: Seq<u8>) -> Seq<u8> {
    if b.len() == 0 {
        seq![]
    } else {
        seq![10u8] + spec_varint(b.len() as nat) + b
    }
}

/// The key byte of the payload field: field tag shifted left by three,
/// wire type 2 (length-delimited).
pub open spec fn payload_key(p: PayloadView) -> u8 {
    match p {
        PayloadView::Challenge { .. } => 10,
        PayloadView::ChallengeAccept { .. } => 18,
        PayloadView::ChallengeReveal { .. } => 26,
        PayloadView::ChallengeCancel => 34,
        PayloadView::ChallengeDecline => 42,
    }
}

/// The body of the payload field: the encoded byte-string value, or empty
/// for the two variants without one.
pub open spec fn payload_body(p: PayloadView) -> Seq<u8> {
    match p {
        PayloadView::Challenge { commitment } => spec_bytes_field(commitment),
        PayloadView::ChallengeAccept { random } => spec_bytes_field(random),
        PayloadView::ChallengeReveal { preimage } => spec_bytes_field(preimage),
        PayloadView::ChallengeCancel => seq![],
        PayloadView::ChallengeDecline => seq![],
    }
}

/// Encoding of a whole message.
pub open spec fn spec_encode_message(m: MessageView) -> Seq<u8> {
    match m.payload {
        Option::None => seq![],
        Option::Some(p) => seq![payload_key(p)] + spec_varint(payload_body(p).len() as nat)
            + payload_body(p),
    }
}

/// The 2-byte big-endian length prefix of a frame with an `n`-byte body.
pub open spec fn spec_frame_prefix(n: nat) -> Seq<u8> {
    seq![(n / 256) as u8, (n % 256) as u8]
}

// ---------------------------------------------------------------------
// Specification of the decoding
// ---------------------------------------------------------------------

/// Parses a varint of at most `rem` bytes; yields its value and the
/// remaining bytes.
pub open spec fn spec_parse_varint_rec(bytes: Seq<u8>, rem: nat) -> Option<(nat, Seq<u8>)>
    decreases rem,
{
    if rem == 0 || bytes.len() == 0 {
        Option::None
    } else if bytes[0] < 128 {
        Option::Some((bytes[0] as nat, bytes.drop_first()))
    } else {
        match spec_parse_varint_rec(bytes.drop_first(), (rem - 1) as nat) {
            Option::None => Option::None,
            Option::Some((v, rest)) => Option::Some(((bytes[0] - 128) as nat + v * 128, rest)),
        }
    }
}

/// Parses a varint of at most five bytes.
pub open spec fn spec_parse_varint(bytes: Seq<u8>) -> Option<(nat, Seq<u8>)> {
    spec_parse_varint_rec(bytes, 5)
}

/// Parses a payload body into its byte-string value: empty, or one
/// byte-string field with tag 1 spanning the whole body.
pub open spec fn spec_parse_inner(bytes: Seq<u8>) -> Option<Seq<u8>> {
    if bytes.len() == 0 {
        Option::Some(seq![])
    } else if bytes[0] != 10 {
        Option::None
    } else {
        match spec_parse_varint(bytes.drop_first()) {
            Option::None => Option::None,
            Option::Some((n, rest)) => if rest.len() == n {
                Option::Some(rest)
            } else {
                Option::None
            },
        }
    }
}

/// The payload a field key and byte-string value decode to. The mapping is
/// the inverse of the encoding; the two variants without a value require
/// an empty one.
pub open spec fn payload_from_key(key: u8, value: Seq<u8>) -> Option<PayloadView> {
    if key == 10 {
        Option::Some(PayloadView::Challenge { commitment: value })
    } else if key == 18 {
        Option::Some(PayloadView::ChallengeAccept { random: value })
    } else if key == 26 {
        Option::Some(PayloadView::ChallengeReveal { preimage: value })
    } else if key == 34 {
        if value.len() == 0 {
            Option::Some(PayloadView::ChallengeCancel)
        } else {
            Option::None
        }
    } else if key == 42 {
        if value.len() == 0 {
            Option::Some(PayloadView::ChallengeDecline)
        } else {
            Option::None
        }
    } else {
        Option::None
    }
}

/// The grammar of a message: empty, or one payload field spanning the
/// whole buffer.
pub open spec fn spec_parse_message(bytes: Seq<u8>) -> Option<MessageView> {
    if bytes.len() == 0 {
        Option::Some(MessageView { payload: Option::None })
    } else {
        match spec_parse_varint(bytes.drop_first()) {
            Option::None => Option::None,
            Option::Some((n, rest)) => if rest.len() != n {
                Option::None
            } else {
                match spec_parse_inner(rest) {
                    Option::None => Option::None,
                    Option::Some(value) => match payload_from_key(bytes[0], value) {
                        Option::None => Option::None,
                        Option::Some(p) => Option::Some(MessageView { payload: Option::Some(p) }),
                    },
                }
            },
        }
    }
}

/// The grammar of a frame: a 2-byte big-endian length prefix, then a body
/// of exactly that length in the message grammar.
pub open spec fn spec_parse_frame(bytes: Seq<u8>) -> Option<MessageView> {
    if bytes.len() < 2 {
        Option::None
    } else if bytes.len() - 2 == bytes[0] * 256 + bytes[1] {
        spec_parse_message(bytes.skip(2))
    } else {
        Option::None
    }
}

// ---------------------------------------------------------------------
// Byte helpers
// ---------------------------------------------------------------------

/// A copy of a byte string.
pub fn clone_bytes(b: &Vec<u8>) -> (r: Vec<u8>)
    ensures
        r@ == b@,
{
    let mut r: Vec<u8> = Vec::new();
    let mut i: usize = 0;
    while i < b.len()
        invariant
            i <= b@.len(),
            r@ == b@.take(i as int),
        decreases b@.len() - i,
    {
        r.push(b[i]);
        proof {
            assert(b@.take(i + 1 as int) =~= b@.take(i as int).push(b@[i as int]));
        }
        i += 1;
    }
    proof {
        assert(b@.take(b@.len() as int) =~= b@);
    }
    r
}

/// A copy of the bytes from `from` to the end.
fn suffix_to_vec(b: &Vec<u8>, from: usize) -> (r: Vec<u8>)
    requires
        from <= b@.len(),
    ensures
        r@ == b@.skip(from as int),
{
    let mut r: Vec<u8> = Vec::new();
    let mut i: usize = from;
    while i < b.len()
        invariant
            from <= i <= b@.len(),
            r@ == b@.subrange(from as int, i as int),
        decreases b@.len() - i,
    {
        r.push(b[i]);
        proof {
            assert(b@.subrange(from as int, i + 1 as int)
                =~= b@.subrange(from as int, i as int).push(b@[i as int]));
        }
        i += 1;
    }
    proof {
        assert(b@.subrange(from as int, b@.len() as int) =~= b@.skip(from as int));
    }
    r
}

// ---------------------------------------------------------------------
// Encoding
// ---------------------------------------------------------------------

/// The varint encoding of `n0`.
fn encode_varint(n0: usize) -> (r: Vec<u8>)
    ensures
        r@ == spec_varint(n0 as nat),
{
    let mut out: Vec<u8> = Vec::new();
    let mut n = n0;
    proof {
        assert(out@ + spec_varint(n as nat) =~= spec_varint(n0 as nat));
    }
    while n >= 128
        invariant
            out@ + spec_varint(n as nat) == spec_varint(n0 as nat),
        decreases n,
    {
        let b: u8 = (n % 128 + 128) as u8;
        proof {
            assert(spec_varint(n as nat) == seq![b] + spec_varint(n as nat / 128));
            assert(out@.push(b) + spec_varint(n as nat / 128)
                =~= out@ + (seq![b] + spec_varint(n as nat / 128)));
        }
        out.push(b);
        n = n / 128;
    }
    proof {
        assert(spec_varint(n as nat) == seq![n as u8]);
        assert(out@.push(n as u8) =~= out@ + seq![n as u8]);
    }
    out.push(n as u8);
    out
}

/// The encoded byte-string field holding `b`, empty when `b` is.
fn encode_bytes_field(b: &Vec<u8>) -> (r: Vec<u8>)
    ensures
        r@ == spec_bytes_field(b@),
{
    let mut out: Vec<u8> = Vec::new();
    if b.len() > 0 {
        out.push(10);
        let mut lenv = encode_varint(b.len());
        out.append(&mut lenv);
        let mut value = clone_bytes(b);
        out.append(&mut value);
        proof {
            assert(out@ =~= seq![10u8] + spec_varint(b@.len() as nat) + b@);
        }
    }
    out
}

/// Encodes a message; fails exactly when the payload is absent.
pub fn encode_message(msg: &Message) -> (r: Result<Vec<u8>, EncodeError>)
    ensures
        match r {
            Ok(bytes) => msg@.payload is Some && bytes@ == spec_encode_message(msg@),
            Err(e) => msg@.payload is None && e == EncodeError::MissingPayload,
        },
{
    let p = match &msg.payload {
        Option::None => {
            return Err(EncodeError::MissingPayload);
        },
        Option::Some(p) => p,
    };
    let key: u8;
    let mut body: Vec<u8>;
    match p {
        Payload::Challenge(c) => {
            key = 10;
            body = encode_bytes_field(&c.commitment);
        },
        Payload::ChallengeAccept(a) => {
            key = 18;
            body = encode_bytes_field(&a.random);
        },
        Payload::ChallengeReveal(v) => {
            key = 26;
            body = encode_bytes_field(&v.preimage);
        },
        Payload::ChallengeCancel(_) => {
            key = 34;
            body = Vec::new();
        },
        Payload::ChallengeDecline(_) => {
            key = 42;
            body = Vec::new();
        },
    }
    proof {
        assert(key == payload_key(p@));
        assert(body@ == payload_body(p@));
    }
    let mut out: Vec<u8> = Vec::new();
    out.push(key);
    let mut lenv = encode_varint(body.len());
    out.append(&mut lenv);
    out.append(&mut body);
    proof {
        assert(out@ =~= seq![payload_key(p@)] + spec_varint(payload_body(p@).len() as nat)
            + payload_body(p@));
    }
    Ok(out)
}

/// Encodes a message and prefixes its 2-byte big-endian length; fails
/// when the payload is absent or the body does not fit in the prefix.
pub fn encode_frame(msg: &Message) -> (r: Result<Vec<u8>, EncodeError>)
    ensures
        match r {
            Ok(bytes) => msg@.payload is Some && spec_encode_message(msg@).len() <= 0xFFFF
                && bytes@ == spec_frame_prefix(spec_encode_message(msg@).len() as nat)
                + spec_encode_message(msg@),
            Err(e) => match e {
                EncodeError::MissingPayload => msg@.payload is None,
                EncodeError::OversizeFrame => msg@.payload is Some
                    && spec_encode_message(msg@).len() > 0xFFFF,
            },
        },
{
    let mut body = encode_message(msg)?;
    if body.len() > 0xFFFF {
        return Err(EncodeError::OversizeFrame);
    }
    let n = body.len();
    let mut out: Vec<u8> = Vec::new();
    out.push((n / 256) as u8);
    out.push((n % 256) as u8);
    out.append(&mut body);
    proof {
        assert(out@ =~= spec_frame_prefix(n as nat) + spec_encode_message(msg@));
    }
    Ok(out)
}

/// The body length a 2-byte big-endian prefix announces.
pub fn frame_len(b0: u8, b1: u8) -> (r: u16)
    ensures
        r == b0 * 256 + b1,
{
    (b0 as u16) * 256 + (b1 as u16)
}

// ---------------------------------------------------------------------
// Decoding
// ---------------------------------------------------------------------

/// Value bound of a parsed varint: fewer than `rem` bytes of seven bits
/// each.
proof fn lemma_varint_value_bound(bytes: Seq<u8>, rem: nat)
    ensures
        match spec_parse_varint_rec(bytes, rem) {
            Option::Some(p) => p.0 < pow128(rem),
            Option::None => true,
        },
    decreases rem,
{
    if rem == 0 || bytes.len() == 0 {
    } else if bytes[0] < 128 {
        assert(pow128(rem) >= 128 * 1) by {
            assert(pow128((rem - 1) as nat) >= 1) by {
                lemma_pow128_positive((rem - 1) as nat);
            }
        }
    } else {
        lemma_varint_value_bound(bytes.drop_first(), (rem - 1) as nat);
    }
}

proof fn lemma_pow128_values()
    ensures
        pow128(0) == 1,
        pow128(1) == 128,
        pow128(2) == 16384,
        pow128(3) == 2097152,
        pow128(4) == 268435456,
        pow128(5) == 34359738368,
{
    assert(pow128(0) == 1);
    assert(pow128(1) == 128);
    assert(pow128(2) == 16384);
    assert(pow128(3) == 2097152);
    assert(pow128(4) == 268435456);
}

proof fn lemma_pow128_positive(n: nat)
    ensures
        pow128(n) >= 1,
    decreases n,
{
    if n > 0 {
        lemma_pow128_positive((n - 1) as nat);
    }
}

fn parse_varint_rec(buf: &Vec<u8>, i: usize, rem: usize) -> (r: Option<(u64, usize)>)
    requires
        i <= buf@.len(),
        rem <= 5,
    ensures
        match r {
            Option::Some(vj) => i < vj.1 <= buf@.len()
                && spec_parse_varint_rec(buf@.skip(i as int), rem as nat)
                    == Option::Some((vj.0 as nat, buf@.skip(vj.1 as int))),
            Option::None => spec_parse_varint_rec(buf@.skip(i as int), rem as nat) is None,
        },
    decreases rem,
{
    if rem == 0 || i == buf.len() {
        return None;
    }
    let b = buf[i];
    proof {
        assert(buf@.skip(i as int)[0] == b);
        assert(buf@.skip(i as int).drop_first() =~= buf@.skip(i + 1 as int));
    }
    if b < 128 {
        Some((b as u64, i + 1))
    } else {
        match parse_varint_rec(buf, i + 1, rem - 1) {
            Option::None => None,
            Option::Some((v, j)) => {
                proof {
                    lemma_varint_value_bound(buf@.skip(i + 1 as int), (rem - 1) as nat);
                    assert(v < pow128((rem - 1) as nat));
                    lemma_pow128_values();
                    if rem == 1 {
                        assert(pow128((rem - 1) as nat) == 1);
                    } else if rem == 2 {
                        assert(pow128((rem - 1) as nat) == 128);
                    } else if rem == 3 {
                        assert(pow128((rem - 1) as nat) == 16384);
                    } else if rem == 4 {
                        assert(pow128((rem - 1) as nat) == 2097152);
                    } else {
                        assert(pow128((rem - 1) as nat) == 268435456);
                    }
                    assert(v <= 268435456);
                }
                Some(((b - 128) as u64 + v * 128, j))
            },
        }
    }
}

fn parse_varint(buf: &Vec<u8>, i: usize) -> (r: Option<(u64, usize)>)
    requires
        i <= buf@.len(),
    ensures
        match r {
            Option::Some(vj) => i < vj.1 <= buf@.len()
                && spec_parse_varint(buf@.skip(i as int))
                    == Option::Some((vj.0 as nat, buf@.skip(vj.1 as int))),
            Option::None => spec_parse_varint(buf@.skip(i as int)) is None,
        },
{
    parse_varint_rec(buf, i, 5)
}

/// Decodes a message; returns `Ok` exactly on the byte strings the
/// message grammar accepts.
pub fn decode_message(buf: &Vec<u8>) -> (r: Result<Message, DecodeError>)
    ensures
        match r {
            Ok(msg) => spec_parse_message(buf@) == Option::Some(msg@),
            Err(_) => spec_parse_message(buf@) is None,
        },
{
    if buf.len() == 0 {
        return Ok(Message { payload: None });
    }
    let key = buf[0];
    let (n, j) = match parse_varint(buf, 1) {
        Option::None => {
            proof {
                assert(buf@.skip(1) =~= buf@.drop_first());
            }
            return Err(DecodeError {});
        },
        Option::Some(vj) => vj,
    };
    proof {
        assert(buf@.skip(1) =~= buf@.drop_first());
    }
    let ghost rest = buf@.skip(j as int);
    if (buf.len() - j) as u64 != n {
        return Err(DecodeError {});
    }
    // The payload body spans the rest of the buffer; parse its value.
    let value: Vec<u8>;
    if j == buf.len() {
        value = Vec::new();
        proof {
            assert(rest.len() == 0);
            assert(spec_parse_inner(rest) == Option::Some(Seq::<u8>::empty()));
            assert(value@ =~= Seq::<u8>::empty());
        }
    } else {
        if buf[j] != 10 {
            proof {
                assert(rest[0] == buf@[j as int]);
            }
            return Err(DecodeError {});
        }
        proof {
            assert(rest[0] == buf@[j as int]);
            assert(rest.drop_first() =~= buf@.skip(j + 1 as int));
        }
        let (m, k) = match parse_varint(buf, j + 1) {
            Option::None => {
                return Err(DecodeError {});
            },
            Option::Some(vj) => vj,
        };
        if (buf.len() - k) as u64 != m {
            return Err(DecodeError {});
        }
        value = suffix_to_vec(buf, k);
    }
    let msg = match key {
        10 => Message { payload: Some(Payload::Challenge(Challenge { commitment: value })) },
        18 => Message { payload: Some(Payload::ChallengeAccept(ChallengeAccept { random: value })) },
        26 => Message { payload: Some(Payload::ChallengeReveal(ChallengeReveal { preimage: value })) },
        34 => {
            if value.len() != 0 {
                return Err(DecodeError {});
            }
            Message { payload: Some(Payload::ChallengeCancel(ChallengeCancel {})) }
        },
        42 => {
            if value.len() != 0 {
                return Err(DecodeError {});
            }
            Message { payload: Some(Payload::ChallengeDecline(ChallengeDecline {})) }
        },
        _ => {
            return Err(DecodeError {});
        },
    };
    Ok(msg)
}

/// Decodes a frame; returns `Ok` exactly on the byte strings the frame
/// grammar accepts.
pub fn decode_frame(buf: &Vec<u8>) -> (r: Result<Message, DecodeError>)
    ensures
        match r {
            Ok(msg) => spec_parse_frame(buf@) == Option::Some(msg@),
            Err(_) => spec_parse_frame(buf@) is None,
        },
{
    if buf.len() < 2 {
        return Err(DecodeError {});
    }
    let n = frame_len(buf[0], buf[1]);
    if buf.len() - 2 != n as usize {
        return Err(DecodeError {});
    }
    let body = suffix_to_vec(buf, 2);
    decode_message(&body)
}

// ---------------------------------------------------------------------
// Round-trip laws
// ---------------------------------------------------------------------

proof fn lemma_varint_round_trip(n: nat, rest: Seq<u8>, rem: nat)
    requires
        1 <= rem,
        n < pow128(rem),
    ensures
        spec_parse_varint_rec(spec_varint(n) + rest, rem) == Option::Some((n, rest)),
    decreases rem,
{
    if n < 128 {
        let bytes = spec_varint(n) + rest;
        assert(bytes[0] == n as u8);
        assert(bytes.drop_first() =~= rest);
    } else {
        let b = (n % 128 + 128) as u8;
        let bytes = spec_varint(n) + rest;
        assert(bytes[0] == b);
        assert(b >= 128);
        assert(rem >= 2) by {
            if rem == 1 {
                assert(pow128(1) == 128);
            }
        }
        assert(n / 128 < pow128((rem - 1) as nat)) by (nonlinear_arith)
            requires
                n < pow128(rem),
                pow128(rem) == 128 * pow128((rem - 1) as nat),
        ;
        lemma_varint_round_trip(n / 128, rest, (rem - 1) as nat);
        assert(bytes.drop_first() =~= spec_varint(n / 128) + rest);
        assert((b - 128) as nat + (n / 128) * 128 == n) by (nonlinear_arith)
            requires
                b == (n % 128 + 128) as u8,
                n >= 128,
        ;
    }
}

/// Round trip of the message codec: every message with a payload decodes
/// from its own encoding. The bound keeps the encoded lengths within what
/// a five-byte varint can carry.
pub proof fn lemma_message_round_trip(m: MessageView)
    requires
        m.payload is Some,
        spec_encode_message(m).len() <= 0xFFFFFFFF,
    ensures
        spec_parse_message(spec_encode_message(m)) == Option::Some(m),
{
    let p = m.payload->Some_0;
    let body = payload_body(p);
    let key = payload_key(p);
    let enc = spec_encode_message(m);
    assert(enc == seq![key] + spec_varint(body.len() as nat) + body);
    assert(enc.len() > 0);
    assert(enc[0] == key);
    assert(enc.drop_first() =~= spec_varint(body.len() as nat) + body);
    assert(body.len() < pow128(5)) by {
        lemma_pow128_values();
        assert(body.len() <= enc.len());
    }
    lemma_varint_round_trip(body.len() as nat, body, 5);
    assert(spec_parse_varint(enc.drop_first()) == Option::Some((body.len() as nat, body)));
    // The inner parse of the body yields the byte-string value.
    match p {
        PayloadView::ChallengeCancel => {
            assert(spec_parse_inner(body) == Option::Some(Seq::<u8>::empty()));
            assert(payload_from_key(key, Seq::<u8>::empty()) == Option::Some(p));
        },
        PayloadView::ChallengeDecline => {
            assert(spec_parse_inner(body) == Option::Some(Seq::<u8>::empty()));
            assert(payload_from_key(key, Seq::<u8>::empty()) == Option::Some(p));
        },
        PayloadView::Challenge { commitment: value } => {
            lemma_inner_round_trip(value);
            assert(payload_from_key(key, value) == Option::Some(p));
        },
        PayloadView::ChallengeAccept { random: value } => {
            lemma_inner_round_trip(value);
            assert(payload_from_key(key, value) == Option::Some(p));
        },
        PayloadView::ChallengeReveal { preimage: value } => {
            lemma_inner_round_trip(value);
            assert(payload_from_key(key, value) == Option::Some(p));
        },
    }
}

proof fn lemma_inner_round_trip(value: Seq<u8>)
    requires
        value.len() <= 0xFFFFFFFF,
    ensures
        spec_parse_inner(spec_bytes_field(value)) == Option::Some(value),
{
    if value.len() == 0 {
        assert(spec_bytes_field(value).len() == 0);
        assert(value =~= Seq::<u8>::empty());
    } else {
        let body = spec_bytes_field(value);
        assert(body == seq![10u8] + spec_varint(value.len() as nat) + value);
        assert(body[0] == 10);
        assert(body.drop_first() =~= spec_varint(value.len() as nat) + value);
        assert(value.len() < pow128(5)) by {
            lemma_pow128_values();
        }
        lemma_varint_round_trip(value.len() as nat, value, 5);
    }
}

/// Round trip of the framing: every frame-sized message decodes from its
/// own frame.
pub proof fn lemma_frame_round_trip(m: MessageView)
    requires
        m.payload is Some,
        spec_encode_message(m).len() <= 0xFFFF,
    ensures
        spec_parse_frame(
            spec_frame_prefix(spec_encode_message(m).len() as nat) + spec_encode_message(m),
        ) == Option::Some(m),
{
    let enc = spec_encode_message(m);
    let n = enc.len() as nat;
    let frame = spec_frame_prefix(n) + enc;
    assert(frame.len() == 2 + enc.len());
    assert(frame[0] == (n / 256) as u8);
    assert(frame[1] == (n % 256) as u8);
    assert(n / 256 <= 255);
    assert((n / 256) as u8 * 256 + (n % 256) as u8 == n) by (nonlinear_arith)
        requires
            n <= 0xFFFF,
    ;
    assert(frame.skip(2) =~= enc);
    lemma_message_round_trip(m);
}

} // verus!
