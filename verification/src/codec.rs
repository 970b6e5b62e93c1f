//! The length-prefixed binary wire codec: `u32_le` length, one type byte,
//! then either a JSON control payload or the compact binary encoding of an
//! encrypted clipboard envelope.  `encode_frame` and `decode_frame` are the
//! codec's whole surface; round-trip and truncation lemmas close the loop.

use vstd::bytes::{
    spec_u16_from_le_bytes, spec_u16_to_le_bytes, spec_u32_from_le_bytes, spec_u32_to_le_bytes,
    spec_u64_from_le_bytes, spec_u64_to_le_bytes, u16_from_le_bytes, u16_to_le_bytes,
    u32_from_le_bytes, u32_to_le_bytes, u64_from_le_bytes, u64_to_le_bytes,
    lemma_auto_spec_u16_to_from_le_bytes, lemma_auto_spec_u32_to_from_le_bytes,
    lemma_auto_spec_u64_to_from_le_bytes,
};
use vstd::prelude::*;
use vstd::slice::slice_to_vec;
use vstd::utf8::{decode_utf8, encode_utf8, valid_utf8};

use crate::jmsg::{control_json, control_json_vec, lemma_p_control, p_control, parse_control};
use crate::strings::bytes_to_string;
use crate::types::{ControlView, CoreError, EncryptedPayload, PayloadView, WireMessage, WireView};

verus! {

/// Whether an encrypted envelope's fields fit the wire format's integer
/// widths: a `u16` device-id length and a `u32` ciphertext length.
pub open spec fn payload_fits(p: PayloadView) -> bool {
    encode_utf8(p.sender_device_id).len() <= 0xFFFF && p.ciphertext.len() <= 0xFFFF_FFFF
}

/// The compact binary encoding of an encrypted envelope.
pub open spec fn payload_bytes(p: PayloadView) -> Seq<u8> {
    spec_u16_to_le_bytes(encode_utf8(p.sender_device_id).len() as u16) + encode_utf8(
        p.sender_device_id,
    ) + spec_u64_to_le_bytes(p.counter) + spec_u32_to_le_bytes(p.ciphertext.len() as u32)
        + p.ciphertext
}

/// How parsing an encrypted-envelope payload can end.
pub enum PayloadParse {
    /// Shorter than its fixed fields and device id require.
    TooShort,
    /// The device-id bytes are not valid UTF-8.
    BadUtf8,
    /// The ciphertext length field does not match the remaining bytes.
    BadLength,
    /// A well-formed envelope.
    Parsed(PayloadView),
}

/// Spec parser for the compact binary encoding.  Field by field, with the
/// exact-consumption check the wire format requires.
pub open spec fn p_payload(s: Seq<u8>) -> PayloadParse {
    if s.len() < 14 {
        PayloadParse::TooShort
    } else {
        let idl = spec_u16_from_le_bytes(s.subrange(0, 2)) as int;
        if s.len() - 2 < idl + 12 {
            PayloadParse::TooShort
        } else {
            let idb = s.subrange(2, 2 + idl);
            if !valid_utf8(idb) {
                PayloadParse::BadUtf8
            } else {
                let counter = spec_u64_from_le_bytes(s.subrange(2 + idl, 10 + idl));
                let ctl = spec_u32_from_le_bytes(s.subrange(10 + idl, 14 + idl)) as int;
                if s.len() != 14 + idl + ctl {
                    PayloadParse::BadLength
                } else {
                    PayloadParse::Parsed(
                        PayloadView {
                            sender_device_id: decode_utf8(idb),
                            counter: counter,
                            ciphertext: s.subrange(14 + idl, s.len() as int),
                        },
                    )
                }
            }
        }
    }
}

/// Parsing undoes the compact binary encoding.
pub proof fn lemma_p_payload(p: PayloadView)
    requires
        payload_fits(p),
    ensures
        p_payload(payload_bytes(p)) == PayloadParse::Parsed(p),
{
    lemma_auto_spec_u16_to_from_le_bytes();
    lemma_auto_spec_u32_to_from_le_bytes();
    lemma_auto_spec_u64_to_from_le_bytes();
    let idb = encode_utf8(p.sender_device_id);
    let idl = idb.len() as int;
    let s = payload_bytes(p);
    assert(s.len() == 14 + idl + p.ciphertext.len());
    assert(s.subrange(0, 2) =~= spec_u16_to_le_bytes(idb.len() as u16));
    assert(spec_u16_from_le_bytes(s.subrange(0, 2)) == idl);
    assert(s.subrange(2, 2 + idl) =~= idb);
    vstd::utf8::encode_utf8_valid_utf8(p.sender_device_id);
    vstd::utf8::encode_utf8_decode_utf8(p.sender_device_id);
    assert(s.subrange(2 + idl, 10 + idl) =~= spec_u64_to_le_bytes(p.counter));
    assert(s.subrange(10 + idl, 14 + idl) =~= spec_u32_to_le_bytes(p.ciphertext.len() as u32));
    assert(spec_u32_from_le_bytes(s.subrange(10 + idl, 14 + idl)) == p.ciphertext.len());
    assert(s.subrange(14 + idl, s.len() as int) =~= p.ciphertext);
    assert(p == (PayloadView {
        sender_device_id: p.sender_device_id,
        counter: p.counter,
        ciphertext: p.ciphertext,
    }));
}

/// Encode an encrypted envelope in the compact binary form.
pub fn encode_encrypted_payload(p: &EncryptedPayload) -> (r: Result<Vec<u8>, CoreError>)
    ensures
        r is Ok <==> payload_fits(p@),
        r is Ok ==> r.unwrap()@ == payload_bytes(p@),
        r is Err ==> r == Err::<Vec<u8>, CoreError>(CoreError::InvalidFrameLength),
{
    let id_bytes = p.sender_device_id.as_str().as_bytes();
    if id_bytes.len() > 0xFFFF {
        return Err(CoreError::InvalidFrameLength);
    }
    if p.ciphertext.len() > 0xFFFF_FFFF {
        return Err(CoreError::InvalidFrameLength);
    }
    let mut out = u16_to_le_bytes(id_bytes.len() as u16);
    out.extend_from_slice(id_bytes);
    let mut counter_bytes = u64_to_le_bytes(p.counter);
    out.append(&mut counter_bytes);
    let mut len_bytes = u32_to_le_bytes(p.ciphertext.len() as u32);
    out.append(&mut len_bytes);
    out.extend_from_slice(p.ciphertext.as_slice());
    proof {
        assert(out@ =~= payload_bytes(p@));
    }
    Ok(out)
}

/// Decode the compact binary form of an encrypted envelope.
pub fn decode_encrypted_payload(bytes: &[u8]) -> (r: Result<EncryptedPayload, CoreError>)
    ensures
        match p_payload(bytes@) {
            PayloadParse::TooShort => r == Err::<EncryptedPayload, CoreError>(
                CoreError::InvalidFrameLength,
            ),
            PayloadParse::BadLength => r == Err::<EncryptedPayload, CoreError>(
                CoreError::InvalidFrameLength,
            ),
            PayloadParse::BadUtf8 => r matches Err(CoreError::Serialization(_)),
            PayloadParse::Parsed(pv) => r is Ok && r.unwrap()@ == pv,
        },
{
    let n = bytes.len();
    if n < 14 {
        return Err(CoreError::InvalidFrameLength);
    }
    let idl_field = u16_from_le_bytes(&bytes[0..2]);
    proof {
        assert(bytes@.subrange(0, 2) =~= bytes@.subrange(0int, 2int));
    }
    let idl = idl_field as usize;
    if n - 2 < idl + 12 {
        return Err(CoreError::InvalidFrameLength);
    }
    let idb = &bytes[2..2 + idl];
    let sender = match bytes_to_string(idb) {
        Some(s) => s,
        None => {
            return Err(CoreError::Serialization("device id is not valid utf-8".to_owned()));
        },
    };
    let counter = u64_from_le_bytes(&bytes[2 + idl..10 + idl]);
    let ctl = u32_from_le_bytes(&bytes[10 + idl..14 + idl]) as usize;
    if n - (14 + idl) != ctl {
        return Err(CoreError::InvalidFrameLength);
    }
    let ciphertext = slice_to_vec(&bytes[14 + idl..n]);
    let out = EncryptedPayload { sender_device_id: sender, counter, ciphertext };
    proof {
        vstd::utf8::decode_utf8_encode_utf8(bytes@.subrange(2, 2 + idl as int));
        assert(out@ == (match p_payload(bytes@) {
            PayloadParse::Parsed(pv) => pv,
            _ => out@,
        }));
    }
    Ok(out)
}

/// One whole frame: little-endian length (type byte plus payload), the
/// type byte, then the payload.
pub open spec fn frame_bytes(t: u8, payload: Seq<u8>) -> Seq<u8> {
    spec_u32_to_le_bytes((payload.len() + 1) as u32) + seq![t] + payload
}

/// The full wire encoding of a message.
pub open spec fn wire_bytes(w: WireView) -> Seq<u8> {
    match w {
        WireView::Control(c) => frame_bytes(0, control_json(c)),
        WireView::Encrypted(p) => frame_bytes(1, payload_bytes(p)),
    }
}

/// Whether a message's encoding fits the frame format's integer widths.
pub open spec fn wire_fits(w: WireView) -> bool {
    match w {
        WireView::Control(c) => control_json(c).len() + 1 <= 0xFFFF_FFFF,
        WireView::Encrypted(p) => payload_fits(p) && payload_bytes(p).len() + 1 <= 0xFFFF_FFFF,
    }
}

/// How decoding a frame can end.
pub enum WireParse {
    /// Too short, or the length prefix disagrees with the frame size.
    BadFrame,
    /// An unknown type byte.
    Unknown(u8),
    /// The control payload is not this protocol's JSON.
    BadJson,
    /// The encrypted payload's lengths do not add up.
    BadPayloadLength,
    /// The encrypted payload's device id is not UTF-8.
    BadPayloadUtf8,
    /// A well-formed message.
    Msg(WireView),
}

/// Spec parser for one whole frame.
pub open spec fn p_wire(s: Seq<u8>) -> WireParse {
    if s.len() < 5 {
        WireParse::BadFrame
    } else {
        let l = spec_u32_from_le_bytes(s.subrange(0, 4)) as int;
        if l + 4 != s.len() {
            WireParse::BadFrame
        } else if s[4] == 0 {
            match p_control(s.skip(5)) {
                Some((c, k)) => if k == s.len() - 5 {
                    WireParse::Msg(WireView::Control(c))
                } else {
                    WireParse::BadJson
                },
                None => WireParse::BadJson,
            }
        } else if s[4] == 1 {
            match p_payload(s.skip(5)) {
                PayloadParse::TooShort => WireParse::BadPayloadLength,
                PayloadParse::BadLength => WireParse::BadPayloadLength,
                PayloadParse::BadUtf8 => WireParse::BadPayloadUtf8,
                PayloadParse::Parsed(p) => WireParse::Msg(WireView::Encrypted(p)),
            }
        } else {
            WireParse::Unknown(s[4])
        }
    }
}

/// Encode a message as one wire frame.  Succeeds exactly when the
/// message's lengths fit the format.
pub fn encode_frame(message: &WireMessage) -> (r: Result<Vec<u8>, CoreError>)
    ensures
        r is Ok <==> wire_fits(message@),
        r is Ok ==> r.unwrap()@ == wire_bytes(message@),
        r is Err ==> r == Err::<Vec<u8>, CoreError>(CoreError::InvalidFrameLength),
{
    let (type_byte, payload): (u8, Vec<u8>) = match message {
        WireMessage::Control(control) => (0, control_json_vec(control)),
        WireMessage::Encrypted(encrypted) => {
            match encode_encrypted_payload(encrypted) {
                Ok(v) => (1, v),
                Err(e) => {
                    return Err(CoreError::InvalidFrameLength);
                },
            }
        },
    };
    if payload.len() >= 0xFFFF_FFFF {
        return Err(CoreError::InvalidFrameLength);
    }
    let frame_len: u32 = (payload.len() as u32) + 1;
    let mut out = u32_to_le_bytes(frame_len);
    out.push(type_byte);
    out.extend_from_slice(payload.as_slice());
    proof {
        assert(out@ =~= wire_bytes(message@));
    }
    Ok(out)
}

/// Decode one wire frame.
pub fn decode_frame(frame: &[u8]) -> (r: Result<WireMessage, CoreError>)
    ensures
        match p_wire(frame@) {
            WireParse::BadFrame => r == Err::<WireMessage, CoreError>(CoreError::InvalidFrameLength),
            WireParse::Unknown(b) => r == Err::<WireMessage, CoreError>(
                CoreError::UnsupportedMessageType(b),
            ),
            WireParse::BadJson => r matches Err(CoreError::Serialization(_)),
            WireParse::BadPayloadLength => r == Err::<WireMessage, CoreError>(
                CoreError::InvalidFrameLength,
            ),
            WireParse::BadPayloadUtf8 => r matches Err(CoreError::Serialization(_)),
            WireParse::Msg(w) => r is Ok && r.unwrap()@ == w,
        },
{
    let n = frame.len();
    if n < 5 {
        return Err(CoreError::InvalidFrameLength);
    }
    let expected_len = u32_from_le_bytes(&frame[0..4]) as usize;
    proof {
        assert(frame@.subrange(0, 4) =~= frame@.subrange(0int, 4int));
    }
    if expected_len != n - 4 {
        return Err(CoreError::InvalidFrameLength);
    }
    let type_byte = frame[4];
    if type_byte == 0 {
        proof {
            assert(frame@.skip(5) =~= frame@.subrange(5, n as int));
        }
        let payload = &frame[5..n];
        proof {
            assert(payload@ == frame@.skip(5));
        }
        match parse_control(payload, 0) {
            Some((control, consumed)) => {
                proof {
                    assert(payload@.skip(0) =~= payload@);
                }
                if consumed == payload.len() {
                    Ok(WireMessage::Control(control))
                } else {
                    Err(CoreError::Serialization("trailing bytes after control payload".to_owned()))
                }
            },
            None => Err(CoreError::Serialization("malformed control payload".to_owned())),
        }
    } else if type_byte == 1 {
        proof {
            assert(frame@.skip(5) =~= frame@.subrange(5, n as int));
        }
        let payload = &frame[5..n];
        match decode_encrypted_payload(payload) {
            Ok(encrypted) => Ok(WireMessage::Encrypted(encrypted)),
            Err(e) => Err(e),
        }
    } else {
        Err(CoreError::UnsupportedMessageType(type_byte))
    }
}

/// Codec round trip: decoding an encoded message yields the message back.
pub proof fn lemma_codec_roundtrip(w: WireView)
    requires
        wire_fits(w),
    ensures
        p_wire(wire_bytes(w)) == WireParse::Msg(w),
{
    lemma_auto_spec_u32_to_from_le_bytes();
    let s = wire_bytes(w);
    match w {
        WireView::Control(c) => {
            let payload = control_json(c);
            assert(s.subrange(0, 4) =~= spec_u32_to_le_bytes((payload.len() + 1) as u32));
            assert(s[4] == 0);
            assert(s.skip(5) =~= payload);
            lemma_p_control(c, Seq::empty());
            assert(payload + Seq::<u8>::empty() =~= payload);
        },
        WireView::Encrypted(p) => {
            let payload = payload_bytes(p);
            assert(s.subrange(0, 4) =~= spec_u32_to_le_bytes((payload.len() + 1) as u32));
            assert(s[4] == 1);
            assert(s.skip(5) =~= payload);
            lemma_p_payload(p);
        },
    }
}

/// Any proper prefix of an encoded frame is rejected: the length prefix
/// no longer matches, so one-byte truncation cannot go unnoticed.
pub proof fn lemma_truncated_frame_rejected(w: WireView, k: int)
    requires
        wire_fits(w),
        0 <= k < wire_bytes(w).len(),
    ensures
        p_wire(wire_bytes(w).take(k)) == WireParse::BadFrame,
{
    lemma_auto_spec_u32_to_from_le_bytes();
    let s = wire_bytes(w);
    let t = s.take(k);
    if k >= 5 {
        assert(t.subrange(0, 4) =~= s.subrange(0, 4));
        match w {
            WireView::Control(c) => {
                assert(s.subrange(0, 4) =~= spec_u32_to_le_bytes(
                    (control_json(c).len() + 1) as u32,
                ));
                assert(spec_u32_from_le_bytes(s.subrange(0, 4)) + 4 == s.len());
            },
            WireView::Encrypted(p) => {
                assert(s.subrange(0, 4) =~= spec_u32_to_le_bytes(
                    (payload_bytes(p).len() + 1) as u32,
                ));
                assert(spec_u32_from_le_bytes(s.subrange(0, 4)) + 4 == s.len());
            },
        }
    }
}

} // verus!
