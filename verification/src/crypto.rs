//! Room-key derivation and authenticated encryption of clipboard events:
//! HKDF-SHA-256 over the room code and the sorted device set, and
//! XChaCha20-Poly1305 with a deterministic nonce built from the sender id
//! and its counter.  The hash and cipher calls are trusted wrappers; all
//! policy around them is verified.

use chacha20poly1305::aead::Aead;
use chacha20poly1305::KeyInit;
use sha2::Digest;
use vstd::bytes::{spec_u64_to_le_bytes, u64_to_le_bytes, lemma_auto_spec_u64_to_from_le_bytes};
use vstd::prelude::*;
use vstd::utf8::encode_utf8;

use crate::jmsg::{event_json, event_json_vec, lemma_p_event, p_event, parse_event};
use crate::strings::{
    ascii_bytes_of, ascii_chars_of, ascii_lit, byte_len, hex_encode, hex_of, id_le, sort_strings,
    spec_trim, str_eq, trim_str,
};
use crate::types::{ClipboardEventPlaintext, CoreError, EncryptedPayload, EventView};
use crate::{MAX_CLIPBOARD_TEXT_BYTES, MAX_MIME_LEN};

verus! {

/// The SHA-256 digest of a byte sequence, named but not modeled.
pub uninterp spec fn sha256_of(data: Seq<u8>) -> Seq<u8>;

/// Relies on `sha2::Sha256::digest`: a 32-byte digest that depends on the
/// input bytes alone.
#[verifier::external_body]
pub fn sha256(data: &[u8]) -> (r: Vec<u8>)
    ensures
        r@ == sha256_of(data@),
        r@.len() == 32,
{
    sha2::Sha256::digest(data).to_vec()
}

/// The 32 bytes of HKDF-SHA-256 output keying material, named but not
/// modeled.
pub uninterp spec fn hkdf_sha256_okm32(salt: Seq<u8>, ikm: Seq<u8>, info: Seq<u8>) -> Seq<u8>;

/// Relies on `hkdf::Hkdf::<Sha256>::new` and `expand`: the output keying
/// material depends on salt, input keying material and info alone, and
/// `expand` fails only for outputs longer than 255 hash blocks, which 32
/// bytes is not.
#[verifier::external_body]
pub fn hkdf_expand32(salt: &[u8], ikm: &[u8], info: &[u8]) -> (r: [u8; 32])
    ensures
        r@ == hkdf_sha256_okm32(salt@, ikm@, info@),
{
    let hk = hkdf::Hkdf::<sha2::Sha256>::new(Some(salt), ikm);
    let mut okm = [0u8; 32];
    hk.expand(info, &mut okm).expect("HKDF expand to 32 bytes cannot fail");
    okm
}

/// What XChaCha20-Poly1305 seals a message to, named but not modeled.
pub uninterp spec fn xchacha_seal(key: Seq<u8>, nonce: Seq<u8>, aad: Seq<u8>, msg: Seq<u8>) -> Seq<
    u8,
>;

/// Relies on `chacha20poly1305::XChaCha20Poly1305` encryption: the
/// ciphertext depends on key, nonce, associated data and message alone, is
/// the message's length plus a 16-byte tag, and the cipher refuses only
/// messages of 2^32 or more 64-byte blocks.
#[verifier::external_body]
pub fn aead_seal(key: &[u8; 32], nonce: &[u8], aad: &[u8], msg: &[u8]) -> (r: Option<Vec<u8>>)
    requires
        nonce@.len() == 24,
    ensures
        r is Some <==> msg@.len() < 64 * 0xFFFF_FFFF,
        r is Some ==> r.unwrap()@ == xchacha_seal(key@, nonce@, aad@, msg@),
        r is Some ==> r.unwrap()@.len() == msg@.len() + 16,
{
    let cipher = chacha20poly1305::XChaCha20Poly1305::new(&chacha20poly1305::Key::from(*key));
    let nonce_arr: [u8; 24] = match nonce.try_into() {
        Ok(a) => a,
        Err(_) => return None,
    };
    cipher
        .encrypt(
            &chacha20poly1305::XNonce::from(nonce_arr),
            chacha20poly1305::aead::Payload { msg, aad },
        )
        .ok()
}

/// Relies on `chacha20poly1305::XChaCha20Poly1305` decryption: it opens a
/// ciphertext exactly when the tag authenticates, recovering the one
/// message that seals to it under the same key, nonce and associated data.
#[verifier::external_body]
pub fn aead_open(key: &[u8; 32], nonce: &[u8], aad: &[u8], ct: &[u8]) -> (r: Option<Vec<u8>>)
    requires
        nonce@.len() == 24,
    ensures
        r is Some ==> ct@ == xchacha_seal(key@, nonce@, aad@, r.unwrap()@),
        r is Some ==> forall|m: Seq<u8>|
            ct@ == xchacha_seal(key@, nonce@, aad@, m) ==> m == r.unwrap()@,
        (exists|m: Seq<u8>|
            ct@ == xchacha_seal(key@, nonce@, aad@, m) && m.len() + 16 == ct@.len() && m.len() < 64
                * 0xFFFF_FFFF) ==> r is Some,
{
    let cipher = chacha20poly1305::XChaCha20Poly1305::new(&chacha20poly1305::Key::from(*key));
    let nonce_arr: [u8; 24] = match nonce.try_into() {
        Ok(a) => a,
        Err(_) => return None,
    };
    cipher
        .decrypt(
            &chacha20poly1305::XNonce::from(nonce_arr),
            chacha20poly1305::aead::Payload { msg: ct, aad },
        )
        .ok()
}

/// The associated data bound into every sealed clipboard event.
pub open spec fn aad_bytes() -> Seq<u8> {
    ascii_bytes_of("cliprelay:v1"@)
}

/// The HKDF info string for room keys.
pub open spec fn room_key_info() -> Seq<u8> {
    ascii_bytes_of("cliprelay v1 room key"@)
}

/// The UTF-8 bytes of a device-id list, concatenated in order.
pub open spec fn ids_concat(ids: Seq<Seq<char>>) -> Seq<u8>
    decreases ids.len(),
{
    if ids.len() == 0 {
        Seq::empty()
    } else {
        encode_utf8(ids[0]) + ids_concat(ids.drop_first())
    }
}

/// The device-id list in its one sorted arrangement.
pub open spec fn sorted_ids(ids: Seq<Seq<char>>) -> Seq<Seq<char>> {
    ids.sort_by(|a: Seq<char>, b: Seq<char>| id_le(a, b))
}

/// The HKDF salt: SHA-256 over the sorted, concatenated device ids.
pub open spec fn room_salt(ids: Seq<Seq<char>>) -> Seq<u8> {
    sha256_of(ids_concat(sorted_ids(ids)))
}

/// The room key as a function of the room code and the device set.
pub open spec fn room_key_of(code: Seq<char>, ids: Seq<Seq<char>>) -> Seq<u8> {
    hkdf_sha256_okm32(room_salt(ids), sha256_of(encode_utf8(code)), room_key_info())
}

/// Key-derivation order independence: any two arrangements of the same
/// device set give the same room key for the same room code.
pub proof fn lemma_room_key_order_independent(
    code: Seq<char>,
    ids1: Seq<Seq<char>>,
    ids2: Seq<Seq<char>>,
)
    requires
        ids1.to_multiset() == ids2.to_multiset(),
    ensures
        room_key_of(code, ids1) == room_key_of(code, ids2),
{
    let leq = |a: Seq<char>, b: Seq<char>| id_le(a, b);
    crate::strings::lemma_id_le_total_ordering();
    ids1.lemma_sort_by_ensures(leq);
    ids2.lemma_sort_by_ensures(leq);
    vstd::seq_lib::lemma_sorted_unique(ids1.sort_by(leq), ids2.sort_by(leq), leq);
    assert(sorted_ids(ids1) == sorted_ids(ids2));
}

/// Derive the 32-byte room key from the room code and the current device
/// set.  Fails exactly when the room code is empty after trimming; the
/// device-id order does not matter.
pub fn derive_room_key(room_code: &str, device_ids: &[String]) -> (r: Result<[u8; 32], CoreError>)
    ensures
        spec_trim(room_code@).len() == 0 <==> r == Err::<[u8; 32], CoreError>(
            CoreError::EmptyRoomCode,
        ),
        spec_trim(room_code@).len() != 0 ==> r is Ok && r.unwrap()@ == room_key_of(
            room_code@,
            Seq::new(device_ids@.len(), |i: int| device_ids@[i]@),
        ),
{
    proof {
        reveal_strlit("cliprelay v1 room key");
    }
    let trimmed = trim_str(room_code);
    if trimmed.as_str().unicode_len() == 0 {
        return Err(CoreError::EmptyRoomCode);
    }
    let ghost ids_view = Seq::new(device_ids@.len(), |i: int| device_ids@[i]@);
    let code_hash = sha256(room_code.as_bytes());
    let sorted = sort_strings(device_ids);
    let mut concat: Vec<u8> = Vec::new();
    let n = sorted.len();
    let mut i: usize = 0;
    while i < n
        invariant
            0 <= i <= n,
            n == sorted@.len(),
            Seq::new(sorted@.len(), |k: int| sorted@[k]@) == sorted_ids(ids_view),
            concat@ == ids_concat(Seq::new(sorted@.len(), |k: int| sorted@[k]@).take(i as int)),
        decreases n - i,
    {
        concat.extend_from_slice(sorted[i].as_str().as_bytes());
        proof {
            let sv = Seq::new(sorted@.len(), |k: int| sorted@[k]@);
            lemma_ids_concat_snoc(sv.take(i as int), sv[i as int]);
            assert(sv.take(i as int).push(sv[i as int]) =~= sv.take(i as int + 1));
        }
        i = i + 1;
    }
    proof {
        let sv = Seq::new(sorted@.len(), |k: int| sorted@[k]@);
        assert(sv.take(n as int) =~= sv);
    }
    let salt = sha256(concat.as_slice());
    let info = ascii_lit("cliprelay v1 room key");
    let key = hkdf_expand32(salt.as_slice(), code_hash.as_slice(), info.as_slice());
    Ok(key)
}

proof fn lemma_ids_concat_snoc(ids: Seq<Seq<char>>, x: Seq<char>)
    ensures
        ids_concat(ids.push(x)) == ids_concat(ids) + encode_utf8(x),
    decreases ids.len(),
{
    if ids.len() == 0 {
        assert(ids.push(x).drop_first() =~= Seq::<Seq<char>>::empty());
        assert(ids.push(x)[0] == x);
        assert(ids_concat(ids.push(x)) == encode_utf8(x) + ids_concat(ids.push(x).drop_first()));
        assert(ids_concat(Seq::<Seq<char>>::empty()) == Seq::<u8>::empty());
        assert(ids_concat(ids.push(x).drop_first()) == Seq::<u8>::empty());
        assert(ids_concat(ids) == Seq::<u8>::empty());
        assert(ids_concat(ids.push(x)) =~= ids_concat(ids) + encode_utf8(x));
    } else {
        assert(ids.push(x).drop_first() =~= ids.drop_first().push(x));
        assert(ids.push(x)[0] == ids[0]);
        lemma_ids_concat_snoc(ids.drop_first(), x);
        assert(ids_concat(ids.push(x)) == encode_utf8(ids[0]) + (ids_concat(ids.drop_first())
            + encode_utf8(x)));
        assert(ids_concat(ids) == encode_utf8(ids[0]) + ids_concat(ids.drop_first()));
        assert(ids_concat(ids.push(x)) =~= ids_concat(ids) + encode_utf8(x));
    }
}

/// The deterministic AEAD nonce: the first 16 bytes of the sender's hashed
/// id, then the counter in little-endian.
pub open spec fn nonce_of(sender: Seq<char>, counter: u64) -> Seq<u8> {
    sha256_of(encode_utf8(sender)).take(16) + spec_u64_to_le_bytes(counter)
}

/// Build the 24-byte nonce for one (sender, counter) pair.
pub fn build_nonce(sender_device_id: &str, counter: u64) -> (r: Vec<u8>)
    ensures
        r@ == nonce_of(sender_device_id@, counter),
        r@.len() == 24,
{
    proof {
        lemma_auto_spec_u64_to_from_le_bytes();
    }
    let digest = sha256(sender_device_id.as_bytes());
    let mut out: Vec<u8> = Vec::new();
    let mut i: usize = 0;
    while i < 16
        invariant
            0 <= i <= 16,
            digest@.len() == 32,
            out@ == digest@.take(i as int),
        decreases 16 - i,
    {
        out.push(digest[i]);
        proof {
            assert(digest@.take(i as int).push(digest@[i as int]) =~= digest@.take(i as int + 1));
        }
        i = i + 1;
    }
    let mut ctr = u64_to_le_bytes(counter);
    out.append(&mut ctr);
    proof {
        assert(out@ =~= nonce_of(sender_device_id@, counter));
    }
    out
}

/// Nonce uniqueness: one sender never reuses a nonce across distinct
/// counters, and two senders whose hashed-id prefixes differ can never
/// collide.  (Distinctness across senders in general rests on SHA-256
/// collision resistance, which is not modeled here.)
pub proof fn lemma_nonce_uniqueness(s1: Seq<char>, c1: u64, s2: Seq<char>, c2: u64)
    requires
        (s1 == s2 && c1 != c2) || sha256_of(encode_utf8(s1)).take(16) != sha256_of(
            encode_utf8(s2),
        ).take(16),
    ensures
        nonce_of(s1, c1) != nonce_of(s2, c2),
{
    lemma_auto_spec_u64_to_from_le_bytes();
    if nonce_of(s1, c1) == nonce_of(s2, c2) {
        let n1 = nonce_of(s1, c1);
        let n2 = nonce_of(s2, c2);
        let h1 = sha256_of(encode_utf8(s1)).take(16);
        let h2 = sha256_of(encode_utf8(s2)).take(16);
        if h1.len() == 16 && h2.len() == 16 {
            assert(h1 =~= n1.subrange(0, 16));
            assert(h2 =~= n2.subrange(0, 16));
            assert(spec_u64_to_le_bytes(c1) =~= n1.subrange(16, n1.len() as int));
            assert(spec_u64_to_le_bytes(c2) =~= n2.subrange(16, n2.len() as int));
        } else {
            // the digest is shorter than 16 bytes only if the hash itself is,
            // in which case the prefixes coincide with the digests
            assert(h1 =~= n1.subrange(0, n1.len() - 8));
            assert(h2 =~= n2.subrange(0, n2.len() - 8));
            assert(spec_u64_to_le_bytes(c1) =~= n1.subrange(n1.len() - 8, n1.len() as int));
            assert(spec_u64_to_le_bytes(c2) =~= n2.subrange(n2.len() - 8, n2.len() as int));
        }
        assert(false);
    }
}

/// Whether an event's MIME and text sizes pass the protocol's bounds.
pub open spec fn valid_event_sizes(e: EventView) -> bool {
    &&& spec_trim(e.mime).len() > 0
    &&& encode_utf8(spec_trim(e.mime)).len() <= MAX_MIME_LEN
    &&& encode_utf8(e.text_utf8).len() <= MAX_CLIPBOARD_TEXT_BYTES
}

/// What a valid event is sealed to under a room key.
pub open spec fn sealed_event(key: Seq<u8>, e: EventView) -> Seq<u8> {
    xchacha_seal(key, nonce_of(e.sender_device_id, e.counter), aad_bytes(), event_json(e))
}

/// Encrypt one clipboard event under the room key.  Rejects an empty or
/// oversized MIME and oversized text; otherwise the envelope carries the
/// event's sender and counter and the sealed canonical JSON plaintext.
pub fn encrypt_clipboard_event(room_key: &[u8; 32], event: &ClipboardEventPlaintext) -> (r: Result<
    EncryptedPayload,
    CoreError,
>)
    ensures
        !(spec_trim(event.mime@).len() > 0 && encode_utf8(spec_trim(event.mime@)).len()
            <= MAX_MIME_LEN) <==> r == Err::<EncryptedPayload, CoreError>(CoreError::InvalidMime),
        (spec_trim(event.mime@).len() > 0 && encode_utf8(spec_trim(event.mime@)).len()
            <= MAX_MIME_LEN && encode_utf8(event.text_utf8@).len() > MAX_CLIPBOARD_TEXT_BYTES) <==> r
            == Err::<EncryptedPayload, CoreError>(CoreError::ClipboardTooLarge),
        valid_event_sizes(event@) && event_json(event@).len() < 64 * 0xFFFF_FFFF ==> r is Ok && {
            let p = r.unwrap();
            &&& p.sender_device_id@ == event.sender_device_id@
            &&& p.counter == event.counter
            &&& p.ciphertext@ == sealed_event(room_key@, event@)
            &&& p.ciphertext@.len() == event_json(event@).len() + 16
        },
        valid_event_sizes(event@) && event_json(event@).len() >= 64 * 0xFFFF_FFFF ==> r == Err::<
            EncryptedPayload,
            CoreError,
        >(CoreError::DecryptionFailed),
{
    proof {
        reveal_strlit("cliprelay:v1");
    }
    let mime_trimmed = trim_str(event.mime.as_str());
    if mime_trimmed.as_str().unicode_len() == 0 || byte_len(mime_trimmed.as_str()) > MAX_MIME_LEN {
        return Err(CoreError::InvalidMime);
    }
    if byte_len(event.text_utf8.as_str()) > MAX_CLIPBOARD_TEXT_BYTES {
        return Err(CoreError::ClipboardTooLarge);
    }
    let nonce = build_nonce(event.sender_device_id.as_str(), event.counter);
    let plaintext = event_json_vec(event);
    let aad = ascii_lit("cliprelay:v1");
    match aead_seal(room_key, nonce.as_slice(), aad.as_slice(), plaintext.as_slice()) {
        Some(ciphertext) => Ok(
            EncryptedPayload {
                sender_device_id: clone_string(&event.sender_device_id),
                counter: event.counter,
                ciphertext,
            },
        ),
        None => Err(CoreError::DecryptionFailed),
    }
}

/// `String::clone` with its view pinned down.
fn clone_string(s: &String) -> (r: String)
    ensures
        r@ == s@,
{
    s.clone()
}

/// Decrypt one clipboard event.  Opening the ciphertext with the envelope's
/// deterministic nonce recovers the plaintext JSON; the inner sender and
/// counter must match the envelope, and the size bounds must still hold.
///
/// Together with `encrypt_clipboard_event` this states the encryption
/// round trip: decrypting what `encrypt_clipboard_event` produced yields
/// the original event.  A payload whose inner identity differs from the
/// envelope's is rejected as `PayloadIdentityMismatch`.
pub fn decrypt_clipboard_event(room_key: &[u8; 32], payload: &EncryptedPayload) -> (r: Result<
    ClipboardEventPlaintext,
    CoreError,
>)
    ensures
        (forall|m: Seq<u8>|
            payload.ciphertext@ != xchacha_seal(
                room_key@,
                nonce_of(payload.sender_device_id@, payload.counter),
                aad_bytes(),
                m,
            )) ==> r == Err::<ClipboardEventPlaintext, CoreError>(CoreError::DecryptionFailed),
        forall|e: EventView|
            {
                &&& valid_event_sizes(e)
                &&& e.sender_device_id == payload.sender_device_id@
                &&& e.counter == payload.counter
                &&& payload.ciphertext@ == sealed_event(room_key@, e)
                &&& payload.ciphertext@.len() == event_json(e).len() + 16
                &&& event_json(e).len() < 64 * 0xFFFF_FFFF
            } ==> r is Ok && r.unwrap()@ == e,
        forall|e: EventView|
            {
                &&& payload.ciphertext@ == xchacha_seal(
                    room_key@,
                    nonce_of(payload.sender_device_id@, payload.counter),
                    aad_bytes(),
                    event_json(e),
                )
                &&& payload.ciphertext@.len() == event_json(e).len() + 16
                &&& event_json(e).len() < 64 * 0xFFFF_FFFF
                &&& (e.sender_device_id != payload.sender_device_id@ || e.counter
                    != payload.counter)
            } ==> r == Err::<ClipboardEventPlaintext, CoreError>(CoreError::PayloadIdentityMismatch),
        r is Ok ==> {
            &&& r.unwrap().sender_device_id@ == payload.sender_device_id@
            &&& r.unwrap().counter == payload.counter
            &&& valid_event_sizes(r.unwrap()@)
            &&& exists|pt: Seq<u8>|
                payload.ciphertext@ == xchacha_seal(
                    room_key@,
                    nonce_of(payload.sender_device_id@, payload.counter),
                    aad_bytes(),
                    pt,
                ) && #[trigger] p_event(pt) == Some((r.unwrap()@, pt.len() as int))
        },
{
    proof {
        reveal_strlit("cliprelay:v1");
    }
    let nonce = build_nonce(payload.sender_device_id.as_str(), payload.counter);
    let aad = ascii_lit("cliprelay:v1");
    let plaintext = match aead_open(
        room_key,
        nonce.as_slice(),
        aad.as_slice(),
        payload.ciphertext.as_slice(),
    ) {
        Some(pt) => pt,
        None => {
            return Err(CoreError::DecryptionFailed);
        },
    };
    let ghost nv = nonce@;
    let ghost av = aad@;
    proof {
        assert(nv == nonce_of(payload.sender_device_id@, payload.counter));
        assert(av == aad_bytes());
        assert(payload.ciphertext@ == xchacha_seal(
            room_key@,
            nonce_of(payload.sender_device_id@, payload.counter),
            aad_bytes(),
            plaintext@,
        ));
        assert forall|e: EventView|
            payload.ciphertext@ == xchacha_seal(
                room_key@,
                nonce_of(payload.sender_device_id@, payload.counter),
                aad_bytes(),
                event_json(e),
            ) implies plaintext@ == event_json(e) by {
            assert(payload.ciphertext@ == xchacha_seal(room_key@, nv, av, event_json(e)));
        }
        assert forall|e: EventView| #[trigger] event_json(e) == plaintext@ implies p_event(
            plaintext@,
        ) == Some((e, plaintext@.len() as int)) by {
            lemma_p_event(e, Seq::empty());
            assert(event_json(e) + Seq::<u8>::empty() =~= event_json(e));
        }
    }
    let event = match parse_event(plaintext.as_slice(), 0) {
        Some((e, consumed)) => {
            proof {
                assert(plaintext@.skip(0) =~= plaintext@);
            }
            if consumed != plaintext.len() {
                return Err(CoreError::Serialization("trailing bytes after event".to_owned()));
            }
            e
        },
        None => {
            proof {
                assert(plaintext@.skip(0) =~= plaintext@);
            }
            return Err(CoreError::Serialization("malformed event plaintext".to_owned()));
        },
    };
    if !str_eq(event.sender_device_id.as_str(), payload.sender_device_id.as_str()) || event.counter
        != payload.counter {
        return Err(CoreError::PayloadIdentityMismatch);
    }
    let mime_trimmed = trim_str(event.mime.as_str());
    if mime_trimmed.as_str().unicode_len() == 0 || byte_len(mime_trimmed.as_str()) > MAX_MIME_LEN {
        return Err(CoreError::InvalidMime);
    }
    if byte_len(event.text_utf8.as_str()) > MAX_CLIPBOARD_TEXT_BYTES {
        return Err(CoreError::ClipboardTooLarge);
    }
    proof {
        assert(exists|pt: Seq<u8>|
            payload.ciphertext@ == xchacha_seal(
                room_key@,
                nonce_of(payload.sender_device_id@, payload.counter),
                aad_bytes(),
                pt,
            ) && #[trigger] p_event(pt) == Some((event@, pt.len() as int))) by {
            assert(payload.ciphertext@ == xchacha_seal(
                room_key@,
                nonce_of(payload.sender_device_id@, payload.counter),
                aad_bytes(),
                plaintext@,
            ));
            assert(p_event(plaintext@) == Some((event@, plaintext@.len() as int)));
        }
    }
    Ok(event)
}

/// The room id: lowercase hex of SHA-256 over the room code.
pub open spec fn room_id_of(code: Seq<char>) -> Seq<char> {
    ascii_chars_of(hex_of(sha256_of(encode_utf8(code))))
}

/// The public routing identifier for a room code.
pub fn room_id_from_code(room_code: &str) -> (r: String)
    ensures
        r@ == room_id_of(room_code@),
        r@.len() == 64,
{
    let digest = sha256(room_code.as_bytes());
    hex_encode(digest.as_slice())
}

} // verus!
