//! Client-session decisions: stable device identity, presence tracking
//! with room-key (re)derivation, outgoing-text preparation with counter
//! allocation, and duplicate suppression for received text.

use vstd::prelude::*;
use vstd::utf8::encode_utf8;

use crate::crypto::{
    derive_room_key, encrypt_clipboard_event, nonce_of, room_key_of, sealed_event, sha256,
    sha256_of, valid_event_sizes, aad_bytes,
};
use crate::jmsg::event_json;
use crate::relay::{spec_insert, spec_insert_all, spec_remove_ok, Room};
use crate::strings::{ascii_chars_of, byte_len, hex_of, spec_trim, str_eq, trim_str};
use crate::types::{ClipboardEventPlaintext, ControlMessage, EncryptedPayload, EventView, PeerInfo};
use crate::MAX_CLIPBOARD_TEXT_BYTES;

verus! {

/// The stable device id: lowercase hex of the first 16 bytes of SHA-256
/// over `host:user:trimmed-device-name`.
pub open spec fn device_id_of(host: Seq<char>, user: Seq<char>, device_name: Seq<char>) -> Seq<
    char,
> {
    ascii_chars_of(
        hex_of(
            sha256_of(
                encode_utf8(host) + seq![0x3Au8] + encode_utf8(user) + seq![0x3Au8] + encode_utf8(
                    spec_trim(device_name),
                ),
            ).take(16),
        ),
    )
}

/// Compute the stable device id for this host, user and device name.
pub fn device_id_from(host: &str, user: &str, device_name: &str) -> (r: String)
    ensures
        r@ == device_id_of(host@, user@, device_name@),
        r@.len() == 32,
{
    let trimmed = trim_str(device_name);
    let mut raw: Vec<u8> = Vec::new();
    raw.extend_from_slice(host.as_bytes());
    raw.push(0x3A);
    raw.extend_from_slice(user.as_bytes());
    raw.push(0x3A);
    raw.extend_from_slice(trimmed.as_str().as_bytes());
    proof {
        assert(raw@ =~= encode_utf8(host@) + seq![0x3Au8] + encode_utf8(user@) + seq![0x3Au8]
            + encode_utf8(spec_trim(device_name@)));
    }
    let digest = sha256(raw.as_slice());
    let mut head: Vec<u8> = Vec::new();
    let mut i: usize = 0;
    while i < 16
        invariant
            0 <= i <= 16,
            digest@.len() == 32,
            head@ == digest@.take(i as int),
        decreases 16 - i,
    {
        head.push(digest[i]);
        proof {
            assert(digest@.take(i as int).push(digest@[i as int]) =~= digest@.take(i as int + 1));
        }
        i = i + 1;
    }
    crate::strings::hex_encode(head.as_slice())
}

/// Why an outgoing text was not sent.
#[derive(Debug, Clone, PartialEq, Eq)]
pub enum SendTextError {
    /// The text is blank after trimming; nothing is sent and no counter
    /// is consumed.
    EmptyText,
    /// The text exceeds the clipboard budget.
    TooLarge,
    /// No room key has been derived yet.
    NoKey,
    /// Sealing failed.
    EncryptFailed,
}

/// Prepare one outgoing text event: reject blank, oversized or keyless
/// sends; otherwise allocate the next counter and seal the event with
/// MIME `text/plain`.
pub fn prepare_text_send(
    device_id: &str,
    counter: u64,
    now_ms: u64,
    text: &str,
    room_key: Option<&[u8; 32]>,
) -> (r: Result<(u64, EncryptedPayload), SendTextError>)
    ensures
        spec_trim(text@).len() == 0 <==> r == Err::<(u64, EncryptedPayload), SendTextError>(
            SendTextError::EmptyText,
        ),
        (spec_trim(text@).len() > 0 && encode_utf8(text@).len() > MAX_CLIPBOARD_TEXT_BYTES) <==> r
            == Err::<(u64, EncryptedPayload), SendTextError>(SendTextError::TooLarge),
        (spec_trim(text@).len() > 0 && encode_utf8(text@).len() <= MAX_CLIPBOARD_TEXT_BYTES
            && room_key is None) <==> r == Err::<(u64, EncryptedPayload), SendTextError>(
            SendTextError::NoKey,
        ),
        (spec_trim(text@).len() > 0 && encode_utf8(text@).len() <= MAX_CLIPBOARD_TEXT_BYTES
            && room_key is Some) ==> match r {
            Ok((c, p)) => {
                &&& c == if counter <= 0xFFFF_FFFF_FFFF_FFFE {
                    (counter + 1) as u64
                } else {
                    0xFFFF_FFFF_FFFF_FFFFu64
                }
                &&& p.sender_device_id@ == device_id@
                &&& p.counter == c
                &&& p.ciphertext@ == sealed_event(
                    room_key.unwrap()@,
                    EventView {
                        sender_device_id: device_id@,
                        counter: c,
                        timestamp_unix_ms: now_ms,
                        mime: "text/plain"@,
                        text_utf8: text@,
                    },
                )
            },
            Err(e) => e == SendTextError::EncryptFailed,
        },
        (spec_trim(text@).len() > 0 && encode_utf8(text@).len() <= MAX_CLIPBOARD_TEXT_BYTES
            && room_key is Some && event_json(
            EventView {
                sender_device_id: device_id@,
                counter: if counter <= 0xFFFF_FFFF_FFFF_FFFE {
                    (counter + 1) as u64
                } else {
                    0xFFFF_FFFF_FFFF_FFFFu64
                },
                timestamp_unix_ms: now_ms,
                mime: "text/plain"@,
                text_utf8: text@,
            },
        ).len() < 64 * 0xFFFF_FFFF) ==> r is Ok,
{
    let trimmed = trim_str(text);
    if trimmed.as_str().unicode_len() == 0 {
        return Err(SendTextError::EmptyText);
    }
    if byte_len(text) > MAX_CLIPBOARD_TEXT_BYTES {
        return Err(SendTextError::TooLarge);
    }
    let key = match room_key {
        Some(k) => k,
        None => {
            return Err(SendTextError::NoKey);
        },
    };
    let next = if counter <= 0xFFFF_FFFF_FFFF_FFFE {
        counter + 1
    } else {
        counter
    };
    let event = ClipboardEventPlaintext {
        sender_device_id: device_id.to_owned(),
        counter: next,
        timestamp_unix_ms: now_ms,
        mime: "text/plain".to_owned(),
        text_utf8: text.to_owned(),
    };
    proof {
        reveal_strlit("text/plain");
        assert(spec_trim("text/plain"@) =~= "text/plain"@);
        assert(encode_utf8("text/plain"@).len() <= crate::MAX_MIME_LEN) by {
            crate::strings::lemma_ascii_encode(crate::strings::ascii_bytes_of("text/plain"@));
            assert(crate::strings::ascii_chars_of(
                crate::strings::ascii_bytes_of("text/plain"@),
            ) =~= "text/plain"@);
        }
        assert(valid_event_sizes(event@));
    }
    match encrypt_clipboard_event(key, &event) {
        Ok(payload) => Ok((next, payload)),
        Err(_) => Err(SendTextError::EncryptFailed),
    }
}

/// What a control message does to the client's presence state.
pub enum PresenceEffect {
    /// The peer set changed; the UI should be told.
    PeersChanged,
    /// A salt exchange arrived and the room key was rederived.
    KeyReady([u8; 32]),
    /// A salt exchange arrived but the key could not be derived.
    KeyFailed,
    /// The relay surfaced an error message.
    Surface(String),
    /// Nothing to do.
    Ignored,
}

/// Apply one relay control message to the peer set, rederiving the room
/// key on every salt exchange.  `PeerList` replaces the set, `PeerJoined`
/// inserts or replaces one member, `PeerLeft` removes one; `Hello` is
/// never expected from the relay and is ignored; `Error` is surfaced.
pub fn presence_apply(peers: &mut Room, room_code: &str, msg: &ControlMessage) -> (r:
    PresenceEffect)
    requires
        old(peers).wf(),
    ensures
        final(peers).wf(),
        match msg@ {
            crate::types::ControlView::SaltExchange { device_ids, .. } => {
                &&& *final(peers) == *old(peers)
                &&& spec_trim(room_code@).len() > 0 ==> (r matches PresenceEffect::KeyReady(k)
                    && k@ == room_key_of(room_code@, device_ids))
                &&& spec_trim(room_code@).len() == 0 ==> r is KeyFailed
            },
            crate::types::ControlView::Error { message } => *final(peers) == *old(peers) && (
            r matches PresenceEffect::Surface(m) && m@ == message),
            crate::types::ControlView::Hello { .. } => *final(peers) == *old(peers) && r
                is Ignored,
            crate::types::ControlView::PeerList { peers: list, .. } => r is PeersChanged
                && final(peers).view_peers() == spec_insert_all(list),
            crate::types::ControlView::PeerJoined { peer, .. } => r is PeersChanged
                && final(peers).view_peers() == spec_insert(old(peers).view_peers(), peer),
            crate::types::ControlView::PeerLeft { device_id, .. } => r is PeersChanged
                && spec_remove_ok(old(peers).view_peers(), final(peers).view_peers(), device_id),
        },
{
    match msg {
        ControlMessage::PeerList(pl) => {
            let ghost listv = Seq::new(pl.peers@.len(), |i: int| pl.peers@[i]@);
            let mut fresh = Room::new();
            let n = pl.peers.len();
            let mut i: usize = 0;
            proof {
                assert(listv.take(0) =~= Seq::<crate::types::PeerView>::empty());
            }
            while i < n
                invariant
                    0 <= i <= n,
                    n == pl.peers@.len(),
                    listv == Seq::new(pl.peers@.len(), |k: int| pl.peers@[k]@),
                    fresh.wf(),
                    fresh.view_peers() == spec_insert_all(listv.take(i as int)),
                decreases n - i,
            {
                let _ = fresh.insert_peer(clone_peer(&pl.peers[i]));
                proof {
                    assert(listv.take(i as int + 1).drop_last() =~= listv.take(i as int));
                    assert(listv.take(i as int + 1).last() == listv[i as int]);
                }
                i = i + 1;
            }
            *peers = fresh;
            proof {
                assert(listv.take(n as int) =~= listv);
                assert(listv =~= (match msg@ {
                    crate::types::ControlView::PeerList { peers: list, .. } => list,
                    _ => Seq::empty(),
                }));
            }
            PresenceEffect::PeersChanged
        },
        ControlMessage::PeerJoined(pj) => {
            let _ = peers.insert_peer(clone_peer(&pj.peer));
            PresenceEffect::PeersChanged
        },
        ControlMessage::PeerLeft(pl) => {
            let _ = peers.remove_peer(pl.device_id.as_str());
            PresenceEffect::PeersChanged
        },
        ControlMessage::SaltExchange(se) => {
            match derive_room_key(room_code, se.device_ids.as_slice()) {
                Ok(key) => {
                    proof {
                        assert(Seq::new(se.device_ids@.len(), |i: int| se.device_ids@[i]@)
                            =~= (match msg@ {
                            crate::types::ControlView::SaltExchange { device_ids, .. } => device_ids,
                            _ => Seq::empty(),
                        }));
                    }
                    PresenceEffect::KeyReady(key)
                },
                Err(_) => PresenceEffect::KeyFailed,
            }
        },
        ControlMessage::Error { message } => PresenceEffect::Surface(clone_str(message)),
        ControlMessage::Hello(_) => PresenceEffect::Ignored,
    }
}

/// `String::clone` with its view pinned down.
fn clone_str(s: &String) -> (r: String)
    ensures
        r@ == s@,
{
    s.clone()
}

/// `PeerInfo` clone with its view pinned down.
fn clone_peer(p: &PeerInfo) -> (r: PeerInfo)
    ensures
        r@ == p@,
{
    PeerInfo { device_id: clone_str(&p.device_id), device_name: clone_str(&p.device_name) }
}

/// Whether a decrypted text equals the last text this client applied, by
/// hash: such an echo is dropped before it reaches the UI.
pub fn is_duplicate_of_applied(text: &str, last_applied_hash: Option<&Vec<u8>>) -> (r: bool)
    ensures
        r == (last_applied_hash matches Some(h) && h@ == sha256_of(encode_utf8(text@))),
{
    match last_applied_hash {
        Some(h) => {
            let digest = sha256(text.as_bytes());
            bytes_eq(h.as_slice(), digest.as_slice())
        },
        None => false,
    }
}

/// Byte-slice equality.
fn bytes_eq(a: &[u8], b: &[u8]) -> (r: bool)
    ensures
        r == (a@ == b@),
{
    if a.len() != b.len() {
        return false;
    }
    let n = a.len();
    let mut i: usize = 0;
    while i < n
        invariant
            0 <= i <= n,
            n == a@.len() == b@.len(),
            forall|k: int| 0 <= k < i ==> a@[k] == b@[k],
        decreases n - i,
    {
        if a[i] != b[i] {
            return false;
        }
        i = i + 1;
    }
    proof {
        assert(a@ =~= b@);
    }
    true
}

} // verus!
