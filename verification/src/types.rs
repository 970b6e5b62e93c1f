//! Protocol data types: peer identity, control messages, encrypted
//! envelopes, and the error taxonomy of the core.

use vstd::prelude::*;

verus! {

/// Ghost mirror of `PeerInfo`: both strings as character sequences.
pub struct PeerView {
    pub device_id: Seq<char>,
    pub device_name: Seq<char>,
}

/// Ghost mirror of `ClipboardEventPlaintext`.
pub struct EventView {
    pub sender_device_id: Seq<char>,
    pub counter: u64,
    pub timestamp_unix_ms: u64,
    pub mime: Seq<char>,
    pub text_utf8: Seq<char>,
}

/// Ghost mirror of `EncryptedPayload`.
pub struct PayloadView {
    pub sender_device_id: Seq<char>,
    pub counter: u64,
    pub ciphertext: Seq<u8>,
}

/// Ghost mirror of `ControlMessage`.
pub enum ControlView {
    Hello { room_id: Seq<char>, peer: PeerView },
    PeerList { room_id: Seq<char>, peers: Seq<PeerView> },
    PeerJoined { room_id: Seq<char>, peer: PeerView },
    PeerLeft { room_id: Seq<char>, device_id: Seq<char> },
    SaltExchange { room_id: Seq<char>, device_ids: Seq<Seq<char>> },
    Error { message: Seq<char> },
}

/// Ghost mirror of `WireMessage`.
pub enum WireView {
    Control(ControlView),
    Encrypted(PayloadView),
}

/// A member of a room as seen on the wire: stable device id plus a
/// human-readable device name.
#[derive(Debug, Clone, PartialEq, Eq)]
pub struct PeerInfo {
    pub device_id: String,
    pub device_name: String,
}

/// The plaintext of one clipboard event, as sealed inside an
/// `EncryptedPayload`.
#[derive(Debug, Clone, PartialEq, Eq)]
pub struct ClipboardEventPlaintext {
    pub sender_device_id: String,
    pub counter: u64,
    pub timestamp_unix_ms: u64,
    pub mime: String,
    pub text_utf8: String,
}

/// The outer envelope of one encrypted clipboard event.  The ciphertext is
/// opaque to the relay; sender and counter are authenticated by the nonce.
#[derive(Debug, Clone, PartialEq, Eq)]
pub struct EncryptedPayload {
    pub sender_device_id: String,
    pub counter: u64,
    pub ciphertext: Vec<u8>,
}

/// The one control frame a client may originate: announces room membership.
#[derive(Debug, Clone, PartialEq, Eq)]
pub struct Hello {
    pub room_id: String,
    pub peer: PeerInfo,
}

/// Relay-synthesized: the full member list of a room.
#[derive(Debug, Clone, PartialEq, Eq)]
pub struct PeerList {
    pub room_id: String,
    pub peers: Vec<PeerInfo>,
}

/// Relay-synthesized: a peer has joined.
#[derive(Debug, Clone, PartialEq, Eq)]
pub struct PeerJoined {
    pub room_id: String,
    pub peer: PeerInfo,
}

/// Relay-synthesized: a peer has left.
#[derive(Debug, Clone, PartialEq, Eq)]
pub struct PeerLeft {
    pub room_id: String,
    pub device_id: String,
}

/// Relay-synthesized: the current device-id set, from which members
/// re-derive the room key.
#[derive(Debug, Clone, PartialEq, Eq)]
pub struct SaltExchange {
    pub room_id: String,
    pub device_ids: Vec<String>,
}

/// Tagged union of all control frames carried as JSON in a control payload.
#[derive(Debug, Clone, PartialEq, Eq)]
pub enum ControlMessage {
    Hello(Hello),
    PeerList(PeerList),
    PeerJoined(PeerJoined),
    PeerLeft(PeerLeft),
    SaltExchange(SaltExchange),
    Error { message: String },
}

/// One decoded wire frame: either a control message or an encrypted
/// clipboard envelope.
#[derive(Debug, Clone, PartialEq, Eq)]
pub enum WireMessage {
    Control(ControlMessage),
    Encrypted(EncryptedPayload),
}

/// The frame-type byte on the wire.
#[derive(Debug, Clone, Copy, PartialEq, Eq, Structural)]
pub enum MessageType {
    Control,
    EncryptedClipboard,
}

impl MessageType {
    /// The byte that tags this frame type on the wire.
    pub open spec fn spec_byte(self) -> u8 {
        match self {
            MessageType::Control => 0u8,
            MessageType::EncryptedClipboard => 1u8,
        }
    }

    /// Executable twin of `spec_byte`.
    pub fn byte(self) -> (r: u8)
        ensures
            r == self.spec_byte(),
    {
        match self {
            MessageType::Control => 0u8,
            MessageType::EncryptedClipboard => 1u8,
        }
    }
}

impl View for PeerInfo {
    type V = PeerView;

    open spec fn view(&self) -> PeerView {
        PeerView { device_id: self.device_id@, device_name: self.device_name@ }
    }
}

impl View for ClipboardEventPlaintext {
    type V = EventView;

    open spec fn view(&self) -> EventView {
        EventView {
            sender_device_id: self.sender_device_id@,
            counter: self.counter,
            timestamp_unix_ms: self.timestamp_unix_ms,
            mime: self.mime@,
            text_utf8: self.text_utf8@,
        }
    }
}

impl View for EncryptedPayload {
    type V = PayloadView;

    open spec fn view(&self) -> PayloadView {
        PayloadView {
            sender_device_id: self.sender_device_id@,
            counter: self.counter,
            ciphertext: self.ciphertext@,
        }
    }
}

impl View for ControlMessage {
    type V = ControlView;

    open spec fn view(&self) -> ControlView {
        match self {
            ControlMessage::Hello(h) => ControlView::Hello { room_id: h.room_id@, peer: h.peer@ },
            ControlMessage::PeerList(pl) => ControlView::PeerList {
                room_id: pl.room_id@,
                peers: Seq::new(pl.peers@.len(), |i: int| pl.peers@[i]@),
            },
            ControlMessage::PeerJoined(pj) => ControlView::PeerJoined {
                room_id: pj.room_id@,
                peer: pj.peer@,
            },
            ControlMessage::PeerLeft(pl) => ControlView::PeerLeft {
                room_id: pl.room_id@,
                device_id: pl.device_id@,
            },
            ControlMessage::SaltExchange(se) => ControlView::SaltExchange {
                room_id: se.room_id@,
                device_ids: Seq::new(se.device_ids@.len(), |i: int| se.device_ids@[i]@),
            },
            ControlMessage::Error { message } => ControlView::Error { message: message@ },
        }
    }
}

impl View for WireMessage {
    type V = WireView;

    open spec fn view(&self) -> WireView {
        match self {
            WireMessage::Control(c) => WireView::Control(c@),
            WireMessage::Encrypted(p) => WireView::Encrypted(p@),
        }
    }
}

/// Every failure the core can report.
#[derive(Debug, Clone, PartialEq, Eq)]
pub enum CoreError {
    /// The room code is empty (after trimming whitespace).
    EmptyRoomCode,
    /// The event MIME is empty after trimming, or longer than `MAX_MIME_LEN`.
    InvalidMime,
    /// The event text exceeds `MAX_CLIPBOARD_TEXT_BYTES`.
    ClipboardTooLarge,
    /// A frame's length prefix disagrees with its size, or a field length
    /// does not fit its integer width.
    InvalidFrameLength,
    /// The frame-type byte is neither control nor encrypted.
    UnsupportedMessageType(u8),
    /// A payload failed to parse (bad UTF-8 or malformed JSON).
    Serialization(String),
    /// AEAD open failed: the ciphertext is not authentic under this key.
    DecryptionFailed,
    /// The decrypted event's sender or counter differ from the envelope's.
    PayloadIdentityMismatch,
    /// HKDF could not produce the requested key length.
    KeyDerivationFailed,
    /// A counter at or below the highest already seen from this sender.
    ReplayRejected { sender: String, counter: u64, last_seen: u64 },
}

} // verus!
