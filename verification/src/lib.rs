//! ClipRelay core: the secure group-messaging protocol shared by the relay
//! and its clients — wire codec, room-key derivation, authenticated
//! encryption of clipboard events, replay protection, room membership,
//! and the chunked file-transfer sub-protocol.

use vstd::prelude::*;

pub mod autostart;
pub mod codec;
pub mod crypto;
pub mod jmsg;
pub mod json;
pub mod relay;
pub mod replay;
pub mod session;
pub mod strings;
pub mod transfer;
pub mod types;
pub mod ui;

verus! {

/// Largest clipboard text payload accepted for encryption, in bytes.
pub const MAX_CLIPBOARD_TEXT_BYTES: usize = 256 * 1024;

/// Largest WebSocket binary message the relay accepts, in bytes.
pub const MAX_RELAY_MESSAGE_BYTES: usize = 300 * 1024;

/// Hard cap on distinct devices in one room.
pub const MAX_DEVICES_PER_ROOM: usize = 10;

/// Largest accepted MIME string, in bytes.
pub const MAX_MIME_LEN: usize = 128;

} // verus!
