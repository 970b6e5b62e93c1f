//! Window-placement state and the small pure helpers the client UI needs:
//! clamping saved placements to a monitor, text previews, hotkey presets
//! and the layout constants.

use vstd::prelude::*;
use vstd::utf8::encode_scalar;

use crate::strings::bytes_to_string;

verus! {

/// Largest `ui_state.json` the loader will read, in bytes.
pub const MAX_UI_STATE_BYTES: u64 = 64 * 1024;

/// Default and minimum sizes for the options window, in unscaled pixels.
pub const OPTIONS_DEFAULT_W_PX: i32 = 680;

pub const OPTIONS_DEFAULT_H_PX: i32 = 560;

pub const OPTIONS_MIN_W_PX: i32 = 560;

pub const OPTIONS_MIN_H_PX: i32 = 460;

/// Sizes for the room-choice dialog, in unscaled pixels.
pub const CHOOSE_ROOM_DEFAULT_W_PX: i32 = 620;

pub const CHOOSE_ROOM_HAS_SAVED_H_PX: i32 = 320;

pub const CHOOSE_ROOM_NO_SAVED_H_PX: i32 = 230;

/// A saved window position and size.
#[derive(Debug, Clone, Copy, PartialEq, Eq, Structural)]
pub struct WindowPlacement {
    pub x: i32,
    pub y: i32,
    pub w: u32,
    pub h: u32,
}

/// The persisted UI state: placements for the three windows and the
/// chosen hotkey label.
#[derive(Debug, Clone, PartialEq, Eq)]
pub struct SavedUiState {
    pub send: Option<WindowPlacement>,
    pub options: Option<WindowPlacement>,
    pub popup: Option<WindowPlacement>,
    pub hotkey: Option<String>,
}

impl SavedUiState {
    /// Nothing saved yet.
    pub fn empty() -> (r: SavedUiState)
        ensures
            r.send is None && r.options is None && r.popup is None && r.hotkey is None,
    {
        SavedUiState { send: None, options: None, popup: None, hotkey: None }
    }
}

/// Clamp an integer into `[lo, hi]`, where `lo <= hi`.
pub open spec fn clamp_int(v: int, lo: int, hi: int) -> int {
    if v < lo {
        lo
    } else if v > hi {
        hi
    } else {
        v
    }
}

/// Larger of two integers.
pub open spec fn max_int(a: int, b: int) -> int {
    if a >= b {
        a
    } else {
        b
    }
}

/// What `clamp_placement_in_rect` returns for a monitor rectangle
/// `[left, top, right, bottom]`: the size clamped into the monitor with
/// margins, then the position clamped so the window stays on screen.
pub open spec fn spec_clamp_placement(
    p: WindowPlacement,
    min_w: u32,
    min_h: u32,
    margin_px: int,
    left: int,
    top: int,
    right: int,
    bottom: int,
) -> WindowPlacement {
    let monitor_w = max_int(right - left, 200);
    let monitor_h = max_int(bottom - top, 200);
    let max_w = max_int(monitor_w - margin_px * 2, 200);
    let max_h = max_int(monitor_h - margin_px * 2, 200);
    let w = clamp_int(p.w as int, min_w as int, max_int(max_w, min_w as int));
    let h = clamp_int(p.h as int, min_h as int, max_int(max_h, min_h as int));
    let x = clamp_int(p.x as int, left, max_int(right - w, left));
    let y = clamp_int(p.y as int, top, max_int(bottom - h, top));
    WindowPlacement { x: x as i32, y: y as i32, w: w as u32, h: h as u32 }
}

/// Clamp a saved placement into a monitor rectangle so the window stays
/// visible: the size respects the minimums and the monitor (with margin),
/// and the position stays within the rectangle.
pub fn clamp_placement_in_rect(
    placement: WindowPlacement,
    min_w: u32,
    min_h: u32,
    margin_px: i32,
    rect: [i32; 4],
) -> (r: WindowPlacement)
    ensures
        r == spec_clamp_placement(
            placement,
            min_w,
            min_h,
            margin_px as int,
            rect[0] as int,
            rect[1] as int,
            rect[2] as int,
            rect[3] as int,
        ),
{
    let left = rect[0] as i64;
    let top = rect[1] as i64;
    let right = rect[2] as i64;
    let bottom = rect[3] as i64;
    let monitor_w: i64 = if right - left >= 200 {
        right - left
    } else {
        200
    };
    let monitor_h: i64 = if bottom - top >= 200 {
        bottom - top
    } else {
        200
    };
    let max_w: i64 = if monitor_w - (margin_px as i64) * 2 >= 200 {
        monitor_w - (margin_px as i64) * 2
    } else {
        200
    };
    let max_h: i64 = if monitor_h - (margin_px as i64) * 2 >= 200 {
        monitor_h - (margin_px as i64) * 2
    } else {
        200
    };
    let hi_w: i64 = if max_w >= min_w as i64 {
        max_w
    } else {
        min_w as i64
    };
    let hi_h: i64 = if max_h >= min_h as i64 {
        max_h
    } else {
        min_h as i64
    };
    let w: i64 = if (placement.w as i64) < (min_w as i64) {
        min_w as i64
    } else if (placement.w as i64) > hi_w {
        hi_w
    } else {
        placement.w as i64
    };
    let h: i64 = if (placement.h as i64) < (min_h as i64) {
        min_h as i64
    } else if (placement.h as i64) > hi_h {
        hi_h
    } else {
        placement.h as i64
    };
    let max_x: i64 = if right - w >= left {
        right - w
    } else {
        left
    };
    let max_y: i64 = if bottom - h >= top {
        bottom - h
    } else {
        top
    };
    let x: i64 = if (placement.x as i64) < left {
        left
    } else if (placement.x as i64) > max_x {
        max_x
    } else {
        placement.x as i64
    };
    let y: i64 = if (placement.y as i64) < top {
        top
    } else if (placement.y as i64) > max_y {
        max_y
    } else {
        placement.y as i64
    };
    WindowPlacement { x: x as i32, y: y as i32, w: w as u32, h: h as u32 }
}

/// NWG's builders already convert logical to physical pixels, so logical
/// values pass through unchanged.
pub fn scale_px(px: i32) -> (r: i32)
    ensures
        r == px,
{
    px
}

/// What `preview_text` returns: the first `max_chars` characters, with an
/// ellipsis when anything was cut.
pub open spec fn spec_preview(text: Seq<char>, max_chars: int) -> Seq<char> {
    if text.len() <= max_chars {
        text
    } else {
        text.take(max_chars).push('\u{2026}')
    }
}

/// A short preview of a clipboard text for notifications.
pub fn preview_text(text: &str, max_chars: usize) -> (r: String)
    ensures
        r@ == spec_preview(text@, max_chars as int),
{
    let n = text.unicode_len();
    if n <= max_chars {
        return text.to_owned();
    }
    let ghost target = text@.take(max_chars as int).push('\u{2026}');
    let mut bytes: Vec<u8> = Vec::new();
    let mut i: usize = 0;
    while i < max_chars
        invariant
            0 <= i <= max_chars,
            max_chars < n == text@.len(),
            bytes@ == vstd::utf8::encode_utf8(text@.take(i as int)),
        decreases max_chars - i,
    {
        let c = text.get_char(i);
        push_char_utf8(&mut bytes, c);
        proof {
            crate::transfer::lemma_encode_snoc_pub(text@.take(i as int), text@[i as int]);
            assert(text@.take(i as int).push(text@[i as int]) =~= text@.take(i as int + 1));
        }
        i = i + 1;
    }
    push_char_utf8(&mut bytes, '\u{2026}');
    proof {
        crate::transfer::lemma_encode_snoc_pub(text@.take(max_chars as int), '\u{2026}');
        vstd::utf8::encode_utf8_valid_utf8(target);
        vstd::utf8::encode_utf8_decode_utf8(target);
        assert(bytes@ == vstd::utf8::encode_utf8(target));
    }
    match bytes_to_string(bytes.as_slice()) {
        Some(s) => s,
        None => {
            // unreachable: the bytes are a UTF-8 encoding by construction
            proof {
                assert(false);
            }
            String::new()
        },
    }
}

/// Append one character's UTF-8 encoding.
fn push_char_utf8(out: &mut Vec<u8>, c: char)
    ensures
        final(out)@ == old(out)@ + encode_scalar(c as u32),
{
    crate::transfer::push_char_utf8_pub(out, c)
}

/// The Win32 modifier flags and virtual-key code a hotkey label stands
/// for; zero pairs disable the hotkey.
pub open spec fn spec_hotkey(label: Seq<char>) -> Option<(u32, u32)> {
    if label == "Ctrl+Shift+V"@ {
        Some((0x0006u32, 0x56u32))
    } else if label == "Ctrl+Shift+C"@ {
        Some((0x0006u32, 0x43u32))
    } else if label == "Ctrl+Alt+V"@ {
        Some((0x0003u32, 0x56u32))
    } else if label == "Ctrl+Alt+C"@ {
        Some((0x0003u32, 0x43u32))
    } else if label == "Win+Shift+V"@ {
        Some((0x000Cu32, 0x56u32))
    } else if label == "None"@ {
        Some((0u32, 0u32))
    } else {
        None
    }
}

/// Look up a hotkey preset by its label.
pub fn find_hotkey_preset(label: &str) -> (r: Option<(u32, u32)>)
    ensures
        r == spec_hotkey(label@),
{
    if crate::strings::str_eq(label, "Ctrl+Shift+V") {
        Some((0x0006, 0x56))
    } else if crate::strings::str_eq(label, "Ctrl+Shift+C") {
        Some((0x0006, 0x43))
    } else if crate::strings::str_eq(label, "Ctrl+Alt+V") {
        Some((0x0003, 0x56))
    } else if crate::strings::str_eq(label, "Ctrl+Alt+C") {
        Some((0x0003, 0x43))
    } else if crate::strings::str_eq(label, "Win+Shift+V") {
        Some((0x000C, 0x56))
    } else if crate::strings::str_eq(label, "None") {
        Some((0, 0))
    } else {
        None
    }
}

} // verus!
