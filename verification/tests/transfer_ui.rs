use cliprelay::autostart::{autostart_command, is_enabled, set_enabled, wide_null};
use cliprelay::transfer::{
    b64_encode, build_chunk_envelope, chunk_json_vec, handle_file_chunk, make_transfer_id,
    prepare_file_send, sanitize_file_name, FileChunkEnvelope, FileSendError, TransferTable,
};
use cliprelay::ui::{
    clamp_placement_in_rect, find_hotkey_preset, preview_text, scale_px, WindowPlacement,
    CHOOSE_ROOM_DEFAULT_W_PX, OPTIONS_DEFAULT_H_PX, OPTIONS_DEFAULT_W_PX, OPTIONS_MIN_H_PX,
    OPTIONS_MIN_W_PX,
};

#[test]
fn file_chunk_reassembly_returns_expected_bytes() {
    let sender = "sender-dev";
    let data = b"hello file over cliprelay".to_vec();
    let env = FileChunkEnvelope {
        transfer_id: "test-transfer".to_owned(),
        file_name: "hello.txt".to_owned(),
        total_size: data.len() as u64,
        chunk_index: 0,
        total_chunks: 1,
        chunk_b64: b64_encode(&data),
    };
    let text = String::from_utf8(chunk_json_vec(&env)).unwrap();
    let mut table = TransferTable::new();
    let (name, bytes) = handle_file_chunk(&mut table, sender, &text, 1_000).unwrap();
    assert_eq!(bytes, data);
    assert_eq!(name, "hello.txt");
}

#[test]
fn multi_chunk_reassembly_is_idempotent_under_duplicates() {
    let sender = "sender-dev";
    let part_a = vec![b'a'; 7];
    let part_b = vec![b'b'; 5];
    let mut data = part_a.clone();
    data.extend_from_slice(&part_b);
    let tid = make_transfer_id(sender, 42, "two.bin");
    let mut table = TransferTable::new();
    let mk = |index: u32, raw: &[u8]| FileChunkEnvelope {
        transfer_id: tid.clone(),
        file_name: "two.bin".to_owned(),
        total_size: data.len() as u64,
        chunk_index: index,
        total_chunks: 2,
        chunk_b64: b64_encode(raw),
    };
    let t0 = String::from_utf8(chunk_json_vec(&mk(0, &part_a))).unwrap();
    let t1 = String::from_utf8(chunk_json_vec(&mk(1, &part_b))).unwrap();
    assert!(handle_file_chunk(&mut table, sender, &t0, 1).is_none());
    // a duplicate of the same chunk neither completes nor corrupts
    assert!(handle_file_chunk(&mut table, sender, &t0, 2).is_none());
    let (_, bytes) = handle_file_chunk(&mut table, sender, &t1, 3).unwrap();
    assert_eq!(bytes, data);
}

#[test]
fn invalid_envelopes_are_dropped() {
    let mut table = TransferTable::new();
    assert!(handle_file_chunk(&mut table, "s", "not json", 0).is_none());
    let bad = FileChunkEnvelope {
        transfer_id: "t".to_owned(),
        file_name: "f".to_owned(),
        total_size: 0,
        chunk_index: 0,
        total_chunks: 1,
        chunk_b64: b64_encode(b"x"),
    };
    let text = String::from_utf8(chunk_json_vec(&bad)).unwrap();
    assert!(handle_file_chunk(&mut table, "s", &text, 0).is_none());
    let bad2 = FileChunkEnvelope {
        transfer_id: "t".to_owned(),
        file_name: "f".to_owned(),
        total_size: 1,
        chunk_index: 5,
        total_chunks: 2,
        chunk_b64: b64_encode(b"x"),
    };
    let text2 = String::from_utf8(chunk_json_vec(&bad2)).unwrap();
    assert!(handle_file_chunk(&mut table, "s", &text2, 0).is_none());
}

#[test]
fn chunk_envelope_fields_survive_encoding() {
    let data = vec![1u8, 2, 3, 4, 5];
    let env = build_chunk_envelope("tid", "name.bin", &data, 0, 1);
    assert_eq!(env.total_size, 5);
    assert_eq!(env.total_chunks, 1);
    assert_eq!(env.chunk_b64, b64_encode(&data));
}

#[test]
fn transfer_ids_are_hex_and_scoped() {
    let a = make_transfer_id("dev-a", 1000, "f.txt");
    assert_eq!(a.len(), 32);
    assert!(a.chars().all(|c| c.is_ascii_hexdigit()));
    assert_ne!(a, make_transfer_id("dev-b", 1000, "f.txt"));
    assert_ne!(a, make_transfer_id("dev-a", 1001, "f.txt"));
}

#[test]
fn sanitize_file_name_replaces_trims_and_truncates() {
    assert_eq!(sanitize_file_name("a/b\\c:d*e?f\"g<h>i|j"), "a_b_c_d_e_f_g_h_i_j");
    assert_eq!(sanitize_file_name("   "), "file.bin");
    assert_eq!(sanitize_file_name(""), "file.bin");
    assert_eq!(sanitize_file_name("  ok.txt  "), "ok.txt");
    let long = "x".repeat(200);
    assert_eq!(sanitize_file_name(&long).chars().count(), 128);
    assert_eq!(sanitize_file_name("tab\u{0009}name"), "tab_name");
}

#[test]
fn clamp_placement_in_rect_handles_negative_coords() {
    // a left-side monitor in a dual-monitor setup
    let rect = [-1920, 0, 0, 1080];
    let placement = WindowPlacement { x: -5000, y: -200, w: 10_000, h: 10_000 };

    let clamped = clamp_placement_in_rect(placement, 300, 200, 16, rect);
    assert!(clamped.w >= 300);
    assert!(clamped.h >= 200);
    assert!(clamped.x >= rect[0]);
    assert!(clamped.x <= rect[2]);
    assert!(clamped.y >= rect[1]);
    assert!(clamped.y <= rect[3]);
}

#[test]
fn ui_size_constants_are_reasonable() {
    assert!(OPTIONS_DEFAULT_W_PX >= 600);
    assert!(OPTIONS_DEFAULT_H_PX >= 460);
    assert!(OPTIONS_MIN_W_PX >= 480);
    assert!(OPTIONS_MIN_H_PX >= 360);
    assert!(CHOOSE_ROOM_DEFAULT_W_PX >= 520);
}

#[test]
fn autostart_command_quotes_and_background() {
    let cmd = autostart_command(r"C:\Program Files\ClipRelay\cliprelay-client.exe");
    assert!(cmd.starts_with('"'));
    assert!(cmd.contains("\" --background"));
}

#[test]
fn wide_null_has_trailing_nul() {
    let v = wide_null("abc");
    assert_eq!(v.last().copied(), Some(0));
}

#[test]
fn autostart_stubs_report_disabled() {
    assert_eq!(is_enabled("exe", "ClipRelay"), Ok(false));
    assert!(set_enabled("exe", "ClipRelay", true).is_ok());
}

#[test]
fn preview_text_truncates_with_ellipsis() {
    assert_eq!(preview_text("short", 10), "short");
    assert_eq!(preview_text("hello world", 5), "hello\u{2026}");
    assert_eq!(scale_px(42), 42);
}

#[test]
fn hotkey_presets_resolve_labels() {
    assert_eq!(find_hotkey_preset("Ctrl+Shift+V"), Some((6, 0x56)));
    assert_eq!(find_hotkey_preset("None"), Some((0, 0)));
    assert_eq!(find_hotkey_preset("Ctrl+Q"), None);
}

#[test]
fn file_send_and_reassembly_round_trip() {
    let key = [9u8; 32];
    let data: Vec<u8> = (0..200_000u32).map(|i| (i % 251) as u8).collect();
    let (counter, payloads) = prepare_file_send("dev-a", 5, 777, "big.bin", &data, &key).unwrap();
    assert_eq!(payloads.len(), 4);
    assert_eq!(counter, 9);
    let mut table = TransferTable::new();
    let mut completed = None;
    for (i, p) in payloads.iter().enumerate() {
        assert_eq!(p.counter, 5 + i as u64 + 1);
        let event = cliprelay::crypto::decrypt_clipboard_event(&key, p).unwrap();
        assert_eq!(event.mime, "application/x-cliprelay-file-chunk+json;base64");
        let got = handle_file_chunk(&mut table, "dev-a", &event.text_utf8, 1_000);
        if i + 1 < payloads.len() {
            assert!(got.is_none());
        } else {
            completed = got;
        }
    }
    let (name, bytes) = completed.expect("last chunk completes the transfer");
    assert_eq!(name, "big.bin");
    assert_eq!(bytes, data);
}

#[test]
fn file_send_rejections() {
    let key = [9u8; 32];
    assert_eq!(
        prepare_file_send("dev-a", 0, 0, "f", &[], &key).unwrap_err(),
        FileSendError::EmptyFile
    );
    let big = vec![0u8; 5 * 1024 * 1024 + 1];
    assert_eq!(
        prepare_file_send("dev-a", 0, 0, "f", &big, &key).unwrap_err(),
        FileSendError::TooLarge
    );
}

