use cliprelay::codec::{decode_frame, encode_frame};
use cliprelay::crypto::{
    build_nonce, decrypt_clipboard_event, derive_room_key, encrypt_clipboard_event,
    room_id_from_code,
};
use cliprelay::replay::{validate_counter, ReplayTable};
use cliprelay::types::{
    ClipboardEventPlaintext, ControlMessage, CoreError, EncryptedPayload, Hello, PeerInfo,
    SaltExchange, WireMessage,
};

fn sample_event(counter: u64) -> ClipboardEventPlaintext {
    ClipboardEventPlaintext {
        sender_device_id: "device-a".to_owned(),
        counter,
        timestamp_unix_ms: 1_735_000_000_000,
        mime: "text/plain".to_owned(),
        text_utf8: "hello cliprelay".to_owned(),
    }
}

#[test]
fn encryption_roundtrip() {
    let devices = vec!["device-a".to_owned(), "device-b".to_owned()];
    let key = derive_room_key("correct-horse-battery-staple", &devices).unwrap();
    let event = sample_event(1);
    let encrypted = encrypt_clipboard_event(&key, &event).unwrap();
    let decrypted = decrypt_clipboard_event(&key, &encrypted).unwrap();
    assert_eq!(event, decrypted);
}

#[test]
fn replay_rejection() {
    let mut replay_state = ReplayTable::new();
    validate_counter(&mut replay_state, "device-a", 5).unwrap();
    let err = validate_counter(&mut replay_state, "device-a", 5).unwrap_err();
    match err {
        CoreError::ReplayRejected { sender, counter, last_seen } => {
            assert_eq!(sender, "device-a");
            assert_eq!(counter, 5);
            assert_eq!(last_seen, 5);
        }
        _ => panic!("unexpected error variant"),
    }
}

#[test]
fn nonce_uniqueness() {
    let n1 = build_nonce("device-a", 1);
    let n2 = build_nonce("device-a", 2);
    let n3 = build_nonce("device-b", 1);
    assert_ne!(n1, n2);
    assert_ne!(n1, n3);
    assert_ne!(n2, n3);
}

#[test]
fn key_derivation_determinism() {
    let ids_1 = vec!["dev-a".to_owned(), "dev-b".to_owned(), "dev-c".to_owned()];
    let ids_2 = vec!["dev-c".to_owned(), "dev-a".to_owned(), "dev-b".to_owned()];
    let key_1 = derive_room_key("room-123", &ids_1).unwrap();
    let key_2 = derive_room_key("room-123", &ids_2).unwrap();
    assert_eq!(key_1, key_2);
}

#[test]
fn empty_room_code_is_rejected() {
    let ids = vec!["dev-a".to_owned()];
    let err = derive_room_key("   ", &ids).unwrap_err();
    assert_eq!(err, CoreError::EmptyRoomCode);
}

#[test]
fn room_id_is_lowercase_hex_of_sha256() {
    let id = room_id_from_code("room-123");
    assert_eq!(id.len(), 64);
    assert!(id.chars().all(|c| c.is_ascii_hexdigit() && !c.is_ascii_uppercase()));
    assert_eq!(id, room_id_from_code("room-123"));
    assert_ne!(id, room_id_from_code("room-124"));
}

#[test]
fn codec_roundtrip_control_messages() {
    let messages = vec![
        WireMessage::Control(ControlMessage::Hello(Hello {
            room_id: "room".to_owned(),
            peer: PeerInfo {
                device_id: "dev-a".to_owned(),
                device_name: "Laptop \"A\"\n".to_owned(),
            },
        })),
        WireMessage::Control(ControlMessage::SaltExchange(SaltExchange {
            room_id: "room".to_owned(),
            device_ids: vec!["dev-a".to_owned(), "dev-b".to_owned()],
        })),
        WireMessage::Control(ControlMessage::Error { message: "bad \\ things".to_owned() }),
        WireMessage::Encrypted(EncryptedPayload {
            sender_device_id: "dev-a".to_owned(),
            counter: 7,
            ciphertext: vec![9, 8, 7, 6, 5],
        }),
    ];
    for m in messages {
        let bytes = encode_frame(&m).unwrap();
        let back = decode_frame(&bytes).unwrap();
        assert_eq!(m, back);
    }
}

#[test]
fn truncated_frame_is_rejected() {
    let m = WireMessage::Encrypted(EncryptedPayload {
        sender_device_id: "dev-a".to_owned(),
        counter: 1,
        ciphertext: vec![1, 2, 3],
    });
    let bytes = encode_frame(&m).unwrap();
    for cut in 0..bytes.len() {
        assert!(decode_frame(&bytes[..cut]).is_err());
    }
}

#[test]
fn unknown_type_byte_is_rejected() {
    let frame = vec![0x02, 0x00, 0x00, 0x00, 0xFF, 0xAB];
    match decode_frame(&frame) {
        Err(CoreError::UnsupportedMessageType(b)) => assert_eq!(b, 0xFF),
        other => panic!("unexpected: {:?}", other),
    }
}

#[test]
fn garbage_frame_is_rejected() {
    assert!(decode_frame(&[0xFF, 0x00, 0xAB, 0xCD]).is_err());
}

#[test]
fn payload_identity_mismatch_is_detected() {
    let devices = vec!["device-a".to_owned(), "device-b".to_owned()];
    let key = derive_room_key("room", &devices).unwrap();
    let event = sample_event(3);
    let mut encrypted = encrypt_clipboard_event(&key, &event).unwrap();
    // re-seal under the envelope nonce of a different counter
    let inner = sample_event(4);
    let forged = encrypt_clipboard_event(&key, &inner).unwrap();
    encrypted.ciphertext = forged.ciphertext;
    // envelope still claims counter 3, inner says 4, sealed under nonce 4
    match decrypt_clipboard_event(&key, &encrypted) {
        Err(CoreError::DecryptionFailed) => {}
        other => panic!("unexpected: {:?}", other),
    }
    // same inner/outer mismatch, but sealed under the envelope nonce
    let spoof = EncryptedPayload {
        sender_device_id: inner.sender_device_id.clone(),
        counter: 9,
        ciphertext: {
            let carrier = ClipboardEventPlaintext { counter: 9, ..inner.clone() };
            let sealed = encrypt_clipboard_event(&key, &carrier).unwrap();
            let _ = sealed;
            // seal the *mismatched* plaintext under counter 9's nonce by
            // encrypting an event that repeats counter 4 in its body
            let mismatched = ClipboardEventPlaintext { counter: 4, ..inner.clone() };
            let json = cliprelay::jmsg::event_json_vec(&mismatched);
            let nonce = build_nonce(&inner.sender_device_id, 9);
            let aad = b"cliprelay:v1".to_vec();
            cliprelay::crypto::aead_seal(&key, &nonce, &aad, &json).unwrap()
        },
    };
    match decrypt_clipboard_event(&key, &spoof) {
        Err(CoreError::PayloadIdentityMismatch) => {}
        other => panic!("unexpected: {:?}", other),
    }
}

#[test]
fn mime_and_size_bounds_are_enforced() {
    let key = [7u8; 32];
    let mut event = sample_event(1);
    event.mime = "   ".to_owned();
    assert_eq!(encrypt_clipboard_event(&key, &event).unwrap_err(), CoreError::InvalidMime);
    let mut event = sample_event(1);
    event.mime = "x".repeat(129);
    assert_eq!(encrypt_clipboard_event(&key, &event).unwrap_err(), CoreError::InvalidMime);
    let mut event = sample_event(1);
    event.text_utf8 = "y".repeat(256 * 1024 + 1);
    assert_eq!(encrypt_clipboard_event(&key, &event).unwrap_err(), CoreError::ClipboardTooLarge);
}
