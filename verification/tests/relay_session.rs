use cliprelay::codec::encode_frame;
use cliprelay::relay::{check_hello, relay_classify, RelayDecision, Room, TokenBucket};
use cliprelay::session::{
    device_id_from, is_duplicate_of_applied, prepare_text_send, presence_apply, PresenceEffect,
    SendTextError,
};
use cliprelay::crypto::derive_room_key;
use cliprelay::relay::BUCKET_CAPACITY_MILLI;
use cliprelay::types::{
    ControlMessage, EncryptedPayload, Hello, PeerInfo, SaltExchange, WireMessage,
};

fn peer(id: &str) -> PeerInfo {
    PeerInfo { device_id: id.to_owned(), device_name: format!("name-{}", id) }
}

#[test]
fn device_id_from_is_deterministic_and_device_name_scoped() {
    let a1 = device_id_from("host-a", "user-a", "Laptop");
    let a2 = device_id_from("host-a", "user-a", "Laptop");
    assert_eq!(a1, a2);

    let b = device_id_from("host-a", "user-a", "Desktop");
    assert_ne!(a1, b);

    let c = device_id_from("host-b", "user-a", "Laptop");
    assert_ne!(a1, c);
}

#[test]
fn room_capacity_rejects_eleventh_device() {
    let mut room = Room::new();
    for i in 1..=10 {
        assert!(room.insert_peer(peer(&format!("dev-{}", i))));
    }
    assert_eq!(room.len(), 10);
    assert!(!room.insert_peer(peer("dev-overflow")));
    assert_eq!(room.len(), 10);
    // even a member reconnecting is refused while the room is full
    assert!(!room.insert_peer(peer("dev-1")));
    assert_eq!(room.len(), 10);
}

#[test]
fn rejoin_replaces_without_coexisting() {
    let mut room = Room::new();
    assert!(room.insert_peer(peer("dev-a")));
    assert!(room.insert_peer(PeerInfo {
        device_id: "dev-a".to_owned(),
        device_name: "renamed".to_owned(),
    }));
    assert_eq!(room.len(), 1);
    let ids = room.device_ids();
    assert_eq!(ids, vec!["dev-a".to_owned()]);
}

#[test]
fn fanout_excludes_sender() {
    let mut room = Room::new();
    assert!(room.insert_peer(peer("dev-a")));
    assert!(room.insert_peer(peer("dev-b")));
    let targets = room.fanout_targets("dev-a");
    assert_eq!(targets, vec!["dev-b".to_owned()]);
    assert!(room.remove_peer("dev-b"));
    assert!(room.fanout_targets("dev-a").is_empty());
}

#[test]
fn relay_drops_oversized_control_spoofed_and_garbage() {
    let mut bucket = TokenBucket::new(0);
    let oversized = vec![0u8; 300 * 1024 + 1];
    assert!(matches!(
        relay_classify(&oversized, "dev-a", &mut bucket, 1),
        RelayDecision::DropOversized
    ));
    assert!(matches!(
        relay_classify(&[0xFF, 0x00, 0xAB, 0xCD], "dev-a", &mut bucket, 2),
        RelayDecision::DropMalformed(_)
    ));
    let control = encode_frame(&WireMessage::Control(ControlMessage::Hello(Hello {
        room_id: "r".to_owned(),
        peer: peer("dev-a"),
    })))
    .unwrap();
    assert!(matches!(
        relay_classify(&control, "dev-a", &mut bucket, 3),
        RelayDecision::DropControl
    ));
    let spoofed = encode_frame(&WireMessage::Encrypted(EncryptedPayload {
        sender_device_id: "dev-spoofed".to_owned(),
        counter: 1,
        ciphertext: vec![1, 2, 3],
    }))
    .unwrap();
    assert!(matches!(
        relay_classify(&spoofed, "dev-a", &mut bucket, 4),
        RelayDecision::DropSpoofed
    ));
    let ok = encode_frame(&WireMessage::Encrypted(EncryptedPayload {
        sender_device_id: "dev-a".to_owned(),
        counter: 1,
        ciphertext: vec![9, 8, 7, 6, 5],
    }))
    .unwrap();
    match relay_classify(&ok, "dev-a", &mut bucket, 5) {
        RelayDecision::Forward(p) => {
            assert_eq!(p.sender_device_id, "dev-a");
            assert_eq!(p.counter, 1);
            assert_eq!(p.ciphertext, vec![9, 8, 7, 6, 5]);
        }
        other => panic!("unexpected: {:?}", decision_name(&other)),
    }
}

fn decision_name(d: &RelayDecision) -> &'static str {
    match d {
        RelayDecision::Forward(_) => "Forward",
        RelayDecision::DropOversized => "DropOversized",
        RelayDecision::DropMalformed(_) => "DropMalformed",
        RelayDecision::DropControl => "DropControl",
        RelayDecision::DropSpoofed => "DropSpoofed",
        RelayDecision::DropRateLimited => "DropRateLimited",
    }
}

#[test]
fn rate_limiter_drains_and_refills() {
    let mut bucket = TokenBucket::new(0);
    let mut sent = 0;
    while bucket.consume(0) {
        sent += 1;
    }
    assert_eq!(sent, (BUCKET_CAPACITY_MILLI / 1000) as usize);
    assert!(!bucket.consume(0));
    // 12 tokens per second: one second refills 12 messages
    for _ in 0..12 {
        assert!(bucket.consume(1000));
    }
    assert!(!bucket.consume(1000));
}

#[test]
fn hello_requires_all_fields() {
    let good = Hello { room_id: "r".to_owned(), peer: peer("dev-a") };
    assert!(check_hello(&good));
    let bad = Hello {
        room_id: "  ".to_owned(),
        peer: peer("dev-a"),
    };
    assert!(!check_hello(&bad));
    let bad2 = Hello {
        room_id: "r".to_owned(),
        peer: PeerInfo { device_id: "".to_owned(), device_name: "n".to_owned() },
    };
    assert!(!check_hello(&bad2));
}

#[test]
fn presence_salt_exchange_derives_the_room_key() {
    let mut peers = Room::new();
    let msg = ControlMessage::SaltExchange(SaltExchange {
        room_id: "ignored".to_owned(),
        device_ids: vec!["dev-b".to_owned(), "dev-a".to_owned()],
    });
    match presence_apply(&mut peers, "room-123", &msg) {
        PresenceEffect::KeyReady(k) => {
            let ids = vec!["dev-a".to_owned(), "dev-b".to_owned()];
            assert_eq!(k, derive_room_key("room-123", &ids).unwrap());
        }
        _ => panic!("expected KeyReady"),
    }
    match presence_apply(&mut peers, "  ", &msg) {
        PresenceEffect::KeyFailed => {}
        _ => panic!("expected KeyFailed"),
    }
}

#[test]
fn send_text_rejections_and_success() {
    let key = [1u8; 32];
    assert_eq!(
        prepare_text_send("dev-a", 0, 0, "   ", Some(&key)).unwrap_err(),
        SendTextError::EmptyText
    );
    let big = "x".repeat(256 * 1024 + 1);
    assert_eq!(
        prepare_text_send("dev-a", 0, 0, &big, Some(&key)).unwrap_err(),
        SendTextError::TooLarge
    );
    assert_eq!(
        prepare_text_send("dev-a", 0, 0, "hi", None).unwrap_err(),
        SendTextError::NoKey
    );
    let (counter, payload) = prepare_text_send("dev-a", 6, 123, "hi", Some(&key)).unwrap();
    assert_eq!(counter, 7);
    assert_eq!(payload.sender_device_id, "dev-a");
    assert_eq!(payload.counter, 7);
    let event = cliprelay::crypto::decrypt_clipboard_event(&key, &payload).unwrap();
    assert_eq!(event.text_utf8, "hi");
    assert_eq!(event.mime, "text/plain");
    assert_eq!(event.timestamp_unix_ms, 123);
}

#[test]
fn duplicate_of_applied_is_detected_by_hash() {
    let digest = cliprelay::crypto::sha256(b"same text");
    assert!(is_duplicate_of_applied("same text", Some(&digest)));
    assert!(!is_duplicate_of_applied("other text", Some(&digest)));
    assert!(!is_duplicate_of_applied("same text", None));
}
