use base64::Engine;
use ed25519_dalek::{Signer, SigningKey};
use onionchat::config::AppConfig;
use onionchat::error::OnionChatError;
use onionchat::transport::{
    check_frame_payload, decrypt_message, encode_frame, encrypt_message, encrypt_message_with_nonce,
    frame_payload_length, sanitize_label, sanitize_terminal, validate_peer_onion, verify_group_invite,
    verify_invite, verify_message, ContactCard, GroupInvite, GroupInviteFile, InviteFile, MessageEnvelope,
    MessagePayload, PROTOCOL_VERSION,
};
use rand::RngCore;
use sha2::{Digest, Sha256};
use x25519_dalek::{PublicKey as EncryptionPublicKey, StaticSecret};

fn b64(bytes: &[u8]) -> String {
    base64::engine::general_purpose::STANDARD.encode(bytes)
}

fn sample_message() -> MessageEnvelope {
    MessageEnvelope {
        version: PROTOCOL_VERSION,
        from: "peer.onion".into(),
        timestamp_unix: 42,
        payload: MessagePayload::Direct {
            nonce: "nonce".into(),
            ciphertext: "ciphertext".into(),
        },
        signature: String::new(),
    }
}

fn random_secret() -> [u8; 32] {
    let mut secret = [0u8; 32];
    rand::rngs::OsRng.fill_bytes(&mut secret);
    secret
}

#[test]
fn message_round_trip() {
    let config = AppConfig::default();
    let message = sample_message();

    let frame = encode_frame(&message, &config).unwrap();
    let decoded: serde_json::Value = serde_json::from_slice(&frame[4..]).unwrap();
    assert_eq!(decoded["version"].as_u64(), Some(PROTOCOL_VERSION as u64));
    assert_eq!(decoded["from"].as_str(), Some("peer.onion"));
    assert_eq!(decoded["timestamp_unix"].as_u64(), Some(42));
    assert_eq!(decoded["payload"]["kind"].as_str(), Some("direct"));
    assert_eq!(decoded["payload"]["nonce"].as_str(), Some("nonce"));
    assert_eq!(decoded["payload"]["ciphertext"].as_str(), Some("ciphertext"));
    assert!(decoded.get("signature").is_none());
    assert_eq!(frame_payload_length(&frame[..4], &config), Ok(frame.len() - 4));
    assert_eq!(check_frame_payload(&frame[4..], &config), Ok(()));
}

#[test]
fn sanitizer_strips_escape_sequences() {
    let clean = sanitize_terminal("ok\x1b[31mtext");
    assert_eq!(clean, "ok[31mtext");
}

#[test]
fn invite_signature_verifies() {
    let secret = random_secret();
    let signing_key = ed25519_dalek::SigningKey::from_bytes(&secret);
    let card = ContactCard {
        version: PROTOCOL_VERSION,
        display_name: "alice".into(),
        onion: "abcdefghijklmnopqrstuvwxabcdefghijklmnopqrstuvwxabcd2345".into(),
        signing_public_key: b64(&signing_key.verifying_key().to_bytes()),
        encryption_public_key: b64(&signing_key.verifying_key().to_bytes()),
        created_at_unix: 1,
    };
    let signature = signing_key.sign(&card.canonical_bytes());
    let invite = InviteFile { card, signature: b64(&signature.to_bytes()) };

    verify_invite(&invite).unwrap();
}

#[test]
fn message_signature_verifies() {
    let secret = random_secret();
    let signing_key = SigningKey::from_bytes(&secret);
    let mut message = sample_message();

    message.sign(&secret);

    verify_message(&message, &b64(&signing_key.verifying_key().to_bytes())).unwrap();
}

#[test]
fn group_invite_signature_verifies() {
    let secret = random_secret();
    let signing_key = SigningKey::from_bytes(&secret);
    let group = GroupInvite {
        version: PROTOCOL_VERSION,
        group_id: "deadbeefcafebabe".into(),
        group_name: "ops".into(),
        owner: "abcdefghijklmnopqrstuvwxabcdefghijklmnopqrstuvwxabcd2345".into(),
        owner_signing_public_key: b64(&signing_key.verifying_key().to_bytes()),
        members: vec![
            "abcdefghijklmnopqrstuvwxabcdefghijklmnopqrstuvwxabcd2345".into(),
            "bcdefghijklmnopqrstuvwxabcdefghijklmnopqrstuvwxabcd23456".into(),
        ],
        revision: 1,
        created_at_unix: 1,
    };
    let signature = signing_key.sign(&group.canonical_bytes());
    let invite = GroupInviteFile { group, signature: b64(&signature.to_bytes()) };

    verify_group_invite(&invite).unwrap();
}

#[test]
fn message_encryption_round_trip() {
    let sender_bytes = random_secret();
    let recipient_bytes = random_secret();
    let sender_secret = StaticSecret::from(sender_bytes);
    let recipient_secret = StaticSecret::from(recipient_bytes);
    let recipient_public = EncryptionPublicKey::from(&recipient_secret);
    let sender_public = EncryptionPublicKey::from(&sender_secret);

    let (nonce, ciphertext) =
        encrypt_message("hello", &sender_bytes, &b64(recipient_public.as_bytes())).unwrap();
    let plaintext =
        decrypt_message(&nonce, &ciphertext, &recipient_bytes, &b64(sender_public.as_bytes())).unwrap();

    assert_eq!(plaintext, "hello");
}

#[test]
fn encryption_with_fixed_nonce_is_deterministic_and_hides_text() {
    let sender_bytes = [7u8; 32];
    let recipient_bytes = [9u8; 32];
    let recipient_public = EncryptionPublicKey::from(&StaticSecret::from(recipient_bytes));
    let sender_public = EncryptionPublicKey::from(&StaticSecret::from(sender_bytes));
    let nonce = [3u8; 12];
    let first =
        encrypt_message_with_nonce("hello", &sender_bytes, &b64(recipient_public.as_bytes()), &nonce)
            .unwrap();
    let second =
        encrypt_message_with_nonce("hello", &sender_bytes, &b64(recipient_public.as_bytes()), &nonce)
            .unwrap();
    assert_eq!(first, second);
    assert_eq!(first.0, b64(&nonce));
    assert_ne!(first.1, b64(b"hello"));
    let plaintext =
        decrypt_message(&first.0, &first.1, &recipient_bytes, &b64(sender_public.as_bytes())).unwrap();
    assert_eq!(plaintext, "hello");
}

#[test]
fn encryption_refuses_a_bad_recipient_key() {
    let sender_bytes = [7u8; 32];
    assert_eq!(
        encrypt_message("hello", &sender_bytes, "not base64!"),
        Err(OnionChatError::MessageEncryptionFailed)
    );
    assert_eq!(
        encrypt_message("hello", &sender_bytes, &b64(&[1u8; 16])),
        Err(OnionChatError::MessageEncryptionFailed)
    );
}

#[test]
fn decryption_refuses_tampered_ciphertext() {
    let sender_bytes = [5u8; 32];
    let recipient_bytes = [6u8; 32];
    let recipient_public = EncryptionPublicKey::from(&StaticSecret::from(recipient_bytes));
    let sender_public = EncryptionPublicKey::from(&StaticSecret::from(sender_bytes));
    let (nonce, ciphertext) =
        encrypt_message("secret words", &sender_bytes, &b64(recipient_public.as_bytes())).unwrap();
    let mut raw = base64::engine::general_purpose::STANDARD.decode(ciphertext).unwrap();
    raw[0] ^= 1;
    assert_eq!(
        decrypt_message(&nonce, &b64(&raw), &recipient_bytes, &b64(sender_public.as_bytes())),
        Err(OnionChatError::MessageDecryptionFailed)
    );
    assert_eq!(
        decrypt_message("@@", &b64(&raw), &recipient_bytes, &b64(sender_public.as_bytes())),
        Err(OnionChatError::MessageDecryptionFailed)
    );
}

#[test]
fn tampered_invite_is_refused() {
    let secret = [11u8; 32];
    let signing_key = SigningKey::from_bytes(&secret);
    let card = ContactCard {
        version: PROTOCOL_VERSION,
        display_name: "alice".into(),
        onion: "abcdefghijklmnopqrstuvwxabcdefghijklmnopqrstuvwxabcd2345".into(),
        signing_public_key: b64(&signing_key.verifying_key().to_bytes()),
        encryption_public_key: b64(&[0u8; 32]),
        created_at_unix: 1,
    };
    let signature = signing_key.sign(&card.canonical_bytes());
    let mut invite = InviteFile { card, signature: b64(&signature.to_bytes()) };
    invite.card.display_name = "mallory".into();
    assert_eq!(verify_invite(&invite), Err(OnionChatError::InvalidInvite));
}

#[test]
fn signed_invite_with_bad_address_is_refused() {
    let secret = [12u8; 32];
    let signing_key = SigningKey::from_bytes(&secret);
    let card = ContactCard {
        version: PROTOCOL_VERSION,
        display_name: "bob".into(),
        onion: "not-an-onion".into(),
        signing_public_key: b64(&signing_key.verifying_key().to_bytes()),
        encryption_public_key: b64(&[0u8; 32]),
        created_at_unix: 1,
    };
    let signature = signing_key.sign(&card.canonical_bytes());
    let invite = InviteFile { card, signature: b64(&signature.to_bytes()) };
    assert_eq!(verify_invite(&invite), Err(OnionChatError::InvalidOnionAddress));
}

#[test]
fn group_invite_without_owner_among_members_is_refused() {
    let secret = [13u8; 32];
    let signing_key = SigningKey::from_bytes(&secret);
    let group = GroupInvite {
        version: PROTOCOL_VERSION,
        group_id: "deadbeefcafebabe".into(),
        group_name: "ops".into(),
        owner: "abcdefghijklmnopqrstuvwxabcdefghijklmnopqrstuvwxabcd2345".into(),
        owner_signing_public_key: b64(&signing_key.verifying_key().to_bytes()),
        members: vec!["bcdefghijklmnopqrstuvwxabcdefghijklmnopqrstuvwxabcd23456".into()],
        revision: 1,
        created_at_unix: 1,
    };
    let signature = signing_key.sign(&group.canonical_bytes());
    let invite = GroupInviteFile { group, signature: b64(&signature.to_bytes()) };
    assert_eq!(verify_group_invite(&invite), Err(OnionChatError::InvalidGroupInvite));
}

#[test]
fn message_signed_by_another_key_is_refused() {
    let mut message = sample_message();
    message.sign(&[1u8; 32]);
    let other = SigningKey::from_bytes(&[2u8; 32]);
    assert_eq!(
        verify_message(&message, &b64(&other.verifying_key().to_bytes())),
        Err(OnionChatError::InvalidMessageSignature)
    );
    let unsigned = sample_message();
    let key = SigningKey::from_bytes(&[1u8; 32]);
    assert_eq!(
        verify_message(&unsigned, &b64(&key.verifying_key().to_bytes())),
        Err(OnionChatError::InvalidMessageSignature)
    );
}

#[test]
fn signed_message_carries_its_signature_in_the_frame() {
    let config = AppConfig::default();
    let mut message = sample_message();
    message.sign(&[4u8; 32]);
    let key = SigningKey::from_bytes(&[4u8; 32]);
    let expected = key.sign(&sample_message().canonical_bytes());
    assert_eq!(message.signature, b64(&expected.to_bytes()));
    let frame = encode_frame(&message, &config).unwrap();
    let decoded: serde_json::Value = serde_json::from_slice(&frame[4..]).unwrap();
    assert_eq!(decoded["signature"].as_str(), Some(message.signature.as_str()));
}

#[test]
fn canonical_bytes_are_compact_json_in_field_order() {
    let message = sample_message();
    assert_eq!(
        String::from_utf8(message.canonical_bytes()).unwrap(),
        "{\"version\":1,\"from\":\"peer.onion\",\"timestamp_unix\":42,\"payload\":{\"kind\":\"direct\",\"nonce\":\"nonce\",\"ciphertext\":\"ciphertext\"}}"
    );
}

#[test]
fn oversized_frame_is_refused() {
    let mut config = AppConfig::default();
    config.app.max_message_bytes = 10;
    let message = sample_message();
    let len = message.to_json_bytes().len();
    assert_eq!(encode_frame(&message, &config), Err(OnionChatError::MessageTooLarge(len)));
    assert_eq!(
        frame_payload_length(&[0, 0, 1, 0], &config),
        Err(OnionChatError::MessageTooLarge(256))
    );
    assert_eq!(frame_payload_length(&[0, 0, 0, 10], &config), Ok(10));
    assert_eq!(
        check_frame_payload(&[0u8; 11], &config),
        Err(OnionChatError::MessageTooLarge(11))
    );
}

#[test]
fn frame_header_is_big_endian_length() {
    let config = AppConfig::default();
    let message = sample_message();
    let frame = encode_frame(&message, &config).unwrap();
    let len = frame.len() - 4;
    assert_eq!(frame[0], 0);
    assert_eq!(frame[1], 0);
    assert_eq!(frame[2], (len / 256) as u8);
    assert_eq!(frame[3], (len % 256) as u8);
    assert_eq!(frame_payload_length(&[0, 0, 0x0f, 0xff], &config), Ok(4095));
}

#[test]
fn peer_addresses_are_normalized() {
    let id = "abcdefghijklmnopqrstuvwxabcdefghijklmnopqrstuvwxabcd2345";
    assert_eq!(validate_peer_onion(id), Ok(id.to_string()));
    assert_eq!(
        validate_peer_onion("  ABCDEFGHIJKLMNOPQRSTUVWXABCDEFGHIJKLMNOPQRSTUVWXABCD2345.onion "),
        Ok(id.to_string())
    );
    assert_eq!(validate_peer_onion(&format!("{id}.onion.onion")), Ok(id.to_string()));
    assert_eq!(validate_peer_onion("short"), Err(OnionChatError::InvalidOnionAddress));
    assert_eq!(
        validate_peer_onion("abcdefghijklmnopqrstuvwxabcdefghijklmnopqrstuvwxabcd2341"),
        Err(OnionChatError::InvalidOnionAddress)
    );
    assert_eq!(
        validate_peer_onion(&format!("{id}.ONION")),
        Err(OnionChatError::InvalidOnionAddress)
    );
    let normalized = validate_peer_onion(&format!("{}.onion", id.to_uppercase())).unwrap();
    assert_eq!(validate_peer_onion(&normalized), Ok(normalized.clone()));
}

#[test]
fn labels_are_sanitized_trimmed_and_cut() {
    assert_eq!(sanitize_label("  hi\u{7}there \n"), "hithere");
    let long: String = "x".repeat(100);
    assert_eq!(sanitize_label(&long).chars().count(), 80);
    assert_eq!(sanitize_terminal("a\tb\nc\u{0}d\u{9b}e"), "a\tb\ncde");
    let once = sanitize_terminal("\u{1b}[2Jclear\r");
    assert_eq!(sanitize_terminal(&once), once);
}

#[test]
fn message_key_is_sha256_of_label_and_secret() {
    let shared = [0x42u8; 32];
    let mut hasher = Sha256::new();
    hasher.update(b"onionchat-message-v1");
    hasher.update(shared);
    let expected: Vec<u8> = hasher.finalize().to_vec();
    assert_eq!(onionchat::transport::derive_message_key(&shared), expected);
}

#[test]
fn canonical_card_bytes_escape_text_as_json() {
    let card = ContactCard {
        version: PROTOCOL_VERSION,
        display_name: "a\"b\\c\nd\u{1}é".into(),
        onion: "x".into(),
        signing_public_key: "k".into(),
        encryption_public_key: "e".into(),
        created_at_unix: 18446744073709551615,
    };
    let expected = format!(
        "{{\"version\":1,\"display_name\":{},\"onion\":\"x\",\"signing_public_key\":\"k\",\"encryption_public_key\":\"e\",\"created_at_unix\":18446744073709551615}}",
        serde_json::to_string("a\"b\\c\nd\u{1}é").unwrap()
    );
    assert_eq!(String::from_utf8(card.canonical_bytes()).unwrap(), expected);
}

#[test]
fn signed_bytes_cover_every_field_but_the_signature() {
    let base = sample_message();
    let mut signed = sample_message();
    signed.signature = "sig".into();
    assert_eq!(base.canonical_bytes(), signed.canonical_bytes());
    let mut later = sample_message();
    later.timestamp_unix = 43;
    assert_ne!(base.canonical_bytes(), later.canonical_bytes());
    let mut other_sender = sample_message();
    other_sender.from = "peer.onio".into();
    assert_ne!(base.canonical_bytes(), other_sender.canonical_bytes());
    let group = MessageEnvelope {
        payload: MessagePayload::Group {
            group_id: "g".into(),
            group_name: "n".into(),
            nonce: "nonce".into(),
            ciphertext: "ciphertext".into(),
        },
        ..sample_message()
    };
    assert_ne!(base.canonical_bytes(), group.canonical_bytes());
}

#[test]
fn messages_are_stamped_with_the_given_time() {
    let direct = MessageEnvelope::direct_at("me.onion".into(), "n".into(), "c".into(), 77);
    assert_eq!(direct.version, PROTOCOL_VERSION);
    assert_eq!(direct.from, "me.onion");
    assert_eq!(direct.timestamp_unix, 77);
    assert_eq!(direct.payload, MessagePayload::Direct { nonce: "n".into(), ciphertext: "c".into() });
    assert!(direct.signature.is_empty());
    let group = MessageEnvelope::group_at("me.onion".into(), "g".into(), "ops".into(), "n".into(), "c".into(), 78);
    assert_eq!(group.timestamp_unix, 78);
    assert_eq!(
        group.payload,
        MessagePayload::Group {
            group_id: "g".into(),
            group_name: "ops".into(),
            nonce: "n".into(),
            ciphertext: "c".into()
        }
    );
    let now = MessageEnvelope::direct("me.onion".into(), "n".into(), "c".into());
    assert!(now.timestamp_unix > 1_600_000_000);
}
