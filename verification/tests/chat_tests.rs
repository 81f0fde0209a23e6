use onionchat::chat::{
    build_invite, chat_line_action, group_recipients, incoming_sender_label, incoming_text,
    normalize_known_members, remember_peer, sanitize_display_name, ChatLineAction,
};
use onionchat::error::OnionChatError;
use onionchat::identity::{signing_material, Identity};
use onionchat::storage::{GroupRecord, PeerBook};
use onionchat::transport::verify_invite;

const A: &str = "abcdefghijklmnopqrstuvwxabcdefghijklmnopqrstuvwxabcd2345";
const B: &str = "bcdefghijklmnopqrstuvwxabcdefghijklmnopqrstuvwxabcd23456";

fn identity() -> Identity {
    let (signing_secret_key, signing_public_key) = signing_material(&[21u8; 32]);
    Identity {
        service_id: A.into(),
        private_key: "ED25519-V3:k".into(),
        signing_secret_key,
        signing_public_key,
        encryption_secret_key: String::new(),
        encryption_public_key: "enc".into(),
        created_at_unix: 1,
    }
}

#[test]
fn display_names_are_cleaned_or_anonymous() {
    assert_eq!(sanitize_display_name("  alice\u{1b} ".into()), "alice");
    assert_eq!(sanitize_display_name(" \u{7}\t ".into()), "anonymous");
    assert_eq!(sanitize_display_name("y".repeat(90)).len(), 80);
}

#[test]
fn remembered_peer_is_stored_with_clean_name() {
    let mut peers = PeerBook::new();
    remember_peer(&mut peers, &format!("{A}.onion"), Some(" bob\u{7} ".into()), Some("key".into()), "invite")
        .unwrap();
    let found = peers.find(A).unwrap();
    assert_eq!(found.display_name.as_deref(), Some("bob"));
    assert_eq!(found.signing_public_key.as_deref(), Some("key"));
    assert_eq!(found.source, "invite");
    assert_eq!(
        remember_peer(&mut peers, "nope", None, None, "manual"),
        Err(OnionChatError::InvalidOnionAddress)
    );
    assert_eq!(peers.peers.len(), 1);
}

#[test]
fn group_members_must_be_known_peers() {
    let mut peers = PeerBook::new();
    peers.upsert_at(A, None, None, "manual", 1).unwrap();
    assert_eq!(
        normalize_known_members(&peers, &vec![format!("{}.onion", A.to_uppercase())]),
        Ok(vec![A.to_string()])
    );
    assert_eq!(
        normalize_known_members(&peers, &vec![A.to_string(), B.to_string()]),
        Err(OnionChatError::MissingPeer(B.to_string()))
    );
    assert_eq!(
        normalize_known_members(&peers, &vec!["bad".to_string(), B.to_string()]),
        Err(OnionChatError::InvalidOnionAddress)
    );
}

#[test]
fn group_messages_skip_the_sender() {
    let group = GroupRecord {
        id: "01".into(),
        name: "ops".into(),
        members: vec![A.into(), B.into()],
        created_at_unix: 1,
    };
    assert_eq!(group_recipients(&group, A), vec![B.to_string()]);
    assert_eq!(group_recipients(&group, "other"), vec![A.to_string(), B.to_string()]);
}

#[test]
fn built_invite_verifies() {
    let id = identity();
    let invite = build_invite(&id, Some("  carol ".into()), 55).unwrap();
    assert_eq!(invite.card.display_name, "carol");
    assert_eq!(invite.card.onion, format!("{A}.onion"));
    assert_eq!(invite.card.created_at_unix, 55);
    assert_eq!(invite.card.encryption_public_key, "enc");
    verify_invite(&invite).unwrap();
    let anonymous = build_invite(&id, None, 1).unwrap();
    assert_eq!(anonymous.card.display_name, "anonymous");
    let mut broken = identity();
    broken.signing_secret_key = "x".into();
    assert!(matches!(build_invite(&broken, None, 1), Err(OnionChatError::InvalidInvite)));
}

#[test]
fn typed_lines_are_sent_skipped_or_end_the_chat() {
    assert!(chat_line_action("  hello there \n") == Ok("hello there".to_string()));
    assert!(chat_line_action("   ") == Err(ChatLineAction::Skip));
    assert!(chat_line_action(" /quit ") == Err(ChatLineAction::Quit));
    assert!(chat_line_action("/exit") == Err(ChatLineAction::Quit));
    assert!(chat_line_action("/quitting") == Ok("/quitting".to_string()));
}

#[test]
fn incoming_messages_show_the_known_name() {
    let mut peers = PeerBook::new();
    peers.upsert_at(A, Some("alice".into()), None, "invite", 1).unwrap();
    peers.upsert_at(B, None, None, "inbound", 1).unwrap();
    assert_eq!(incoming_sender_label(&peers, &format!("{A}.onion")), "alice");
    assert_eq!(incoming_sender_label(&peers, B), B);
    assert_eq!(incoming_sender_label(&peers, "evil\u{1b}[0m"), "evil[0m");
    assert_eq!(incoming_text("alice", None, "hi\u{1b}!"), "\n[alice] hi!");
    assert_eq!(
        incoming_text("alice", Some("ops\u{7}"), "yo"),
        "\n[group:ops] [alice] yo"
    );
}
