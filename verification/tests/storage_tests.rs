use onionchat::error::OnionChatError;
use onionchat::storage::{GroupBook, PeerBook, Storage};

const A: &str = "abcdefghijklmnopqrstuvwxabcdefghijklmnopqrstuvwxabcd2345";
const B: &str = "bcdefghijklmnopqrstuvwxabcdefghijklmnopqrstuvwxabcd23456";
const C: &str = "cdefghijklmnopqrstuvwxabcdefghijklmnopqrstuvwxabcd234567";

fn onions(book: &PeerBook) -> Vec<String> {
    book.peers.iter().map(|p| p.onion.clone()).collect()
}

#[test]
fn upserted_peer_is_found_under_any_spelling_of_its_address() {
    let mut book = PeerBook::new();
    book.upsert_at(&format!("{}.onion", A.to_uppercase()), Some("alice".into()), None, "invite", 100)
        .unwrap();
    let found = book.find(A).unwrap();
    assert_eq!(found.onion, A);
    assert_eq!(found.display_name.as_deref(), Some("alice"));
    assert_eq!(found.added_at_unix, 100);
    assert_eq!(found.last_used_unix, 100);
    assert_eq!(found.source, "invite");
    assert!(book.find(&format!("  {A}.onion ")).is_some());
    assert!(book.find(B).is_none());
    assert!(book.find("nonsense").is_none());
}

#[test]
fn upsert_refreshes_an_existing_peer_in_place() {
    let mut book = PeerBook::new();
    book.upsert_at(A, Some("alice".into()), Some("key1".into()), "invite", 100).unwrap();
    book.upsert_at(A, None, None, "inbound", 200).unwrap();
    assert_eq!(book.peers.len(), 1);
    let found = book.find(A).unwrap();
    assert_eq!(found.display_name.as_deref(), Some("alice"));
    assert_eq!(found.signing_public_key.as_deref(), Some("key1"));
    assert_eq!(found.added_at_unix, 100);
    assert_eq!(found.last_used_unix, 200);
    assert_eq!(found.source, "inbound");
    book.upsert_at(A, Some("alicia".into()), Some("key2".into()), "manual", 300).unwrap();
    let found = book.find(A).unwrap();
    assert_eq!(found.display_name.as_deref(), Some("alicia"));
    assert_eq!(found.signing_public_key.as_deref(), Some("key2"));
}

#[test]
fn new_peers_keep_the_book_sorted_by_address() {
    let mut book = PeerBook::new();
    book.upsert_at(C, None, None, "manual", 1).unwrap();
    book.upsert_at(A, None, None, "manual", 2).unwrap();
    book.upsert_at(B, None, None, "manual", 3).unwrap();
    assert_eq!(onions(&book), vec![A.to_string(), B.to_string(), C.to_string()]);
}

#[test]
fn invalid_address_leaves_the_book_unchanged() {
    let mut book = PeerBook::new();
    book.upsert_at(A, None, None, "manual", 1).unwrap();
    assert_eq!(
        book.upsert_at("bad address", None, None, "manual", 2),
        Err(OnionChatError::InvalidOnionAddress)
    );
    assert_eq!(onions(&book), vec![A.to_string()]);
    assert_eq!(
        book.upsert("also bad", None, None, "manual"),
        Err(OnionChatError::InvalidOnionAddress)
    );
    assert_eq!(book.peers.len(), 1);
}

#[test]
fn touch_sets_only_the_last_use() {
    let mut book = PeerBook::new();
    book.upsert_at(A, Some("alice".into()), None, "invite", 10).unwrap();
    book.touch_at(&format!("{A}.onion"), 99);
    let found = book.find(A).unwrap();
    assert_eq!(found.last_used_unix, 99);
    assert_eq!(found.added_at_unix, 10);
    assert_eq!(found.source, "invite");
    book.touch_at(B, 500);
    book.touch_at("bad", 500);
    assert_eq!(book.peers.len(), 1);
    assert_eq!(book.find(A).unwrap().last_used_unix, 99);
}

#[test]
fn upsert_and_touch_use_the_clock() {
    let mut book = PeerBook::new();
    book.upsert(A, None, None, "manual").unwrap();
    let first = book.find(A).unwrap().last_used_unix;
    assert!(first > 1_600_000_000);
    book.touch(A);
    assert!(book.find(A).unwrap().last_used_unix >= first);
}

#[test]
fn created_group_has_sorted_unique_normalized_members() {
    let mut groups = GroupBook::new();
    let group = groups
        .create_group_with(
            "ops".into(),
            vec![C.into(), format!("{}.onion", A.to_uppercase()), B.into(), A.into()],
            "00ff".into(),
            7,
        )
        .unwrap();
    assert_eq!(group.id, "00ff");
    assert_eq!(group.name, "ops");
    assert_eq!(group.created_at_unix, 7);
    assert_eq!(group.members, vec![A.to_string(), B.to_string(), C.to_string()]);
    let found = groups.find("00ff").unwrap();
    assert_eq!(found.members, group.members);
    assert!(groups.find("0100").is_none());
}

#[test]
fn groups_are_kept_sorted_by_name_then_id() {
    let mut groups = GroupBook::new();
    groups.create_group_with("zeta".into(), vec![A.into()], "02".into(), 1).unwrap();
    groups.create_group_with("alpha".into(), vec![A.into()], "09".into(), 1).unwrap();
    groups.create_group_with("alpha".into(), vec![B.into()], "01".into(), 1).unwrap();
    let order: Vec<(String, String)> =
        groups.groups.iter().map(|g| (g.name.clone(), g.id.clone())).collect();
    assert_eq!(
        order,
        vec![
            ("alpha".to_string(), "01".to_string()),
            ("alpha".to_string(), "09".to_string()),
            ("zeta".to_string(), "02".to_string()),
        ]
    );
}

#[test]
fn empty_or_invalid_groups_are_refused() {
    let mut groups = GroupBook::new();
    assert_eq!(
        groups.create_group_with("ops".into(), vec![], "01".into(), 1).map(|g| g.id),
        Err(OnionChatError::EmptyGroup)
    );
    assert_eq!(
        groups.create_group_with("ops".into(), vec![A.into(), "nope".into()], "01".into(), 1).map(|g| g.id),
        Err(OnionChatError::InvalidOnionAddress)
    );
    assert!(groups.groups.is_empty());
}

#[test]
fn random_group_ids_are_sixteen_hex_digits() {
    let mut groups = GroupBook::new();
    let group = groups.create_group("ops".into(), vec![A.into()]).unwrap();
    assert_eq!(group.id.len(), 16);
    assert!(group.id.chars().all(|c| c.is_ascii_hexdigit() && !c.is_ascii_uppercase()));
    assert!(groups.find(&group.id).is_some());
}

#[test]
fn storage_files_live_under_the_root() {
    let storage = Storage::from_root("/tmp/onionchat-root".to_string());
    assert_eq!(storage.paths.root, "/tmp/onionchat-root");
    assert_eq!(storage.paths.config_file, "/tmp/onionchat-root/config.toml");
    assert_eq!(storage.paths.identity_file, "/tmp/onionchat-root/identity.json");
    assert_eq!(storage.paths.peers_file, "/tmp/onionchat-root/peers.json");
    assert_eq!(storage.paths.groups_file, "/tmp/onionchat-root/groups.json");
}
