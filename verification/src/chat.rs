//! The decisions of the chat commands: how names are cleaned, how a peer
//! is remembered, who receives a group message, what an invite holds, what
//! a typed line asks for and how a received message is shown.
use vstd::prelude::*;
use crate::error::OnionChatError;
use crate::identity::{Identity, signing_keys_match};
use crate::order::views;
use crate::order::in_order;
use crate::storage::{
    GroupRecord, PeerBook, PeerRecord, PeerView, distinct_onions, found_peer, law_touch_keeps_book,
    law_upsert_keeps_onions_distinct, law_upsert_keeps_order, opt_view, touched, upserted,
};
use crate::text::{chars_of, push_text, string_of, trim, trim_chars};
use crate::transport::{
    ContactCard, InviteFile, PROTOCOL_VERSION, contact_card_json, is_service_id,
    law_onion_address_is_valid, peer_onion_result, sanitize_label, sanitize_terminal, sanitized_label,
    sanitized_terminal, signature_valid, validate_peer_onion,
};
use vstd::utf8::encode_utf8;

verus! {

/// A display name: the sanitized label, or `anonymous` when nothing is left.
pub open spec fn display_name_of(name: Seq<char>) -> Seq<char> {
    if sanitized_label(name).len() == 0 {
        "anonymous"@
    } else {
        sanitized_label(name)
    }
}

/// Cleans a display name for storage and display.
pub fn sanitize_display_name(name: String) -> (r: String)
    ensures
        r@ == display_name_of(name@),
{
    let cleaned = sanitize_label(name.as_str());
    if cleaned.as_str().is_empty() {
        "anonymous".to_owned()
    } else {
        cleaned
    }
}

/// The cleaned form of an optional display name.
pub open spec fn cleaned_name(name: Option<Seq<char>>) -> Option<Seq<char>> {
    match name {
        Some(n) => Some(display_name_of(n)),
        None => None,
    }
}

/// Records the peer `peer_onion` in the book, seen from `source`: with its
/// cleaned display name and signing key when given, marked as used.
pub fn remember_peer(
    peers: &mut PeerBook,
    peer_onion: &str,
    name: Option<String>,
    signing_public_key: Option<String>,
    source: &str,
) -> (r: Result<(), OnionChatError>)
    ensures
        match peer_onion_result(peer_onion@) {
            Some(n) => r is Ok && exists|t1: u64, t2: u64| final(peers)@ == touched(
                upserted(old(peers)@, n, cleaned_name(opt_view(name)), opt_view(signing_public_key), source@, t1),
                peer_onion@,
                t2,
            ),
            None => r == Err::<(), OnionChatError>(OnionChatError::InvalidOnionAddress)
                && final(peers)@ == old(peers)@,
        },
{
    let cleaned = match name {
        Some(n) => Some(sanitize_display_name(n)),
        None => None,
    };
    assert(opt_view(cleaned) == cleaned_name(opt_view(name)));
    peers.upsert(peer_onion, cleaned, signing_public_key, source)?;
    peers.touch(peer_onion);
    Ok(())
}

/// Remembering a peer keeps the book sorted by address with distinct
/// addresses, whatever the times of the two updates.
pub proof fn law_remember_keeps_book(
    book: Seq<PeerView>,
    peer_onion: Seq<char>,
    name: Option<Seq<char>>,
    key: Option<Seq<char>>,
    source: Seq<char>,
    t1: u64,
    t2: u64,
)
    requires
        in_order::<PeerRecord>(book),
        distinct_onions(book),
        peer_onion_result(peer_onion) is Some,
    ensures
        ({
            let after = touched(
                upserted(book, peer_onion_result(peer_onion)->Some_0, name, key, source, t1),
                peer_onion,
                t2,
            );
            in_order::<PeerRecord>(after) && distinct_onions(after)
        }),
{
    let n = peer_onion_result(peer_onion)->Some_0;
    law_upsert_keeps_order(book, n, name, key, source, t1);
    law_upsert_keeps_onions_distinct(book, n, name, key, source, t1);
    law_touch_keeps_book(upserted(book, n, name, key, source, t1), peer_onion, t2);
}

/// `m` is a valid address of a peer in the book.
pub open spec fn known_member(peers: Seq<PeerView>, m: Seq<char>) -> bool {
    peer_onion_result(m) is Some && found_peer(peers, peer_onion_result(m)->Some_0) is Some
}

/// `e` is why `m` cannot be a member: no valid address, or no known peer.
pub open spec fn member_refusal(peers: Seq<PeerView>, m: Seq<char>, e: OnionChatError) -> bool {
    match peer_onion_result(m) {
        None => e == OnionChatError::InvalidOnionAddress,
        Some(n) => found_peer(peers, n) is None && (e matches OnionChatError::MissingPeer(t) && t@ == n),
    }
}

/// The members of a new group, each normalized and each a known peer.
pub fn normalize_known_members(peers: &PeerBook, members: &Vec<String>) -> (r: Result<
    Vec<String>,
    OnionChatError,
>)
    ensures
        match r {
            Ok(v) => views(v@).len() == members@.len() && forall|i: int| 0 <= i < members@.len() ==> {
                &&& peer_onion_result(#[trigger] members@[i]@) == Some(views(v@)[i])
                &&& found_peer(peers@, views(v@)[i]) is Some
            },
            Err(e) => exists|i: int| 0 <= i < members@.len() && {
                &&& forall|j: int| 0 <= j < i ==> #[trigger] known_member(peers@, members@[j]@)
                &&& #[trigger] member_refusal(peers@, members@[i]@, e)
            },
        },
{
    let mut out: Vec<String> = Vec::new();
    let mut i: usize = 0;
    while i < members.len()
        invariant
            0 <= i <= members.len(),
            views(out@).len() == i,
            forall|k: int| 0 <= k < i ==> {
                &&& peer_onion_result(#[trigger] members@[k]@) == Some(views(out@)[k])
                &&& found_peer(peers@, views(out@)[k]) is Some
            },
        decreases members.len() - i,
    {
        let onion = match validate_peer_onion(members[i].as_str()) {
            Ok(o) => o,
            Err(e) => {
                proof {
                    assert forall|j: int| 0 <= j < i implies #[trigger] known_member(peers@, members@[j]@) by {
                        assert(peer_onion_result(members@[j]@) == Some(views(out@)[j]));
                    }
                    assert(member_refusal(peers@, members@[i as int]@, e));
                }
                return Err(e);
            },
        };
        if peers.find(onion.as_str()).is_none() {
            proof {
                crate::transport::law_peer_onion_idempotent(members@[i as int]@);
                assert forall|j: int| 0 <= j < i implies #[trigger] known_member(peers@, members@[j]@) by {
                    assert(peer_onion_result(members@[j]@) == Some(views(out@)[j]));
                }
            }
            let err = OnionChatError::MissingPeer(onion);
            assert(member_refusal(peers@, members@[i as int]@, err));
            return Err(err);
        }
        let ghost prev = views(out@);
        out.push(onion);
        assert(views(out@) =~= prev.push(onion@));
        i = i + 1;
    }
    Ok(out)
}

/// The members of a group that a message to it is sent to: all but the
/// sender's own service.
pub open spec fn recipients_of(members: Seq<Seq<char>>, own: Seq<char>) -> Seq<Seq<char>> {
    members.filter(|m: Seq<char>| m != own)
}

/// The members that a group message goes to.
pub fn group_recipients(group: &GroupRecord, own_service_id: &str) -> (r: Vec<String>)
    ensures
        views(r@) == recipients_of(group@.members, own_service_id@),
{
    let own = own_service_id.to_owned();
    let ghost ms = group@.members;
    let mut out: Vec<String> = Vec::new();
    let mut i: usize = 0;
    assert(recipients_of(ms.take(0), own@) =~= Seq::<Seq<char>>::empty()) by {
        reveal(Seq::filter);
    }
    assert(views(out@) =~= Seq::<Seq<char>>::empty());
    while i < group.members.len()
        invariant
            0 <= i <= group.members.len(),
            ms == group@.members,
            own@ == own_service_id@,
            views(out@) == recipients_of(ms.take(i as int), own@),
        decreases group.members.len() - i,
    {
        proof {
            assert(ms.take(i + 1).drop_last() =~= ms.take(i as int));
            assert(ms.take(i + 1).last() == group.members@[i as int]@);
            reveal(Seq::filter);
        }
        if group.members[i] != own {
            let ghost prev = views(out@);
            out.push(group.members[i].clone());
            assert(views(out@) =~= prev.push(group.members@[i as int]@));
        }
        i = i + 1;
    }
    assert(ms.take(i as int) =~= ms);
    out
}

/// The contact card that an identity hands out, signed with its signing
/// key, created at `now`, under a cleaned display name (`anonymous` when
/// none is given).
pub fn build_invite(identity: &Identity, display_name: Option<String>, now: u64) -> (r: Result<
    InviteFile,
    OnionChatError,
>)
    ensures
        match crate::crypto::base64_decoded(identity.signing_secret_key@) {
            Some(k) if k.len() == 32 => r matches Ok(invite) && {
                &&& invite.card.version == PROTOCOL_VERSION
                &&& invite.card.display_name@ == display_name_of(
                    match display_name {
                        Some(n) => n@,
                        None => "anonymous"@,
                    },
                )
                &&& invite.card.onion@ == identity.service_id@ + ".onion"@
                &&& invite.card.signing_public_key == identity.signing_public_key
                &&& invite.card.encryption_public_key == identity.encryption_public_key
                &&& invite.card.created_at_unix == now
                &&& invite.signature@ == crate::crypto::base64_encoded(
                    crate::crypto::ed25519_signature(k, encode_utf8(contact_card_json(invite.card))),
                )
            },
            _ => r == Err::<InviteFile, OnionChatError>(OnionChatError::InvalidInvite),
        },
        signing_keys_match(*identity) && is_service_id(identity.service_id@) ==> (r matches Ok(invite)
            && signature_valid(
            invite.card.signing_public_key@,
            invite.signature@,
            encode_utf8(contact_card_json(invite.card)),
        ) && peer_onion_result(invite.card.onion@) is Some),
{
    let name = match display_name {
        Some(n) => n,
        None => "anonymous".to_owned(),
    };
    let card = ContactCard {
        version: PROTOCOL_VERSION,
        display_name: sanitize_display_name(name),
        onion: identity.onion_address(),
        signing_public_key: identity.signing_public_key.clone(),
        encryption_public_key: identity.encryption_public_key.clone(),
        created_at_unix: now,
    };
    let bytes = card.canonical_bytes();
    let signature = identity.sign_bytes(bytes.as_slice())?;
    proof {
        if is_service_id(identity.service_id@) {
            law_onion_address_is_valid(identity.service_id@);
        }
    }
    Ok(InviteFile { card, signature })
}

/// What a line typed in a chat asks for.
#[derive(Debug, PartialEq, Eq, Structural)]
pub enum ChatLineAction {
    /// Nothing (a blank line).
    Skip,
    /// Leave the chat (`/quit` or `/exit`).
    Quit,
}

/// The action of a typed line, and the text to send when there is one.
pub open spec fn chat_line_outcome(line: Seq<char>) -> Result<Seq<char>, ChatLineAction> {
    let t = trim(line);
    if t.len() == 0 {
        Err(ChatLineAction::Skip)
    } else if t == "/quit"@ || t == "/exit"@ {
        Err(ChatLineAction::Quit)
    } else {
        Ok(t)
    }
}

/// Reads a typed chat line: the trimmed text to send, or what to do instead.
pub fn chat_line_action(line: &str) -> (r: Result<String, ChatLineAction>)
    ensures
        match chat_line_outcome(line@) {
            Ok(t) => r matches Ok(s) && s@ == t,
            Err(a) => r == Err::<String, ChatLineAction>(a),
        },
{
    let v = chars_of(line);
    let t = trim_chars(&v);
    if t.len() == 0 {
        return Err(ChatLineAction::Skip);
    }
    let s = string_of(&t);
    if s == "/quit".to_owned() || s == "/exit".to_owned() {
        return Err(ChatLineAction::Quit);
    }
    Ok(s)
}

/// The name under which a sender is shown: the display name of the peer
/// with the sender's normalized address when there is one; otherwise that
/// address, or the sanitized raw sender text when it is no valid address.
pub open spec fn sender_label(peers: Seq<PeerView>, from: Seq<char>) -> Seq<char> {
    let from_onion = match peer_onion_result(from) {
        Some(n) => n,
        None => sanitized_terminal(from),
    };
    match found_peer(peers, from_onion) {
        Some(p) => match p.display_name {
            Some(d) => d,
            None => from_onion,
        },
        None => from_onion,
    }
}

/// The label of the sender of a received message.
pub fn incoming_sender_label(peers: &PeerBook, from: &str) -> (r: String)
    ensures
        r@ == sender_label(peers@, from@),
{
    let from_onion = match validate_peer_onion(from) {
        Ok(n) => n,
        Err(_) => sanitize_terminal(from),
    };
    match peers.find(from_onion.as_str()) {
        Some(p) => match &p.display_name {
            Some(d) => d.clone(),
            None => from_onion,
        },
        None => from_onion,
    }
}

/// The text shown for a received message with body `body`: the sender's
/// label and, for a group message, the group's name; names and body
/// sanitized for the terminal.
pub open spec fn incoming_text_of(label: Seq<char>, group_name: Option<Seq<char>>, body: Seq<char>) -> Seq<
    char,
> {
    match group_name {
        None => "\n["@ + label + "] "@ + sanitized_terminal(body),
        Some(g) => "\n[group:"@ + sanitized_terminal(g) + "] ["@ + label + "] "@ + sanitized_terminal(
            body,
        ),
    }
}

/// The line shown for a received message.
pub fn incoming_text(label: &str, group_name: Option<&str>, body: &str) -> (r: String)
    ensures
        r@ == incoming_text_of(
            label@,
            match group_name {
                Some(g) => Some(g@),
                None => None,
            },
            body@,
        ),
{
    let mut v: Vec<char> = Vec::new();
    let clean_body = sanitize_terminal(body);
    match group_name {
        None => {
            push_text(&mut v, "\n[");
            push_text(&mut v, label);
            push_text(&mut v, "] ");
            push_text(&mut v, clean_body.as_str());
        },
        Some(g) => {
            let clean_group = sanitize_terminal(g);
            push_text(&mut v, "\n[group:");
            push_text(&mut v, clean_group.as_str());
            push_text(&mut v, "] [");
            push_text(&mut v, label);
            push_text(&mut v, "] ");
            push_text(&mut v, clean_body.as_str());
        },
    }
    string_of(&v)
}

} // verus!
