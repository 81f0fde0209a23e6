//! The wire-level rules: what a peer address is, what may reach the
//! terminal, the signed message and invite formats, the frame, and the
//! message encryption.
use vstd::prelude::*;
use crate::config::AppConfig;
use crate::error::OnionChatError;
use crate::storage::{members_valid, now_unix};
use crate::tor::concat_bytes;
use vstd::utf8::{decode_utf8, encode_utf8, valid_utf8};
use crate::crypto::{
    base64_decode, base64_decoded, base64_encode, base64_encoded, chacha20poly1305_decrypt,
    chacha20poly1305_encrypt, chacha20poly1305_opened, chacha20poly1305_sealed, ed25519_public_key,
    ed25519_sign, ed25519_signature, ed25519_verify, ed25519_verify_outcome, json_quote, json_quoted,
    os_random_bytes, sha256, sha256_digest, x25519_public_key, x25519_shared, x25519_shared_secret,
};
use crate::order::views;
use crate::json::{lemma_decimal_prefix, lemma_quoted_prefix};
use crate::text::{
    decimal, push_decimal, push_text, string_from_utf8, utf8_bytes,
    ascii_lower, char_is_control, chars_of, copy_range, is_control_char, lowercase, string_of,
    to_lowercase_chars, trim, trim_chars, trim_end, trim_start,
};

verus! {

/// A character that may stay in text written to the terminal.
pub open spec fn keeps_on_terminal(c: char) -> bool {
    c == '\n' || c == '\t' || !is_control_char(c)
}

/// The text with every control character other than newline and tab removed.
pub open spec fn sanitized_terminal(s: Seq<char>) -> Seq<char> {
    s.filter(|c: char| keeps_on_terminal(c))
}

/// The longest label, in characters.
pub open spec fn label_limit() -> nat {
    80
}

/// The sanitized text, trimmed, cut after its first 80 characters.
pub open spec fn sanitized_label(s: Seq<char>) -> Seq<char> {
    let t = trim(sanitized_terminal(s));
    if t.len() <= label_limit() {
        t
    } else {
        t.take(label_limit() as int)
    }
}

/// Filtering text in which every character may stay leaves it unchanged.
proof fn lemma_clean_text_unchanged(s: Seq<char>)
    requires
        forall|i: int| 0 <= i < s.len() ==> keeps_on_terminal(#[trigger] s[i]),
    ensures
        sanitized_terminal(s) == s,
    decreases s.len(),
{
    reveal(Seq::filter);
    if s.len() > 0 {
        lemma_clean_text_unchanged(s.drop_last());
        assert(s.drop_last().push(s.last()) =~= s);
    }
}

/// Sanitized text holds no control character but newline and tab, and
/// sanitizing it again changes nothing.
pub proof fn law_sanitized_text_is_clean(s: Seq<char>)
    ensures
        forall|i: int|
            0 <= i < sanitized_terminal(s).len() ==> keeps_on_terminal(#[trigger] sanitized_terminal(s)[i]),
        sanitized_terminal(sanitized_terminal(s)) == sanitized_terminal(s),
{
    let pred = |c: char| keeps_on_terminal(c);
    let t = sanitized_terminal(s);
    assert forall|i: int| 0 <= i < t.len() implies keeps_on_terminal(#[trigger] t[i]) by {
        s.lemma_filter_pred(pred, i);
    }
    lemma_clean_text_unchanged(t);
}

/// Removes control characters other than `\n` and `\t`.
pub fn sanitize_terminal(input: &str) -> (r: String)
    ensures
        r@ == sanitized_terminal(input@),
{
    let v = chars_of(input);
    let kept = sanitize_chars(&v);
    string_of(&kept)
}

pub(crate) fn sanitize_chars(v: &Vec<char>) -> (r: Vec<char>)
    ensures
        r@ == sanitized_terminal(v@),
{
    let mut out: Vec<char> = Vec::new();
    let mut i: usize = 0;
    assert(v@.take(0).filter(|c: char| keeps_on_terminal(c)) =~= Seq::<char>::empty()) by {
        reveal(Seq::filter);
    }
    while i < v.len()
        invariant
            0 <= i <= v.len(),
            out@ == v@.take(i as int).filter(|c: char| keeps_on_terminal(c)),
        decreases v.len() - i,
    {
        let c = v[i];
        let keep = c == '\n' || c == '\t' || !char_is_control(c);
        if keep {
            out.push(c);
        }
        proof {
            let t = v@.take(i + 1);
            assert(t.drop_last() =~= v@.take(i as int));
            assert(t.last() == c);
            reveal(Seq::filter);
        }
        i = i + 1;
    }
    assert(v@.take(v@.len() as int) =~= v@);
    out
}

/// A display label: sanitized, trimmed and cut to 80 characters.
pub fn sanitize_label(input: &str) -> (r: String)
    ensures
        r@ == sanitized_label(input@),
{
    let v = chars_of(input);
    let kept = sanitize_chars(&v);
    let t = trim_chars(&kept);
    if t.len() <= 80 {
        string_of(&t)
    } else {
        let cut = copy_range(&t, 0, 80);
        assert(cut@ =~= t@.take(80));
        string_of(&cut)
    }
}

/// A character of an onion service id (base32: `a`..`z`, `2`..`7`).
pub open spec fn is_service_id_char(c: char) -> bool {
    ('a' <= c && c <= 'z') || ('2' <= c && c <= '7')
}

/// A v3 onion service id: 56 base32 characters.
pub open spec fn is_service_id(s: Seq<char>) -> bool {
    s.len() == 56 && forall|i: int| 0 <= i < s.len() ==> is_service_id_char(#[trigger] s[i])
}

/// The text ends with `.onion`.
pub open spec fn ends_with_onion(s: Seq<char>) -> bool {
    let n = s.len();
    n >= 6 && s[n - 6] == '.' && s[n - 5] == 'o' && s[n - 4] == 'n' && s[n - 3] == 'i'
        && s[n - 2] == 'o' && s[n - 1] == 'n'
}

/// Every trailing `.onion` removed (`str::trim_end_matches(".onion")`).
pub open spec fn strip_onion_suffixes(s: Seq<char>) -> Seq<char>
    decreases s.len(),
{
    if ends_with_onion(s) {
        strip_onion_suffixes(s.take(s.len() - 6))
    } else {
        s
    }
}

/// The text that an address is checked as: trimmed, every trailing
/// `.onion` removed, lowercased.
pub open spec fn onion_candidate(input: Seq<char>) -> Seq<char> {
    lowercase(strip_onion_suffixes(trim(input)))
}

/// The outcome of checking a peer address.
pub open spec fn peer_onion_result(input: Seq<char>) -> Option<Seq<char>> {
    if is_service_id(onion_candidate(input)) {
        Some(onion_candidate(input))
    } else {
        None
    }
}

/// Normalizes a peer address to its service id, or refuses it.
pub fn validate_peer_onion(input: &str) -> (r: Result<String, OnionChatError>)
    ensures
        match r {
            Ok(s) => peer_onion_result(input@) == Some(s@),
            Err(e) => peer_onion_result(input@) is None && e == OnionChatError::InvalidOnionAddress,
        },
        r matches Ok(s) ==> s@.len() == 56 && forall|i: int|
            0 <= i < s@.len() ==> ('a' <= #[trigger] s@[i] && s@[i] <= 'z') || ('2' <= s@[i] && s@[i] <= '7'),
{
    let v = chars_of(input);
    let t = trim_chars(&v);
    let mut j: usize = t.len();
    assert(t@.take(j as int) =~= t@);
    while j >= 6 && t[j - 6] == '.' && t[j - 5] == 'o' && t[j - 4] == 'n' && t[j - 3] == 'i'
        && t[j - 2] == 'o' && t[j - 1] == 'n'
        invariant
            j <= t.len(),
            strip_onion_suffixes(t@) == strip_onion_suffixes(t@.take(j as int)),
        decreases j,
    {
        proof {
            let s = t@.take(j as int);
            assert(ends_with_onion(s));
            assert(s.take(s.len() - 6) =~= t@.take(j - 6));
        }
        j = j - 6;
    }
    let stripped = copy_range(&t, 0, j);
    assert(stripped@ =~= t@.take(j as int));
    assert(!ends_with_onion(stripped@));
    assert(strip_onion_suffixes(t@) == stripped@);
    let lower = to_lowercase_chars(&stripped);
    if lower.len() != 56 {
        return Err(OnionChatError::InvalidOnionAddress);
    }
    let mut i: usize = 0;
    while i < lower.len()
        invariant
            0 <= i <= lower.len() == 56,
            lower@ == onion_candidate(input@),
            forall|k: int| 0 <= k < i ==> is_service_id_char(#[trigger] lower@[k]),
        decreases lower.len() - i,
    {
        let c = lower[i];
        if !(('a' <= c && c <= 'z') || ('2' <= c && c <= '7')) {
            assert(!is_service_id(lower@));
            return Err(OnionChatError::InvalidOnionAddress);
        }
        i = i + 1;
    }
    Ok(string_of(&lower))
}


/// A service id is left as it is by trimming, by removing `.onion`
/// suffixes and by lowercasing.
pub proof fn lemma_service_id_is_normal(n: Seq<char>)
    requires
        is_service_id(n),
    ensures
        trim(n) == n,
        strip_onion_suffixes(n) == n,
        lowercase(n) == n,
{
    assert(is_service_id_char(n[0]));
    assert(is_service_id_char(n[n.len() - 1]));
    assert(trim_start(n) == n);
    assert(trim_end(n) == n);
    assert(is_service_id_char(n[n.len() - 6]));
    assert(!ends_with_onion(n));
    assert(vstd::utf8::is_ascii_chars(n)) by {
        assert forall|i: int| 0 <= i < n.len() implies '\0' <= #[trigger] n[i] <= '\u{7f}' by {
            assert(is_service_id_char(n[i]));
        }
    }
    assert(n.map_values(|c: char| ascii_lower(c)) =~= n) by {
        assert forall|i: int| 0 <= i < n.len() implies ascii_lower(n[i]) == n[i] by {
            assert(is_service_id_char(n[i]));
        }
    }
}

/// Normalizing a normalized address gives it back: a valid address is
/// accepted again, unchanged.
pub proof fn law_peer_onion_idempotent(input: Seq<char>)
    requires
        peer_onion_result(input) is Some,
    ensures
        peer_onion_result(peer_onion_result(input)->Some_0) == peer_onion_result(input),
{
    let n = peer_onion_result(input)->Some_0;
    lemma_service_id_is_normal(n);
}

/// The onion address `<id>.onion` of a service id is a valid peer address
/// and normalizes back to the id.
pub proof fn law_onion_address_is_valid(service_id: Seq<char>)
    requires
        is_service_id(service_id),
    ensures
        peer_onion_result(service_id + ".onion"@) == Some(service_id),
{
    reveal_strlit(".onion");
    let s = service_id + ".onion"@;
    lemma_service_id_is_normal(service_id);
    assert(s[0] == service_id[0]);
    assert(is_service_id_char(service_id[0]));
    assert(trim_start(s) == s);
    assert(s[s.len() - 1] == 'n');
    assert(trim_end(s) == s);
    assert(ends_with_onion(s));
    assert(s.take(s.len() - 6) =~= service_id);
}

/// The version of the message and invite formats.
pub const PROTOCOL_VERSION: u8 = 1;

/// A message as it travels between peers.
#[derive(Debug, Clone, PartialEq, Eq)]
pub struct MessageEnvelope {
    pub version: u8,
    pub from: String,
    pub timestamp_unix: u64,
    pub payload: MessagePayload,
    pub signature: String,
}

/// The encrypted content of a message, direct or to a group.
#[derive(Debug, Clone, PartialEq, Eq)]
pub enum MessagePayload {
    Direct { nonce: String, ciphertext: String },
    Group { group_id: String, group_name: String, nonce: String, ciphertext: String },
}

/// What a peer hands out to be added as a contact.
#[derive(Debug, Clone, PartialEq, Eq)]
pub struct ContactCard {
    pub version: u8,
    pub display_name: String,
    pub onion: String,
    pub signing_public_key: String,
    pub encryption_public_key: String,
    pub created_at_unix: u64,
}

/// A contact card with its signature.
#[derive(Debug, Clone, PartialEq, Eq)]
pub struct InviteFile {
    pub card: ContactCard,
    pub signature: String,
}

/// A group as its owner hands it out.
#[derive(Debug, Clone, PartialEq, Eq)]
pub struct GroupInvite {
    pub version: u8,
    pub group_id: String,
    pub group_name: String,
    pub owner: String,
    pub owner_signing_public_key: String,
    pub members: Vec<String>,
    pub revision: u64,
    pub created_at_unix: u64,
}

/// A group invite with its signature.
#[derive(Debug, Clone, PartialEq, Eq)]
pub struct GroupInviteFile {
    pub group: GroupInvite,
    pub signature: String,
}

/// The JSON string literal of a text.
pub open spec fn q(s: Seq<char>) -> Seq<char> {
    json_quoted(s)
}

/// The JSON of a contact card: its fields in order, compact.
pub open spec fn contact_card_json(c: ContactCard) -> Seq<char> {
    "{\"version\":"@ + decimal(c.version as nat) + ",\"display_name\":"@ + q(c.display_name@)
        + ",\"onion\":"@ + q(c.onion@) + ",\"signing_public_key\":"@ + q(c.signing_public_key@)
        + ",\"encryption_public_key\":"@ + q(c.encryption_public_key@) + ",\"created_at_unix\":"@
        + decimal(c.created_at_unix as nat) + "}"@
}

/// The JSON string literals of the texts, separated by commas.
pub open spec fn joined_quoted(ms: Seq<Seq<char>>) -> Seq<char>
    decreases ms.len(),
{
    if ms.len() == 0 {
        Seq::empty()
    } else if ms.len() == 1 {
        q(ms[0])
    } else {
        joined_quoted(ms.drop_last()) + ","@ + q(ms.last())
    }
}

/// The JSON of a group invite: its fields in order, compact.
pub open spec fn group_invite_json(g: GroupInvite) -> Seq<char> {
    "{\"version\":"@ + decimal(g.version as nat) + ",\"group_id\":"@ + q(g.group_id@)
        + ",\"group_name\":"@ + q(g.group_name@) + ",\"owner\":"@ + q(g.owner@)
        + ",\"owner_signing_public_key\":"@ + q(g.owner_signing_public_key@) + ",\"members\":["@
        + joined_quoted(views(g.members@)) + "],\"revision\":"@ + decimal(g.revision as nat)
        + ",\"created_at_unix\":"@ + decimal(g.created_at_unix as nat) + "}"@
}

/// The JSON of a payload, tagged by its `kind`.
pub open spec fn payload_json(p: MessagePayload) -> Seq<char> {
    match p {
        MessagePayload::Direct { nonce, ciphertext } => "{\"kind\":\"direct\",\"nonce\":"@ + q(
            nonce@,
        ) + ",\"ciphertext\":"@ + q(ciphertext@) + "}"@,
        MessagePayload::Group { group_id, group_name, nonce, ciphertext } =>
            "{\"kind\":\"group\",\"group_id\":"@ + q(group_id@) + ",\"group_name\":"@ + q(
            group_name@,
        ) + ",\"nonce\":"@ + q(nonce@) + ",\"ciphertext\":"@ + q(ciphertext@) + "}"@,
    }
}

/// The fields of an envelope up to its payload, without the closing brace.
pub open spec fn envelope_fields_json(e: MessageEnvelope) -> Seq<char> {
    "{\"version\":"@ + decimal(e.version as nat) + ",\"from\":"@ + q(e.from@) + ",\"timestamp_unix\":"@
        + decimal(e.timestamp_unix as nat) + ",\"payload\":"@ + payload_json(e.payload)
}

/// The JSON that an envelope's signature covers: every field but the signature.
pub open spec fn signed_envelope_json(e: MessageEnvelope) -> Seq<char> {
    envelope_fields_json(e) + "}"@
}

/// The JSON of a whole envelope; an empty signature is left out.
pub open spec fn envelope_json(e: MessageEnvelope) -> Seq<char> {
    if e.signature@.len() == 0 {
        envelope_fields_json(e) + "}"@
    } else {
        envelope_fields_json(e) + ",\"signature\":"@ + q(e.signature@) + "}"@
    }
}

/// The texts of a payload: whether it goes to a group, and its fields in
/// order.
pub open spec fn payload_texts(p: MessagePayload) -> (bool, Seq<Seq<char>>) {
    match p {
        MessagePayload::Direct { nonce, ciphertext } => (false, seq![nonce@, ciphertext@]),
        MessagePayload::Group { group_id, group_name, nonce, ciphertext } => (
            true,
            seq![group_id@, group_name@, nonce@, ciphertext@],
        ),
    }
}

/// The fields of an envelope that its signature covers: the version, the
/// sender, the time and the payload.
pub open spec fn signed_fields(e: MessageEnvelope) -> (u8, Seq<char>, u64, (bool, Seq<Seq<char>>)) {
    (e.version, e.from@, e.timestamp_unix, payload_texts(e.payload))
}

proof fn lemma_literal_prefix(lit: Seq<char>, a: Seq<char>, b: Seq<char>)
    requires
        lit + a == lit + b,
    ensures
        a == b,
{
    assert((lit + a).skip(lit.len() as int) =~= a);
    assert((lit + b).skip(lit.len() as int) =~= b);
}

/// The literal pieces of the JSON, as far as reading it back needs them.
proof fn lemma_json_pieces()
    ensures
        "{\"kind\":\"direct\",\"nonce\":"@.len() > 9,
        "{\"kind\":\"group\",\"group_id\":"@.len() > 9,
        "{\"kind\":\"direct\",\"nonce\":"@[9] == 'd',
        "{\"kind\":\"group\",\"group_id\":"@[9] == 'g',
        ",\"from\":"@.len() > 0 && ",\"from\":"@[0] == ',',
        ",\"timestamp_unix\":"@.len() > 0 && ",\"timestamp_unix\":"@[0] == ',',
        ",\"payload\":"@.len() > 0 && ",\"payload\":"@[0] == ',',
{
    reveal_strlit("{\"kind\":\"direct\",\"nonce\":");
    reveal_strlit("{\"kind\":\"group\",\"group_id\":");
    reveal_strlit(",\"from\":");
    reveal_strlit(",\"timestamp_unix\":");
    reveal_strlit(",\"payload\":");
}

/// The JSON of a payload, followed by `r`, as nested pieces.
proof fn lemma_payload_pieces(p: MessagePayload, r: Seq<char>)
    ensures
        match p {
            MessagePayload::Direct { nonce, ciphertext } => payload_json(p) + r
                == "{\"kind\":\"direct\",\"nonce\":"@ + (q(nonce@) + (",\"ciphertext\":"@ + (q(ciphertext@) + (
            "}"@ + r)))),
            MessagePayload::Group { group_id, group_name, nonce, ciphertext } => payload_json(p) + r
                == "{\"kind\":\"group\",\"group_id\":"@ + (q(group_id@) + (",\"group_name\":"@ + (q(group_name@)
                + (",\"nonce\":"@ + (q(nonce@) + (",\"ciphertext\":"@ + (q(ciphertext@) + ("}"@ + r)))))))),
        },
{
    match p {
        MessagePayload::Direct { nonce, ciphertext } => {
            assert(payload_json(p) + r =~= "{\"kind\":\"direct\",\"nonce\":"@ + (q(nonce@) + (",\"ciphertext\":"@ + (
            q(ciphertext@) + ("}"@ + r)))));
        },
        MessagePayload::Group { group_id, group_name, nonce, ciphertext } => {
            assert(payload_json(p) + r =~= "{\"kind\":\"group\",\"group_id\":"@ + (q(group_id@) + (
            ",\"group_name\":"@ + (q(group_name@) + (",\"nonce\":"@ + (q(nonce@) + (",\"ciphertext\":"@ + (q(
                ciphertext@,
            ) + ("}"@ + r)))))))));
        },
    }
}

proof fn lemma_direct_prefix(n1: Seq<char>, c1: Seq<char>, n2: Seq<char>, c2: Seq<char>, r1: Seq<char>, r2: Seq<char>)
    requires
        "{\"kind\":\"direct\",\"nonce\":"@ + (q(n1) + (",\"ciphertext\":"@ + (q(c1) + ("}"@ + r1))))
            == "{\"kind\":\"direct\",\"nonce\":"@ + (q(n2) + (",\"ciphertext\":"@ + (q(c2) + ("}"@ + r2)))),
    ensures
        n1 == n2,
        c1 == c2,
        r1 == r2,
{
    let d2 = ",\"ciphertext\":"@;
    let e = "}"@;
    lemma_literal_prefix("{\"kind\":\"direct\",\"nonce\":"@, q(n1) + (d2 + (q(c1) + (e + r1))), q(n2) + (d2 + (q(c2) + (e + r2))));
    lemma_quoted_prefix(n1, n2, d2 + (q(c1) + (e + r1)), d2 + (q(c2) + (e + r2)));
    lemma_literal_prefix(d2, q(c1) + (e + r1), q(c2) + (e + r2));
    lemma_quoted_prefix(c1, c2, e + r1, e + r2);
    lemma_literal_prefix(e, r1, r2);
}

#[verifier::rlimit(40)]
proof fn lemma_group_prefix(
    i1: Seq<char>,
    m1: Seq<char>,
    n1: Seq<char>,
    c1: Seq<char>,
    i2: Seq<char>,
    m2: Seq<char>,
    n2: Seq<char>,
    c2: Seq<char>,
    r1: Seq<char>,
    r2: Seq<char>,
)
    requires
        "{\"kind\":\"group\",\"group_id\":"@ + (q(i1) + (",\"group_name\":"@ + (q(m1) + (",\"nonce\":"@ + (q(n1)
            + (",\"ciphertext\":"@ + (q(c1) + ("}"@ + r1)))))))) == "{\"kind\":\"group\",\"group_id\":"@ + (q(i2)
            + (",\"group_name\":"@ + (q(m2) + (",\"nonce\":"@ + (q(n2) + (",\"ciphertext\":"@ + (q(c2) + ("}"@
            + r2)))))))),
    ensures
        i1 == i2,
        m1 == m2,
        n1 == n2,
        c1 == c2,
        r1 == r2,
{
    let g1 = "{\"kind\":\"group\",\"group_id\":"@;
    let g2 = ",\"group_name\":"@;
    let g3 = ",\"nonce\":"@;
    let d2 = ",\"ciphertext\":"@;
    let e = "}"@;
    let t1 = q(n1) + (d2 + (q(c1) + (e + r1)));
    let t2 = q(n2) + (d2 + (q(c2) + (e + r2)));
    lemma_literal_prefix(g1, q(i1) + (g2 + (q(m1) + (g3 + t1))), q(i2) + (g2 + (q(m2) + (g3 + t2))));
    lemma_quoted_prefix(i1, i2, g2 + (q(m1) + (g3 + t1)), g2 + (q(m2) + (g3 + t2)));
    lemma_literal_prefix(g2, q(m1) + (g3 + t1), q(m2) + (g3 + t2));
    lemma_quoted_prefix(m1, m2, g3 + t1, g3 + t2);
    lemma_literal_prefix(g3, t1, t2);
    lemma_quoted_prefix(n1, n2, d2 + (q(c1) + (e + r1)), d2 + (q(c2) + (e + r2)));
    lemma_literal_prefix(d2, q(c1) + (e + r1), q(c2) + (e + r2));
    lemma_quoted_prefix(c1, c2, e + r1, e + r2);
    lemma_literal_prefix(e, r1, r2);
}

/// A payload's JSON is read back from the front: its variant, its texts and
/// what follows it.
proof fn lemma_payload_json_prefix(p1: MessagePayload, p2: MessagePayload, r1: Seq<char>, r2: Seq<char>)
    requires
        payload_json(p1) + r1 == payload_json(p2) + r2,
    ensures
        payload_texts(p1) == payload_texts(p2),
        r1 == r2,
{
    lemma_json_pieces();
    match (p1, p2) {
        (
            MessagePayload::Direct { nonce: n1, ciphertext: c1 },
            MessagePayload::Direct { nonce: n2, ciphertext: c2 },
        ) => {
            lemma_payload_pieces(p1, r1);
            lemma_payload_pieces(p2, r2);
            lemma_direct_prefix(n1@, c1@, n2@, c2@, r1, r2);
            assert(payload_texts(p1).1 =~= payload_texts(p2).1);
        },
        (
            MessagePayload::Group { group_id: i1, group_name: m1, nonce: n1, ciphertext: c1 },
            MessagePayload::Group { group_id: i2, group_name: m2, nonce: n2, ciphertext: c2 },
        ) => {
            lemma_payload_pieces(p1, r1);
            lemma_payload_pieces(p2, r2);
            lemma_group_prefix(i1@, m1@, n1@, c1@, i2@, m2@, n2@, c2@, r1, r2);
            assert(payload_texts(p1).1 =~= payload_texts(p2).1);
        },
        (MessagePayload::Direct { nonce: n1, ciphertext: c1 }, MessagePayload::Group { group_id: i2, group_name: m2, nonce: n2, ciphertext: c2 }) => {
            lemma_payload_pieces(p1, r1);
            lemma_payload_pieces(p2, r2);
            let x = payload_json(p1) + r1;
            assert(x[9] == 'd');
            assert(x[9] == 'g');
        },
        (MessagePayload::Group { group_id: i1, group_name: m1, nonce: n1, ciphertext: c1 }, MessagePayload::Direct { nonce: n2, ciphertext: c2 }) => {
            lemma_payload_pieces(p1, r1);
            lemma_payload_pieces(p2, r2);
            let x = payload_json(p1) + r1;
            assert(x[9] == 'g');
            assert(x[9] == 'd');
        },
    }
}

/// The same payload texts give the same payload JSON.
proof fn lemma_payload_json_of_texts(p1: MessagePayload, p2: MessagePayload)
    requires
        payload_texts(p1) == payload_texts(p2),
    ensures
        payload_json(p1) == payload_json(p2),
{
    let t1 = payload_texts(p1).1;
    let t2 = payload_texts(p2).1;
    assert(t1[0] == t2[0] && t1[1] == t2[1]);
    if payload_texts(p1).0 {
        assert(t1[2] == t2[2] && t1[3] == t2[3]);
    }
}

/// The signed JSON of an envelope as nested pieces.
proof fn lemma_envelope_pieces(e: MessageEnvelope)
    ensures
        signed_envelope_json(e) == "{\"version\":"@ + (decimal(e.version as nat) + (",\"from\":"@ + (q(e.from@) + (
        ",\"timestamp_unix\":"@ + (decimal(e.timestamp_unix as nat) + (",\"payload\":"@ + (payload_json(e.payload)
            + "}"@))))))),
{
    assert(signed_envelope_json(e) =~= "{\"version\":"@ + (decimal(e.version as nat) + (",\"from\":"@ + (q(e.from@) + (
        ",\"timestamp_unix\":"@ + (decimal(e.timestamp_unix as nat) + (",\"payload\":"@ + (payload_json(e.payload)
            + "}"@))))))));
}

/// The signed bytes of a message cover every field but the signature: two
/// messages have the same signed bytes exactly when their version, sender,
/// time and payload are the same.
pub proof fn law_signed_bytes_cover_fields(e1: MessageEnvelope, e2: MessageEnvelope)
    ensures
        encode_utf8(signed_envelope_json(e1)) == encode_utf8(signed_envelope_json(e2)) <==> signed_fields(e1)
            == signed_fields(e2),
{
    if signed_fields(e1) == signed_fields(e2) {
        lemma_payload_json_of_texts(e1.payload, e2.payload);
        assert(signed_envelope_json(e1) == signed_envelope_json(e2));
    }
    if encode_utf8(signed_envelope_json(e1)) == encode_utf8(signed_envelope_json(e2)) {
        vstd::utf8::encode_utf8_decode_utf8(signed_envelope_json(e1));
        vstd::utf8::encode_utf8_decode_utf8(signed_envelope_json(e2));
        lemma_envelope_pieces(e1);
        lemma_envelope_pieces(e2);
        lemma_signed_json_prefix(e1, e2);
    }
}

#[verifier::rlimit(40)]
proof fn lemma_signed_json_prefix(e1: MessageEnvelope, e2: MessageEnvelope)
    requires
        "{\"version\":"@ + (decimal(e1.version as nat) + (",\"from\":"@ + (q(e1.from@) + (",\"timestamp_unix\":"@ + (
        decimal(e1.timestamp_unix as nat) + (",\"payload\":"@ + (payload_json(e1.payload) + "}"@)))))))
            == "{\"version\":"@ + (decimal(e2.version as nat) + (",\"from\":"@ + (q(e2.from@) + (
        ",\"timestamp_unix\":"@ + (decimal(e2.timestamp_unix as nat) + (",\"payload\":"@ + (payload_json(e2.payload)
            + "}"@))))))),
    ensures
        signed_fields(e1) == signed_fields(e2),
{
    let l1 = "{\"version\":"@;
    let l2 = ",\"from\":"@;
    let l3 = ",\"timestamp_unix\":"@;
    let l4 = ",\"payload\":"@;
    let e = "}"@;
    lemma_json_pieces();
    let t1 = l4 + (payload_json(e1.payload) + e);
    let t2 = l4 + (payload_json(e2.payload) + e);
    let f1 = l3 + (decimal(e1.timestamp_unix as nat) + t1);
    let f2 = l3 + (decimal(e2.timestamp_unix as nat) + t2);
    let rest1 = l2 + (q(e1.from@) + f1);
    let rest2 = l2 + (q(e2.from@) + f2);
    lemma_literal_prefix(l1, decimal(e1.version as nat) + rest1, decimal(e2.version as nat) + rest2);
    assert(rest1[0] == ',' && rest2[0] == ',');
    lemma_decimal_prefix(e1.version as nat, e2.version as nat, rest1, rest2);
    lemma_literal_prefix(l2, q(e1.from@) + f1, q(e2.from@) + f2);
    lemma_quoted_prefix(e1.from@, e2.from@, f1, f2);
    lemma_literal_prefix(l3, decimal(e1.timestamp_unix as nat) + t1, decimal(e2.timestamp_unix as nat) + t2);
    assert(t1[0] == ',' && t2[0] == ',');
    lemma_decimal_prefix(e1.timestamp_unix as nat, e2.timestamp_unix as nat, t1, t2);
    lemma_literal_prefix(l4, payload_json(e1.payload) + e, payload_json(e2.payload) + e);
    lemma_payload_json_prefix(e1.payload, e2.payload, e, e);
}

/// Appends the JSON string literal of `s`.
fn push_quoted(v: &mut Vec<char>, s: &str)
    ensures
        final(v)@ == old(v)@ + q(s@),
{
    let qs = json_quote(s);
    push_text(v, qs.as_str());
}

fn push_payload_json(v: &mut Vec<char>, p: &MessagePayload)
    ensures
        final(v)@ == old(v)@ + payload_json(*p),
{
    let ghost start = v@;
    match p {
        MessagePayload::Direct { nonce, ciphertext } => {
            push_text(v, "{\"kind\":\"direct\",\"nonce\":");
            push_quoted(v, nonce.as_str());
            push_text(v, ",\"ciphertext\":");
            push_quoted(v, ciphertext.as_str());
            push_text(v, "}");
        },
        MessagePayload::Group { group_id, group_name, nonce, ciphertext } => {
            push_text(v, "{\"kind\":\"group\",\"group_id\":");
            push_quoted(v, group_id.as_str());
            push_text(v, ",\"group_name\":");
            push_quoted(v, group_name.as_str());
            push_text(v, ",\"nonce\":");
            push_quoted(v, nonce.as_str());
            push_text(v, ",\"ciphertext\":");
            push_quoted(v, ciphertext.as_str());
            push_text(v, "}");
        },
    }
    assert(v@ =~= start + payload_json(*p));
}

fn push_envelope_fields(v: &mut Vec<char>, e: &MessageEnvelope)
    ensures
        final(v)@ == old(v)@ + envelope_fields_json(*e),
{
    let ghost start = v@;
    push_text(v, "{\"version\":");
    push_decimal(e.version as u64, v);
    push_text(v, ",\"from\":");
    push_quoted(v, e.from.as_str());
    push_text(v, ",\"timestamp_unix\":");
    push_decimal(e.timestamp_unix, v);
    push_text(v, ",\"payload\":");
    push_payload_json(v, &e.payload);
    assert(v@ =~= start + envelope_fields_json(*e));
}

impl MessageEnvelope {
    /// The bytes that the envelope's signature covers.
    pub fn canonical_bytes(&self) -> (r: Vec<u8>)
        ensures
            r@ == encode_utf8(signed_envelope_json(*self)),
    {
        let mut v: Vec<char> = Vec::new();
        push_envelope_fields(&mut v, self);
        push_text(&mut v, "}");
        assert(v@ =~= signed_envelope_json(*self));
        utf8_bytes(&v)
    }

    /// The bytes of the whole envelope as it is sent.
    pub fn to_json_bytes(&self) -> (r: Vec<u8>)
        ensures
            r@ == encode_utf8(envelope_json(*self)),
    {
        let mut v: Vec<char> = Vec::new();
        push_envelope_fields(&mut v, self);
        if self.signature.as_str().is_empty() {
            push_text(&mut v, "}");
        } else {
            push_text(&mut v, ",\"signature\":");
            push_quoted(&mut v, self.signature.as_str());
            push_text(&mut v, "}");
        }
        assert(v@ =~= envelope_json(*self));
        utf8_bytes(&v)
    }
}

impl ContactCard {
    /// The bytes that the card's signature covers.
    pub fn canonical_bytes(&self) -> (r: Vec<u8>)
        ensures
            r@ == encode_utf8(contact_card_json(*self)),
    {
        let mut v: Vec<char> = Vec::new();
        push_text(&mut v, "{\"version\":");
        push_decimal(self.version as u64, &mut v);
        push_text(&mut v, ",\"display_name\":");
        push_quoted(&mut v, self.display_name.as_str());
        push_text(&mut v, ",\"onion\":");
        push_quoted(&mut v, self.onion.as_str());
        push_text(&mut v, ",\"signing_public_key\":");
        push_quoted(&mut v, self.signing_public_key.as_str());
        push_text(&mut v, ",\"encryption_public_key\":");
        push_quoted(&mut v, self.encryption_public_key.as_str());
        push_text(&mut v, ",\"created_at_unix\":");
        push_decimal(self.created_at_unix, &mut v);
        push_text(&mut v, "}");
        assert(v@ =~= contact_card_json(*self));
        utf8_bytes(&v)
    }
}

impl GroupInvite {
    /// The bytes that the invite's signature covers.
    pub fn canonical_bytes(&self) -> (r: Vec<u8>)
        ensures
            r@ == encode_utf8(group_invite_json(*self)),
    {
        let mut v: Vec<char> = Vec::new();
        let ghost ms = views(self.members@);
        push_text(&mut v, "{\"version\":");
        push_decimal(self.version as u64, &mut v);
        push_text(&mut v, ",\"group_id\":");
        push_quoted(&mut v, self.group_id.as_str());
        push_text(&mut v, ",\"group_name\":");
        push_quoted(&mut v, self.group_name.as_str());
        push_text(&mut v, ",\"owner\":");
        push_quoted(&mut v, self.owner.as_str());
        push_text(&mut v, ",\"owner_signing_public_key\":");
        push_quoted(&mut v, self.owner_signing_public_key.as_str());
        push_text(&mut v, ",\"members\":[");
        let ghost before = v@;
        let mut i: usize = 0;
        assert(joined_quoted(ms.take(0)) =~= Seq::<char>::empty());
        assert(v@ =~= before + joined_quoted(ms.take(0)));
        while i < self.members.len()
            invariant
                0 <= i <= self.members.len(),
                ms == views(self.members@),
                v@ == before + joined_quoted(ms.take(i as int)),
            decreases self.members.len() - i,
        {
            proof {
                assert(ms.take(i + 1).drop_last() =~= ms.take(i as int));
                assert(ms.take(i + 1).last() == self.members@[i as int]@);
                if i == 0 {
                    assert(ms.take(1)[0] == ms[0]);
                }
            }
            if i > 0 {
                push_text(&mut v, ",");
            }
            push_quoted(&mut v, self.members[i].as_str());
            i = i + 1;
            assert(v@ =~= before + joined_quoted(ms.take(i as int)));
        }
        assert(ms.take(i as int) =~= ms);
        push_text(&mut v, "],\"revision\":");
        push_decimal(self.revision, &mut v);
        push_text(&mut v, ",\"created_at_unix\":");
        push_decimal(self.created_at_unix, &mut v);
        push_text(&mut v, "}");
        assert(v@ =~= group_invite_json(*self));
        utf8_bytes(&v)
    }
}


impl MessageEnvelope {
    /// A direct message from `from`, stamped now, unsigned.
    pub fn direct(from: String, nonce: String, ciphertext: String) -> (r: Self)
        ensures
            r.version == PROTOCOL_VERSION,
            r.from@ == from@,
            r.payload == (MessagePayload::Direct { nonce, ciphertext }),
            r.signature@.len() == 0,
    {
        Self::new(from, MessagePayload::Direct { nonce, ciphertext })
    }

    /// A message to a group from `from`, stamped now, unsigned.
    pub fn group(
        from: String,
        group_id: String,
        group_name: String,
        nonce: String,
        ciphertext: String,
    ) -> (r: Self)
        ensures
            r.version == PROTOCOL_VERSION,
            r.from@ == from@,
            r.payload == (MessagePayload::Group { group_id, group_name, nonce, ciphertext }),
            r.signature@.len() == 0,
    {
        Self::new(from, MessagePayload::Group { group_id, group_name, nonce, ciphertext })
    }

    /// A direct message from `from`, stamped `now`, unsigned.
    pub fn direct_at(from: String, nonce: String, ciphertext: String, now: u64) -> (r: Self)
        ensures
            r.version == PROTOCOL_VERSION,
            r.from@ == from@,
            r.timestamp_unix == now,
            r.payload == (MessagePayload::Direct { nonce, ciphertext }),
            r.signature@.len() == 0,
    {
        Self::new_at(from, MessagePayload::Direct { nonce, ciphertext }, now)
    }

    /// A message to a group from `from`, stamped `now`, unsigned.
    pub fn group_at(
        from: String,
        group_id: String,
        group_name: String,
        nonce: String,
        ciphertext: String,
        now: u64,
    ) -> (r: Self)
        ensures
            r.version == PROTOCOL_VERSION,
            r.from@ == from@,
            r.timestamp_unix == now,
            r.payload == (MessagePayload::Group { group_id, group_name, nonce, ciphertext }),
            r.signature@.len() == 0,
    {
        Self::new_at(from, MessagePayload::Group { group_id, group_name, nonce, ciphertext }, now)
    }

    /// A message of the current protocol version, stamped now, unsigned.
    fn new(from: String, payload: MessagePayload) -> (r: Self)
        ensures
            r.version == PROTOCOL_VERSION,
            r.from@ == from@,
            r.payload == payload,
            r.signature@.len() == 0,
    {
        let now = now_unix();
        Self::new_at(from, payload, now)
    }

    /// A message of the current protocol version, stamped `now`, unsigned.
    fn new_at(from: String, payload: MessagePayload, now: u64) -> (r: Self)
        ensures
            r.version == PROTOCOL_VERSION,
            r.from@ == from@,
            r.timestamp_unix == now,
            r.payload == payload,
            r.signature@.len() == 0,
    {
        MessageEnvelope { version: PROTOCOL_VERSION, from, timestamp_unix: now, payload, signature: String::new() }
    }
}

/// The four-byte big-endian header of a frame whose payload is `len`
/// bytes (the length taken modulo 2^32).
pub open spec fn frame_header(len: nat) -> Seq<u8> {
    seq![
        ((len / 0x1000000) % 256) as u8,
        ((len / 0x10000) % 256) as u8,
        ((len / 0x100) % 256) as u8,
        (len % 256) as u8,
    ]
}

/// The length that a four-byte big-endian header gives.
pub open spec fn header_length(h: Seq<u8>) -> nat {
    (h[0] as nat) * 0x1000000 + (h[1] as nat) * 0x10000 + (h[2] as nat) * 0x100 + (h[3] as nat)
}

/// The header of a frame gives back the payload length, for every length
/// that fits in four bytes.
pub proof fn law_frame_header_round_trip(len: u32)
    ensures
        header_length(frame_header(len as nat)) == len,
{
    assert((len / 0x1000000) < 256 && (len / 0x1000000) * 0x1000000 + ((len / 0x10000) % 256) * 0x10000
        + ((len / 0x100) % 256) * 0x100 + (len % 256) == len) by (bit_vector);
}

/// The frame of a message: its JSON, refused when longer than the
/// configured limit, behind a four-byte big-endian length.
pub fn encode_frame(message: &MessageEnvelope, config: &AppConfig) -> (r: Result<
    Vec<u8>,
    OnionChatError,
>)
    ensures
        ({
            let payload = encode_utf8(envelope_json(*message));
            if payload.len() > config.app.max_message_bytes {
                r == Err::<Vec<u8>, OnionChatError>(OnionChatError::MessageTooLarge(payload.len() as usize))
            } else {
                r matches Ok(f) && f@ == frame_header(payload.len()) + payload
            }
        }),
{
    let payload = message.to_json_bytes();
    if payload.len() > config.app.max_message_bytes {
        return Err(OnionChatError::MessageTooLarge(payload.len()));
    }
    let n: u64 = payload.len() as u64;
    let mut out: Vec<u8> = Vec::new();
    out.push(((n / 0x1000000) % 256) as u8);
    out.push(((n / 0x10000) % 256) as u8);
    out.push(((n / 0x100) % 256) as u8);
    out.push((n % 256) as u8);
    assert(out@ =~= frame_header(payload@.len()));
    let framed = concat_bytes(out.as_slice(), payload.as_slice());
    Ok(framed)
}

/// The payload length that a frame header announces, refused when longer
/// than the configured limit.
pub fn frame_payload_length(header: &[u8], config: &AppConfig) -> (r: Result<usize, OnionChatError>)
    requires
        header@.len() == 4,
    ensures
        header_length(header@) > config.app.max_message_bytes ==> r == Err::<usize, OnionChatError>(
            OnionChatError::MessageTooLarge(header_length(header@) as usize),
        ),
        header_length(header@) <= config.app.max_message_bytes ==> r == Ok::<usize, OnionChatError>(
            header_length(header@) as usize,
        ),
{
    let size: u64 = (header[0] as u64) * 0x1000000 + (header[1] as u64) * 0x10000 + (header[2] as u64)
        * 0x100 + (header[3] as u64);
    if size > config.app.max_message_bytes as u64 {
        return Err(OnionChatError::MessageTooLarge(size as usize));
    }
    Ok(size as usize)
}

/// A received frame payload may be decoded only within the configured limit.
pub fn check_frame_payload(bytes: &[u8], config: &AppConfig) -> (r: Result<(), OnionChatError>)
    ensures
        bytes@.len() > config.app.max_message_bytes ==> r == Err::<(), OnionChatError>(
            OnionChatError::MessageTooLarge(bytes@.len() as usize),
        ),
        bytes@.len() <= config.app.max_message_bytes ==> r is Ok,
{
    if bytes.len() > config.app.max_message_bytes {
        return Err(OnionChatError::MessageTooLarge(bytes.len()));
    }
    Ok(())
}


/// The signature check: the key and signature texts are base64 of 32 and
/// 64 bytes, the key is a valid Ed25519 point, and the signature of `msg`
/// verifies under it.
pub open spec fn signature_valid(key_b64: Seq<char>, sig_b64: Seq<char>, msg: Seq<u8>) -> bool {
    match base64_decoded(key_b64) {
        Some(k) => k.len() == 32 && match base64_decoded(sig_b64) {
            Some(sig) => sig.len() == 64 && ed25519_verify_outcome(k, msg, sig) == Some(true),
            None => false,
        },
        None => false,
    }
}

fn check_signature(key_b64: &str, sig_b64: &str, msg: &[u8]) -> (r: bool)
    ensures
        r == signature_valid(key_b64@, sig_b64@, msg@),
{
    let k = match base64_decode(key_b64) {
        Some(k) => k,
        None => {
            return false;
        },
    };
    if k.len() != 32 {
        return false;
    }
    let sig = match base64_decode(sig_b64) {
        Some(sig) => sig,
        None => {
            return false;
        },
    };
    if sig.len() != 64 {
        return false;
    }
    match ed25519_verify(k.as_slice(), msg, sig.as_slice()) {
        Some(ok) => ok,
        None => false,
    }
}

/// Checks a contact invite: its signature must verify under the card's own
/// signing key, and the card's address must be valid.
pub fn verify_invite(invite: &InviteFile) -> (r: Result<(), OnionChatError>)
    ensures
        !signature_valid(
            invite.card.signing_public_key@,
            invite.signature@,
            encode_utf8(contact_card_json(invite.card)),
        ) ==> r == Err::<(), OnionChatError>(OnionChatError::InvalidInvite),
        signature_valid(
            invite.card.signing_public_key@,
            invite.signature@,
            encode_utf8(contact_card_json(invite.card)),
        ) ==> if peer_onion_result(invite.card.onion@) is Some {
            r is Ok
        } else {
            r == Err::<(), OnionChatError>(OnionChatError::InvalidOnionAddress)
        },
{
    let bytes = invite.card.canonical_bytes();
    if !check_signature(
        invite.card.signing_public_key.as_str(),
        invite.signature.as_str(),
        bytes.as_slice(),
    ) {
        return Err(OnionChatError::InvalidInvite);
    }
    validate_peer_onion(invite.card.onion.as_str())?;
    Ok(())
}

/// The shape that a group invite must have: a non-blank id, a revision, a
/// valid owner among the members, at least one member, all valid.
pub open spec fn group_invite_well_formed(g: GroupInvite) -> bool {
    &&& trim(g.group_id@).len() > 0
    &&& g.revision != 0
    &&& peer_onion_result(g.owner@) is Some
    &&& g.members@.len() > 0
    &&& members_valid(views(g.members@))
    &&& views(g.members@).contains(g.owner@)
}

/// Checks a group invite: its shape, and its signature under the owner's
/// signing key. Every failure is `InvalidGroupInvite`.
pub fn verify_group_invite(invite: &GroupInviteFile) -> (r: Result<(), OnionChatError>)
    ensures
        r is Ok <==> (group_invite_well_formed(invite.group) && signature_valid(
            invite.group.owner_signing_public_key@,
            invite.signature@,
            encode_utf8(group_invite_json(invite.group)),
        )),
        r matches Err(e) ==> e == OnionChatError::InvalidGroupInvite,
        r is Ok ==> forall|i: int|
            0 <= i < invite.group.members@.len() ==> (#[trigger] peer_onion_result(invite.group.members@[i]@)) is Some,
{
    let g = &invite.group;
    let id_chars = chars_of(g.group_id.as_str());
    let id_trimmed = trim_chars(&id_chars);
    if id_trimmed.len() == 0 || g.revision == 0 {
        return Err(OnionChatError::InvalidGroupInvite);
    }
    if validate_peer_onion(g.owner.as_str()).is_err() {
        return Err(OnionChatError::InvalidGroupInvite);
    }
    if g.members.len() == 0 {
        return Err(OnionChatError::InvalidGroupInvite);
    }
    let ghost ms = views(g.members@);
    let mut i: usize = 0;
    let mut has_owner = false;
    while i < g.members.len()
        invariant
            0 <= i <= g.members.len(),
            *g == invite.group,
            ms == views(g.members@),
            forall|k: int| 0 <= k < i ==> (#[trigger] peer_onion_result(ms[k])) is Some,
            has_owner <==> exists|k: int| 0 <= k < i && #[trigger] ms[k] == g.owner@,
        decreases g.members.len() - i,
    {
        assert(ms[i as int] == g.members@[i as int]@);
        if validate_peer_onion(g.members[i].as_str()).is_err() {
            assert(peer_onion_result(ms[i as int]) is None);
            assert(!members_valid(ms));
            return Err(OnionChatError::InvalidGroupInvite);
        }
        if g.members[i] == g.owner {
            has_owner = true;
        }
        i = i + 1;
    }
    assert(has_owner <==> ms.contains(g.owner@));
    if !has_owner {
        return Err(OnionChatError::InvalidGroupInvite);
    }
    let bytes = g.canonical_bytes();
    if !check_signature(
        g.owner_signing_public_key.as_str(),
        invite.signature.as_str(),
        bytes.as_slice(),
    ) {
        return Err(OnionChatError::InvalidGroupInvite);
    }
    proof {
        law_group_invite_members_valid(invite.group);
    }
    Ok(())
}

/// The message check: a signature is present and verifies under the given
/// signing key.
pub open spec fn message_signature_valid(e: MessageEnvelope, key_b64: Seq<char>) -> bool {
    e.signature@.len() > 0 && signature_valid(key_b64, e.signature@, encode_utf8(signed_envelope_json(e)))
}

/// Checks a received message's signature against the sender's signing key.
pub fn verify_message(envelope: &MessageEnvelope, signing_public_key: &str) -> (r: Result<
    (),
    OnionChatError,
>)
    ensures
        r is Ok <==> message_signature_valid(*envelope, signing_public_key@),
        r matches Err(e) ==> e == OnionChatError::InvalidMessageSignature,
{
    if envelope.signature.as_str().is_empty() {
        return Err(OnionChatError::InvalidMessageSignature);
    }
    let bytes = envelope.canonical_bytes();
    if !check_signature(signing_public_key, envelope.signature.as_str(), bytes.as_slice()) {
        return Err(OnionChatError::InvalidMessageSignature);
    }
    Ok(())
}

impl MessageEnvelope {
    /// Signs the message with the 32-byte Ed25519 secret key: the signature
    /// covers every other field and is stored as base64. Afterwards the
    /// message verifies under the public key of the same secret.
    pub fn sign(&mut self, signing_secret: &[u8])
        requires
            signing_secret@.len() == 32,
        ensures
            final(self).version == old(self).version,
            final(self).from == old(self).from,
            final(self).timestamp_unix == old(self).timestamp_unix,
            final(self).payload == old(self).payload,
            final(self).signature@ == base64_encoded(
                ed25519_signature(signing_secret@, encode_utf8(signed_envelope_json(*old(self)))),
            ),
            forall|key_b64: Seq<char>|
                base64_decoded(key_b64) == Some(ed25519_public_key(signing_secret@))
                    && ed25519_public_key(signing_secret@).len() == 32
                    ==> #[trigger] message_signature_valid(*final(self), key_b64),
    {
        let bytes = self.canonical_bytes();
        let sig = ed25519_sign(signing_secret, bytes.as_slice());
        let text = base64_encode(sig.as_slice());
        let ghost before = *self;
        self.signature = text;
        assert(signed_envelope_json(*self) == signed_envelope_json(before));
    }
}

/// The key that a shared secret gives for message encryption: SHA-256 of a
/// fixed label followed by the secret.
pub open spec fn message_key(shared: Seq<u8>) -> Seq<u8> {
    sha256_digest(encode_utf8("onionchat-message-v1"@) + shared)
}

/// Derives the message key from an X25519 shared secret.
pub fn derive_message_key(shared_secret: &[u8]) -> (r: Vec<u8>)
    ensures
        r@ == message_key(shared_secret@),
        r@.len() == 32,
{
    let label = "onionchat-message-v1".as_bytes();
    let data = concat_bytes(label, shared_secret);
    sha256(data.as_slice())
}

/// A public encryption key given as base64 of 32 bytes.
pub open spec fn encryption_key_bytes(public_key: Seq<char>) -> Option<Seq<u8>> {
    match base64_decoded(public_key) {
        Some(k) => if k.len() == 32 {
            Some(k)
        } else {
            None
        },
        None => None,
    }
}

/// Decodes a public encryption key; the failure is reported as an
/// encryption or a decryption failure, as `encrypting` says.
fn decode_encryption_public_key(public_key: &str, encrypting: bool) -> (r: Result<
    Vec<u8>,
    OnionChatError,
>)
    ensures
        match encryption_key_bytes(public_key@) {
            Some(k) => r matches Ok(v) && v@ == k,
            None => r == Err::<Vec<u8>, OnionChatError>(
                if encrypting {
                    OnionChatError::MessageEncryptionFailed
                } else {
                    OnionChatError::MessageDecryptionFailed
                },
            ),
        },
{
    let fail = if encrypting {
        OnionChatError::MessageEncryptionFailed
    } else {
        OnionChatError::MessageDecryptionFailed
    };
    match base64_decode(public_key) {
        Some(k) => {
            if k.len() != 32 {
                return Err(fail);
            }
            Ok(k)
        },
        None => Err(fail),
    }
}

/// What decrypting a message gives: the sender's public key, the nonce and
/// the ciphertext must decode, the ciphertext must open under the key
/// shared with the sender, and the plaintext must be UTF-8.
pub open spec fn decrypt_outcome(
    nonce: Seq<char>,
    ciphertext: Seq<char>,
    recipient_secret: Seq<u8>,
    sender_public_key: Seq<char>,
) -> Option<Seq<char>> {
    match encryption_key_bytes(sender_public_key) {
        None => None,
        Some(sk) => match base64_decoded(nonce) {
            None => None,
            Some(n) => if n.len() != 12 {
                None
            } else {
                match base64_decoded(ciphertext) {
                    None => None,
                    Some(c) => match chacha20poly1305_opened(
                        message_key(x25519_shared_secret(recipient_secret, sk)),
                        n,
                        c,
                    ) {
                        None => None,
                        Some(p) => if valid_utf8(p) {
                            Some(decode_utf8(p))
                        } else {
                            None
                        },
                    },
                }
            },
        },
    }
}

/// Decrypts a message sent by the owner of `sender_public_key`.
pub fn decrypt_message(
    nonce: &str,
    ciphertext: &str,
    recipient_secret_key: &[u8],
    sender_public_key: &str,
) -> (r: Result<String, OnionChatError>)
    requires
        recipient_secret_key@.len() == 32,
    ensures
        match decrypt_outcome(nonce@, ciphertext@, recipient_secret_key@, sender_public_key@) {
            Some(t) => r matches Ok(s) && s@ == t,
            None => r == Err::<String, OnionChatError>(OnionChatError::MessageDecryptionFailed),
        },
{
    let sender_key = decode_encryption_public_key(sender_public_key, false)?;
    let shared = x25519_shared(recipient_secret_key, sender_key.as_slice());
    let key = derive_message_key(shared.as_slice());
    let n = match base64_decode(nonce) {
        Some(n) => n,
        None => {
            return Err(OnionChatError::MessageDecryptionFailed);
        },
    };
    if n.len() != 12 {
        return Err(OnionChatError::MessageDecryptionFailed);
    }
    let c = match base64_decode(ciphertext) {
        Some(c) => c,
        None => {
            return Err(OnionChatError::MessageDecryptionFailed);
        },
    };
    let plain = match chacha20poly1305_decrypt(key.as_slice(), n.as_slice(), c.as_slice()) {
        Some(p) => p,
        None => {
            return Err(OnionChatError::MessageDecryptionFailed);
        },
    };
    match string_from_utf8(plain) {
        Some(s) => Ok(s),
        None => Err(OnionChatError::MessageDecryptionFailed),
    }
}

/// What encrypting a message with the given nonce gives: the recipient's
/// key must decode and the cipher must accept the plaintext; then the
/// nonce and the ciphertext, each as base64.
pub open spec fn encrypt_outcome(
    plaintext: Seq<char>,
    sender_secret: Seq<u8>,
    recipient_public_key: Seq<char>,
    nonce: Seq<u8>,
) -> Option<(Seq<char>, Seq<char>)> {
    match encryption_key_bytes(recipient_public_key) {
        None => None,
        Some(rk) => match chacha20poly1305_sealed(
            message_key(x25519_shared_secret(sender_secret, rk)),
            nonce,
            encode_utf8(plaintext),
        ) {
            None => None,
            Some(c) => Some((base64_encoded(nonce), base64_encoded(c))),
        },
    }
}

/// A recipient secret and sender key with which a message encrypted from
/// `sender_secret` to `recipient_public_key` can be opened: they agree on
/// the same shared secret.
pub open spec fn agrees_on_secret(
    sender_secret: Seq<u8>,
    recipient_public_key: Seq<char>,
    recipient_secret: Seq<u8>,
    sender_public_key: Seq<char>,
) -> bool {
    &&& encryption_key_bytes(recipient_public_key) is Some
    &&& encryption_key_bytes(sender_public_key) is Some
    &&& x25519_shared_secret(recipient_secret, encryption_key_bytes(sender_public_key)->Some_0)
        == x25519_shared_secret(sender_secret, encryption_key_bytes(recipient_public_key)->Some_0)
}

/// `public_key` is the base64 text of the X25519 public key of the 32-byte
/// secret `secret`: the two halves of one encryption key pair.
pub open spec fn is_encryption_pair(secret: Seq<u8>, public_key: Seq<char>) -> bool {
    secret.len() == 32 && encryption_key_bytes(public_key) == Some(x25519_public_key(secret))
}

/// The largest plaintext, in UTF-8 bytes, whose ciphertext's base64 still
/// has a length that fits in `usize`.
pub open spec fn encryptable_len(plaintext: Seq<char>) -> bool {
    4 * ((encode_utf8(plaintext).len() + 16 + 2) / 3) <= usize::MAX
}

/// Encrypts a message to the owner of `recipient_public_key` with the
/// given 12-byte nonce. What comes out opens again, to the same text, for
/// every recipient secret and sender key that agree on the shared secret.
pub fn encrypt_message_with_nonce(
    plaintext: &str,
    sender_secret_key: &[u8],
    recipient_public_key: &str,
    nonce: &[u8],
) -> (r: Result<(String, String), OnionChatError>)
    requires
        sender_secret_key@.len() == 32,
        nonce@.len() == 12,
        encryptable_len(plaintext@),
    ensures
        match encrypt_outcome(plaintext@, sender_secret_key@, recipient_public_key@, nonce@) {
            Some((n, c)) => r matches Ok((rn, rc)) && rn@ == n && rc@ == c,
            None => r == Err::<(String, String), OnionChatError>(OnionChatError::MessageEncryptionFailed),
        },
        r matches Ok((rn, rc)) ==> forall|rs: Seq<u8>, spk: Seq<char>|
            agrees_on_secret(sender_secret_key@, recipient_public_key@, rs, spk) ==> #[trigger] decrypt_outcome(
                rn@,
                rc@,
                rs,
                spk,
            ) == Some(plaintext@),
        r matches Ok((rn, rc)) ==> forall|rs: Seq<u8>, spk: Seq<char>|
            is_encryption_pair(rs, recipient_public_key@) && is_encryption_pair(sender_secret_key@, spk)
                ==> #[trigger] decrypt_outcome(rn@, rc@, rs, spk) == Some(plaintext@),
{
    let recipient_key = decode_encryption_public_key(recipient_public_key, true)?;
    let shared = x25519_shared(sender_secret_key, recipient_key.as_slice());
    let key = derive_message_key(shared.as_slice());
    let plain = plaintext.as_bytes();
    let sealed = match chacha20poly1305_encrypt(key.as_slice(), nonce, plain) {
        Some(c) => c,
        None => {
            return Err(OnionChatError::MessageEncryptionFailed);
        },
    };
    let n = base64_encode(nonce);
    let c = base64_encode(sealed.as_slice());
    proof {
        vstd::utf8::encode_utf8_valid_utf8(plaintext@);
        vstd::utf8::encode_utf8_decode_utf8(plaintext@);
        assert forall|rs: Seq<u8>, spk: Seq<char>|
            is_encryption_pair(rs, recipient_public_key@) && is_encryption_pair(
                sender_secret_key@,
                spk,
            ) implies agrees_on_secret(sender_secret_key@, recipient_public_key@, rs, spk) by {
            assert(recipient_key@ == x25519_public_key(rs));
        }
    }
    Ok((n, c))
}

/// Encrypts a message with a fresh random nonce (see
/// `encrypt_message_with_nonce`).
pub fn encrypt_message(
    plaintext: &str,
    sender_secret_key: &[u8],
    recipient_public_key: &str,
) -> (r: Result<(String, String), OnionChatError>)
    requires
        sender_secret_key@.len() == 32,
        encryptable_len(plaintext@),
    ensures
        encryption_key_bytes(recipient_public_key@) is None ==> r == Err::<
            (String, String),
            OnionChatError,
        >(OnionChatError::MessageEncryptionFailed),
        exists|nonce: Seq<u8>|
            nonce.len() == 12 && match #[trigger] encrypt_outcome(
                plaintext@,
                sender_secret_key@,
                recipient_public_key@,
                nonce,
            ) {
                Some((n, c)) => r matches Ok((rn, rc)) && rn@ == n && rc@ == c,
                None => r == Err::<(String, String), OnionChatError>(
                    OnionChatError::MessageEncryptionFailed,
                ),
            },
        r matches Ok((rn, rc)) ==> forall|rs: Seq<u8>, spk: Seq<char>|
            agrees_on_secret(sender_secret_key@, recipient_public_key@, rs, spk) ==> #[trigger] decrypt_outcome(
                rn@,
                rc@,
                rs,
                spk,
            ) == Some(plaintext@),
        r matches Ok((rn, rc)) ==> forall|rs: Seq<u8>, spk: Seq<char>|
            is_encryption_pair(rs, recipient_public_key@) && is_encryption_pair(sender_secret_key@, spk)
                ==> #[trigger] decrypt_outcome(rn@, rc@, rs, spk) == Some(plaintext@),
{
    let nonce = os_random_bytes(12);
    let r = encrypt_message_with_nonce(plaintext, sender_secret_key, recipient_public_key, nonce.as_slice());
    assert(nonce@.len() == 12 && encrypt_outcome(plaintext@, sender_secret_key@, recipient_public_key@, nonce@)
        == encrypt_outcome(plaintext@, sender_secret_key@, recipient_public_key@, nonce@));
    r
}

/// Encryption seals the UTF-8 plaintext with ChaCha20-Poly1305 under the
/// SHA-256 digest of the label `onionchat-message-v1` followed by the X25519
/// secret shared with the recipient, and gives the nonce and the sealed text
/// as base64. A recipient key that is not base64 of 32 bytes, or a refused
/// sealing, gives nothing.
pub proof fn law_encryption_key_is_derived(
    plaintext: Seq<char>,
    sender_secret: Seq<u8>,
    recipient_public_key: Seq<char>,
    nonce: Seq<u8>,
)
    ensures
        encrypt_outcome(plaintext, sender_secret, recipient_public_key, nonce) == if base64_decoded(
            recipient_public_key,
        ) is Some && base64_decoded(recipient_public_key)->Some_0.len() == 32 {
            let rk = base64_decoded(recipient_public_key)->Some_0;
            let key = sha256_digest(encode_utf8("onionchat-message-v1"@) + x25519_shared_secret(sender_secret, rk));
            match chacha20poly1305_sealed(key, nonce, encode_utf8(plaintext)) {
                Some(c) => Some((base64_encoded(nonce), base64_encoded(c))),
                None => None,
            }
        } else {
            None
        },
{
}

/// Decryption opens the base64 ciphertext with ChaCha20-Poly1305 under the
/// 12-byte base64 nonce and the SHA-256 digest of the label
/// `onionchat-message-v1` followed by the X25519 secret shared with the
/// sender; the opened bytes must be UTF-8. Anything else gives nothing.
pub proof fn law_decryption_key_is_derived(
    nonce: Seq<char>,
    ciphertext: Seq<char>,
    recipient_secret: Seq<u8>,
    sender_public_key: Seq<char>,
)
    ensures
        decrypt_outcome(nonce, ciphertext, recipient_secret, sender_public_key) == if base64_decoded(
            sender_public_key,
        ) is Some && base64_decoded(sender_public_key)->Some_0.len() == 32 && base64_decoded(nonce) is Some
            && base64_decoded(nonce)->Some_0.len() == 12 && base64_decoded(ciphertext) is Some {
            let sk = base64_decoded(sender_public_key)->Some_0;
            let key = sha256_digest(encode_utf8("onionchat-message-v1"@) + x25519_shared_secret(recipient_secret, sk));
            match chacha20poly1305_opened(key, base64_decoded(nonce)->Some_0, base64_decoded(ciphertext)->Some_0) {
                Some(p) => if valid_utf8(p) {
                    Some(decode_utf8(p))
                } else {
                    None
                },
                None => None,
            }
        } else {
            None
        },
{
}

/// The members of a group invite are written as serde_json writes a compact
/// array: one member is its string literal, and each further member follows
/// after a single comma, with no white space.
pub proof fn law_members_compact(ms: Seq<Seq<char>>, m: Seq<char>)
    ensures
        joined_quoted(seq![m]) == json_quoted(m),
        ms.len() > 0 ==> joined_quoted(ms.push(m)) == joined_quoted(ms) + seq![','] + json_quoted(m),
{
    reveal_strlit(",");
    assert(seq![m][0] == m);
    if ms.len() > 0 {
        assert(ms.push(m).drop_last() =~= ms);
        assert(ms.push(m).last() == m);
        assert(","@ =~= seq![',']);
    }
}

/// An accepted peer address is 56 characters, each a lowercase letter or a
/// digit from 2 to 7 (the base32 alphabet); and a checked candidate of that
/// form is accepted as it is.
pub proof fn law_accepted_address_alphabet(input: Seq<char>)
    ensures
        peer_onion_result(input) matches Some(s) ==> s.len() == 56 && forall|i: int|
            0 <= i < s.len() ==> ('a' <= #[trigger] s[i] && s[i] <= 'z') || ('2' <= s[i] && s[i] <= '7'),
        (onion_candidate(input).len() == 56 && forall|i: int|
            0 <= i < 56 ==> ('a' <= #[trigger] onion_candidate(input)[i] && onion_candidate(input)[i] <= 'z') || (
            '2' <= onion_candidate(input)[i] && onion_candidate(input)[i] <= '7')) ==> peer_onion_result(input)
            == Some(onion_candidate(input)),
{
}

/// One character on its own stays on the terminal exactly when it is a
/// newline, a tab, or no control character (neither below U+0020 nor in
/// U+007F..=U+009F).
pub proof fn law_sanitize_one_char(c: char)
    ensures
        sanitized_terminal(seq![c]) == if c == '\n' || c == '\t' || ((c as u32) >= 0x20 && !(0x7f <= (c as u32)
            && (c as u32) <= 0x9f)) {
            seq![c]
        } else {
            Seq::<char>::empty()
        },
{
    reveal(Seq::filter);
    let e = Seq::<char>::empty();
    assert(seq![c].drop_last() =~= e);
    assert(seq![c].last() == c);
    assert(e.push(c) =~= seq![c]);
    assert(sanitized_terminal(e) =~= e);
    assert(sanitized_terminal(seq![c]) == (if keeps_on_terminal(c) {
        sanitized_terminal(e).push(c)
    } else {
        sanitized_terminal(e)
    }));
}

/// Sanitizing works character by character: the sanitized text of two texts
/// one after the other is the two sanitized texts one after the other.
pub proof fn law_sanitize_concat(a: Seq<char>, b: Seq<char>)
    ensures
        sanitized_terminal(a + b) == sanitized_terminal(a) + sanitized_terminal(b),
{
    Seq::filter_distributes_over_add(a, b, |c: char| keeps_on_terminal(c));
}

/// A group invite that passes the shape check has a valid address for every
/// member, a valid owner that is one of the members, at least one member, a
/// non-zero revision and a non-blank id.
pub proof fn law_group_invite_members_valid(g: GroupInvite)
    ensures
        group_invite_well_formed(g) ==> {
            &&& forall|i: int| 0 <= i < g.members@.len() ==> (#[trigger] peer_onion_result(g.members@[i]@)) is Some
            &&& peer_onion_result(g.owner@) is Some
            &&& exists|i: int| 0 <= i < g.members@.len() && #[trigger] g.members@[i]@ == g.owner@
            &&& g.revision > 0
            &&& trim(g.group_id@).len() > 0
        },
{
    if group_invite_well_formed(g) {
        let ms = views(g.members@);
        assert forall|i: int| 0 <= i < g.members@.len() implies (#[trigger] peer_onion_result(g.members@[i]@)) is Some by {
            assert(ms[i] == g.members@[i]@);
            assert(peer_onion_result(ms[i]) is Some);
        }
        let k = choose|k: int| 0 <= k < ms.len() && ms[k] == g.owner@;
        assert(g.members@[k]@ == g.owner@);
    }
}

} // verus!
