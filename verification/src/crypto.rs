//! The outside cryptographic and encoding primitives that the chat logic
//! calls. Each function here makes one call into its crate; what the call
//! returns is named (an uninterpreted function of the arguments) or stated,
//! and the short facts that the crates document are given with it.
use vstd::prelude::*;

use base64::Engine;
use chacha20poly1305::aead::{Aead, KeyInit};
use ed25519_dalek::{Signer, Verifier};
use hmac::Mac;
use rand::RngCore;
use sha2::Digest;

verus! {

/// The standard (padded) base64 text of `bytes`.
pub uninterp spec fn base64_encoded(bytes: Seq<u8>) -> Seq<char>;

/// The bytes that the standard base64 text `text` decodes to, if it is valid.
pub uninterp spec fn base64_decoded(text: Seq<char>) -> Option<Seq<u8>>;

/// `base64::engine::general_purpose::STANDARD.encode`: the padded base64 text,
/// `4 * ceil(n / 3)` characters long, which decodes back to the input.
#[verifier::external_body]
pub(crate) fn base64_encode(bytes: &[u8]) -> (r: String)
    requires
        4 * ((bytes@.len() + 2) / 3) <= usize::MAX,
    ensures
        r@ == base64_encoded(bytes@),
        r@.len() == 4 * ((bytes@.len() + 2) / 3),
        base64_decoded(r@) == Some(bytes@),
{
    base64::engine::general_purpose::STANDARD.encode(bytes)
}

/// `base64::engine::general_purpose::STANDARD.decode`: the decoded bytes, or
/// `None` where the engine reports an error.
#[verifier::external_body]
pub(crate) fn base64_decode(text: &str) -> (r: Option<Vec<u8>>)
    ensures
        match r {
            Some(b) => base64_decoded(text@) == Some(b@),
            None => base64_decoded(text@) is None,
        },
{
    match base64::engine::general_purpose::STANDARD.decode(text) {
        Ok(b) => Some(b),
        Err(_) => None,
    }
}

/// The Ed25519 public key of the 32-byte secret key `secret`.
pub uninterp spec fn ed25519_public_key(secret: Seq<u8>) -> Seq<u8>;

/// The Ed25519 signature of `msg` under the secret key `secret`.
pub uninterp spec fn ed25519_signature(secret: Seq<u8>, msg: Seq<u8>) -> Seq<u8>;

/// Checking the 64-byte signature `sig` of `msg` against the 32-byte public
/// key `key`: `None` when the key is no valid point, else whether the
/// signature holds.
pub uninterp spec fn ed25519_verify_outcome(key: Seq<u8>, msg: Seq<u8>, sig: Seq<u8>) -> Option<
    bool,
>;

/// `ed25519_dalek::SigningKey::from_bytes(..).verifying_key().to_bytes()`:
/// the 32-byte public key of a secret key.
#[verifier::external_body]
pub(crate) fn ed25519_public(secret: &[u8]) -> (r: Vec<u8>)
    requires
        secret@.len() == 32,
    ensures
        r@ == ed25519_public_key(secret@),
        r@.len() == 32,
{
    let secret: [u8; 32] = secret.try_into().unwrap();
    ed25519_dalek::SigningKey::from_bytes(&secret).verifying_key().to_bytes().to_vec()
}

/// `ed25519_dalek::SigningKey::sign`: the 64-byte signature of `msg`, which
/// the public key of the same secret accepts.
#[verifier::external_body]
pub(crate) fn ed25519_sign(secret: &[u8], msg: &[u8]) -> (r: Vec<u8>)
    requires
        secret@.len() == 32,
    ensures
        r@ == ed25519_signature(secret@, msg@),
        r@.len() == 64,
        ed25519_verify_outcome(ed25519_public_key(secret@), msg@, r@) == Some(true),
{
    let secret: [u8; 32] = secret.try_into().unwrap();
    ed25519_dalek::SigningKey::from_bytes(&secret).sign(msg).to_bytes().to_vec()
}

/// `ed25519_dalek::VerifyingKey::from_bytes` followed by `Verifier::verify`:
/// `None` when the key bytes are no valid point, else whether the signature
/// verifies.
#[verifier::external_body]
pub(crate) fn ed25519_verify(key: &[u8], msg: &[u8], sig: &[u8]) -> (r: Option<bool>)
    requires
        key@.len() == 32,
        sig@.len() == 64,
    ensures
        r == ed25519_verify_outcome(key@, msg@, sig@),
{
    let key: [u8; 32] = key.try_into().unwrap();
    let sig: [u8; 64] = sig.try_into().unwrap();
    match ed25519_dalek::VerifyingKey::from_bytes(&key) {
        Ok(k) => Some(k.verify(msg, &ed25519_dalek::Signature::from_bytes(&sig)).is_ok()),
        Err(_) => None,
    }
}

/// The X25519 public key of the 32-byte secret `secret`.
pub uninterp spec fn x25519_public_key(secret: Seq<u8>) -> Seq<u8>;

/// The X25519 shared secret of the secret `secret` with the public key `public`.
pub uninterp spec fn x25519_shared_secret(secret: Seq<u8>, public: Seq<u8>) -> Seq<u8>;

/// `x25519_dalek::PublicKey::from(&StaticSecret::from(secret))`: the 32-byte
/// public key.
#[verifier::external_body]
pub(crate) fn x25519_public(secret: &[u8]) -> (r: Vec<u8>)
    requires
        secret@.len() == 32,
    ensures
        r@ == x25519_public_key(secret@),
        r@.len() == 32,
{
    let secret: [u8; 32] = secret.try_into().unwrap();
    x25519_dalek::PublicKey::from(&x25519_dalek::StaticSecret::from(secret)).as_bytes().to_vec()
}

/// `x25519_dalek::StaticSecret::diffie_hellman`: the 32-byte shared secret.
/// Both sides of a key agreement get the same secret: where `public` is the
/// public key of another 32-byte secret `other`, the result is also what
/// `other` computes with the public key of `secret` (both are the clamped
/// product of the two scalars with the base point, `mul_clamped` after
/// `mul_base_clamped`).
#[verifier::external_body]
pub(crate) fn x25519_shared(secret: &[u8], public: &[u8]) -> (r: Vec<u8>)
    requires
        secret@.len() == 32,
        public@.len() == 32,
    ensures
        r@ == x25519_shared_secret(secret@, public@),
        r@.len() == 32,
        forall|other: Seq<u8>|
            #![trigger x25519_public_key(other)]
            other.len() == 32 && public@ == x25519_public_key(other) ==> r@ == x25519_shared_secret(
                other,
                x25519_public_key(secret@),
            ),
{
    let secret: [u8; 32] = secret.try_into().unwrap();
    let public: [u8; 32] = public.try_into().unwrap();
    x25519_dalek::StaticSecret::from(secret).diffie_hellman(&x25519_dalek::PublicKey::from(public))
        .as_bytes().to_vec()
}

/// The SHA-256 digest of `data`.
pub uninterp spec fn sha256_digest(data: Seq<u8>) -> Seq<u8>;

/// `sha2::Sha256::digest`: the 32-byte digest.
#[verifier::external_body]
pub(crate) fn sha256(data: &[u8]) -> (r: Vec<u8>)
    ensures
        r@ == sha256_digest(data@),
        r@.len() == 32,
{
    sha2::Sha256::digest(data).to_vec()
}

/// HMAC-SHA256 of `data` under `key`.
pub uninterp spec fn hmac_sha256_tag(key: Seq<u8>, data: Seq<u8>) -> Seq<u8>;

/// `hmac::Hmac::<Sha256>`: keyed with `key` (any length is accepted), fed
/// `data`, finalized: the 32-byte tag.
#[verifier::external_body]
pub(crate) fn hmac_sha256(key: &[u8], data: &[u8]) -> (r: Vec<u8>)
    ensures
        r@ == hmac_sha256_tag(key@, data@),
        r@.len() == 32,
{
    let mut mac = <hmac::Hmac<sha2::Sha256> as Mac>::new_from_slice(key).unwrap();
    mac.update(data);
    mac.finalize().into_bytes().to_vec()
}

/// The ChaCha20-Poly1305 encryption of `plaintext` under `key` and `nonce`
/// (`None` where the cipher refuses it).
pub uninterp spec fn chacha20poly1305_sealed(key: Seq<u8>, nonce: Seq<u8>, plaintext: Seq<u8>) -> Option<
    Seq<u8>,
>;

/// The ChaCha20-Poly1305 decryption of `ciphertext` under `key` and `nonce`
/// (`None` where authentication fails).
pub uninterp spec fn chacha20poly1305_opened(key: Seq<u8>, nonce: Seq<u8>, ciphertext: Seq<u8>) -> Option<
    Seq<u8>,
>;

/// `Aead::encrypt` of `ChaCha20Poly1305::new(key)`: the ciphertext followed
/// by its 16-byte tag, which decrypts under the same key and nonce to the
/// plaintext.
#[verifier::external_body]
pub(crate) fn chacha20poly1305_encrypt(key: &[u8], nonce: &[u8], plaintext: &[u8]) -> (r: Option<
    Vec<u8>,
>)
    requires
        key@.len() == 32,
        nonce@.len() == 12,
    ensures
        match r {
            Some(c) => chacha20poly1305_sealed(key@, nonce@, plaintext@) == Some(c@)
                && c@.len() == plaintext@.len() + 16
                && chacha20poly1305_opened(key@, nonce@, c@) == Some(plaintext@),
            None => chacha20poly1305_sealed(key@, nonce@, plaintext@) is None,
        },
{
    let cipher = chacha20poly1305::ChaCha20Poly1305::new(chacha20poly1305::Key::from_slice(key));
    match cipher.encrypt(chacha20poly1305::Nonce::from_slice(nonce), plaintext) {
        Ok(c) => Some(c),
        Err(_) => None,
    }
}

/// `Aead::decrypt` of `ChaCha20Poly1305::new(key)`: the plaintext, or `None`
/// where the tag does not verify.
#[verifier::external_body]
pub(crate) fn chacha20poly1305_decrypt(key: &[u8], nonce: &[u8], ciphertext: &[u8]) -> (r: Option<
    Vec<u8>,
>)
    requires
        key@.len() == 32,
        nonce@.len() == 12,
    ensures
        match r {
            Some(p) => chacha20poly1305_opened(key@, nonce@, ciphertext@) == Some(p@),
            None => chacha20poly1305_opened(key@, nonce@, ciphertext@) is None,
        },
{
    let cipher = chacha20poly1305::ChaCha20Poly1305::new(chacha20poly1305::Key::from_slice(key));
    match cipher.decrypt(chacha20poly1305::Nonce::from_slice(nonce), ciphertext) {
        Ok(p) => Some(p),
        Err(_) => None,
    }
}

/// The lowercase hexadecimal digit of `d` (below 16).
pub open spec fn hex_digit(d: u8) -> char {
    if d < 10 {
        (('0' as u32) + (d as u32)) as char
    } else {
        (('a' as u32) + (d as u32) - 10) as char
    }
}

/// Two lowercase hexadecimal digits for each byte, high nibble first.
pub open spec fn hex_lower(bytes: Seq<u8>) -> Seq<char>
    decreases bytes.len(),
{
    if bytes.len() == 0 {
        Seq::empty()
    } else {
        hex_lower(bytes.drop_last()) + seq![hex_digit(bytes.last() / 16), hex_digit(bytes.last() % 16)]
    }
}

/// `hex::encode`: each byte as two lowercase hexadecimal digits.
#[verifier::external_body]
pub(crate) fn hex_encode(bytes: &[u8]) -> (r: String)
    ensures
        r@ == hex_lower(bytes@),
{
    hex::encode(bytes)
}

/// A hexadecimal digit, in either case.
pub open spec fn is_hex_char(c: char) -> bool {
    ('0' <= c && c <= '9') || ('a' <= c && c <= 'f') || ('A' <= c && c <= 'F')
}

/// The value of a hexadecimal digit.
pub open spec fn hex_value(c: char) -> int {
    if '0' <= c && c <= '9' {
        (c as int) - ('0' as int)
    } else if 'a' <= c && c <= 'f' {
        (c as int) - ('a' as int) + 10
    } else {
        (c as int) - ('A' as int) + 10
    }
}

/// The bytes that the hexadecimal text `text` stands for: an even number
/// of digits of either case, two per byte, high nibble first; `None` for
/// any other text.
pub open spec fn hex_decoded(text: Seq<char>) -> Option<Seq<u8>> {
    if text.len() % 2 == 0 && forall|i: int| 0 <= i < text.len() ==> is_hex_char(#[trigger] text[i]) {
        Some(
            Seq::new(
                text.len() / 2,
                |i: int| (hex_value(text[2 * i]) * 16 + hex_value(text[2 * i + 1])) as u8,
            ),
        )
    } else {
        None
    }
}

/// `hex::decode`: the bytes, or `None` where the text has an odd length or
/// a character that is no hexadecimal digit (`FromHex for Vec<u8>`).
#[verifier::external_body]
pub(crate) fn hex_decode(text: &str) -> (r: Option<Vec<u8>>)
    ensures
        match r {
            Some(b) => hex_decoded(text@) == Some(b@),
            None => hex_decoded(text@) is None,
        },
{
    match hex::decode(text) {
        Ok(b) => Some(b),
        Err(_) => None,
    }
}

/// `rand::rngs::OsRng::fill_bytes`: `len` bytes from the operating system's
/// generator. Nothing is stated of their values.
#[verifier::external_body]
pub(crate) fn os_random_bytes(len: usize) -> (r: Vec<u8>)
    ensures
        r@.len() == len,
{
    let mut buf = vec![0u8; len];
    rand::rngs::OsRng.fill_bytes(&mut buf);
    buf
}

/// `rand::thread_rng().fill_bytes`: `len` bytes from the thread's generator.
/// Nothing is stated of their values.
#[verifier::external_body]
pub(crate) fn thread_random_bytes(len: usize) -> (r: Vec<u8>)
    ensures
        r@.len() == len,
{
    let mut buf = vec![0u8; len];
    rand::thread_rng().fill_bytes(&mut buf);
    buf
}

/// `rand::random::<[u8; 8]>()`: eight random bytes. Nothing is stated of
/// their values.
#[verifier::external_body]
pub(crate) fn random_eight_bytes() -> (r: Vec<u8>)
    ensures
        r@.len() == 8,
{
    rand::random::<[u8; 8]>().to_vec()
}

/// How `serde_json` writes one character inside a string literal: quote
/// and backslash behind a backslash; backspace, tab, newline, form feed and
/// carriage return as `\b`, `\t`, `\n`, `\f`, `\r`; the other characters
/// below U+0020 as `\u00` and two lowercase hexadecimal digits; every other
/// character as itself.
pub open spec fn json_escape_char(c: char) -> Seq<char> {
    let u = c as u32;
    if c == '"' {
        seq!['\\', '"']
    } else if c == '\\' {
        seq!['\\', '\\']
    } else if u == 8 {
        seq!['\\', 'b']
    } else if u == 9 {
        seq!['\\', 't']
    } else if u == 10 {
        seq!['\\', 'n']
    } else if u == 12 {
        seq!['\\', 'f']
    } else if u == 13 {
        seq!['\\', 'r']
    } else if u < 0x20 {
        seq!['\\', 'u', '0', '0', hex_digit((u / 16) as u8), hex_digit((u % 16) as u8)]
    } else {
        seq![c]
    }
}

/// The characters of `s`, each escaped for a JSON string literal.
pub open spec fn json_escaped(s: Seq<char>) -> Seq<char>
    decreases s.len(),
{
    if s.len() == 0 {
        Seq::empty()
    } else {
        json_escaped(s.drop_last()) + json_escape_char(s.last())
    }
}

/// The JSON string literal of the text `s`: its escaped characters between
/// double quotes.
pub open spec fn json_quoted(s: Seq<char>) -> Seq<char> {
    seq!['"'] + json_escaped(s) + seq!['"']
}

/// `serde_json::to_string` of a string slice: its JSON string literal, as
/// `format_escaped_str` in serde_json's serializer writes it (writing a
/// string into memory does not fail).
#[verifier::external_body]
pub(crate) fn json_quote(s: &str) -> (r: String)
    ensures
        r@ == json_quoted(s@),
{
    match serde_json::to_string(s) {
        Ok(q) => q,
        Err(_) => String::new(),
    }
}

} // verus!
