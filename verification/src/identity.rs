//! The local identity: the onion service key that Tor keeps, and the
//! signing and encryption keys, all stored as text.
use vstd::prelude::*;
use crate::crypto::{
    base64_decode, base64_decoded, base64_encode, base64_encoded, ed25519_public, ed25519_public_key,
    ed25519_sign, ed25519_signature, ed25519_verify_outcome, os_random_bytes, x25519_public,
    x25519_public_key,
};
use crate::error::OnionChatError;
use crate::storage::{Storage, now_unix};
use crate::text::{push_text};
use crate::tor::OnionIdentityMaterial;

verus! {

/// Who this installation is.
#[derive(Debug, Clone)]
pub struct Identity {
    pub service_id: String,
    pub private_key: String,
    pub signing_secret_key: String,
    pub signing_public_key: String,
    pub encryption_secret_key: String,
    pub encryption_public_key: String,
    pub created_at_unix: u64,
}

/// The base64 texts of an Ed25519 secret key and of its public key.
pub open spec fn signing_material_of(secret: Seq<u8>) -> (Seq<char>, Seq<char>) {
    (base64_encoded(secret), base64_encoded(ed25519_public_key(secret)))
}

/// The base64 texts of an X25519 secret and of its public key.
pub open spec fn encryption_material_of(secret: Seq<u8>) -> (Seq<char>, Seq<char>) {
    (base64_encoded(secret), base64_encoded(x25519_public_key(secret)))
}

/// The signing key pair of an identity belongs together: the secret is
/// base64 of 32 bytes and the public key is base64 of its public key.
pub open spec fn signing_keys_match(id: Identity) -> bool {
    match base64_decoded(id.signing_secret_key@) {
        Some(s) => s.len() == 32 && base64_decoded(id.signing_public_key@) == Some(ed25519_public_key(s))
            && ed25519_public_key(s).len() == 32,
        None => false,
    }
}

/// The encryption key pair of an identity belongs together: the secret is
/// base64 of 32 bytes and the public key is base64 of its public key.
pub open spec fn encryption_keys_match(id: Identity) -> bool {
    match base64_decoded(id.encryption_secret_key@) {
        Some(s) => s.len() == 32 && base64_decoded(id.encryption_public_key@) == Some(x25519_public_key(s)),
        None => false,
    }
}

/// The two texts of the signing key pair are base64 of 32 bytes: 44
/// characters each.
pub open spec fn signing_texts_full(id: Identity) -> bool {
    id.signing_secret_key@.len() == 44 && id.signing_public_key@.len() == 44
}

/// The two texts of the encryption key pair are base64 of 32 bytes: 44
/// characters each.
pub open spec fn encryption_texts_full(id: Identity) -> bool {
    id.encryption_secret_key@.len() == 44 && id.encryption_public_key@.len() == 44
}

/// The texts of a newly made signing key pair.
pub fn signing_material(secret: &[u8]) -> (r: (String, String))
    requires
        secret@.len() == 32,
    ensures
        (r.0@, r.1@) == signing_material_of(secret@),
        base64_decoded(r.0@) == Some(secret@),
        base64_decoded(r.1@) == Some(ed25519_public_key(secret@)),
        ed25519_public_key(secret@).len() == 32,
        r.0@.len() == 44,
        r.1@.len() == 44,
{
    let public = ed25519_public(secret);
    (base64_encode(secret), base64_encode(public.as_slice()))
}

/// The texts of a newly made encryption key pair.
pub fn encryption_material(secret: &[u8]) -> (r: (String, String))
    requires
        secret@.len() == 32,
    ensures
        (r.0@, r.1@) == encryption_material_of(secret@),
        base64_decoded(r.0@) == Some(secret@),
        base64_decoded(r.1@) == Some(x25519_public_key(secret@)),
        r.0@.len() == 44,
        r.1@.len() == 44,
{
    let public = x25519_public(secret);
    (base64_encode(secret), base64_encode(public.as_slice()))
}

/// A signing key pair from 32 random bytes.
fn generate_signing_material() -> (r: (String, String))
    ensures
        exists|s: Seq<u8>| s.len() == 32 && (r.0@, r.1@) == signing_material_of(s)
            && base64_decoded(r.0@) == Some(s) && base64_decoded(r.1@) == Some(ed25519_public_key(s))
            && ed25519_public_key(s).len() == 32,
        r.0@.len() == 44,
        r.1@.len() == 44,
{
    let secret = os_random_bytes(32);
    signing_material(secret.as_slice())
}

/// An encryption key pair from 32 random bytes.
fn generate_encryption_material() -> (r: (String, String))
    ensures
        exists|s: Seq<u8>| s.len() == 32 && (r.0@, r.1@) == encryption_material_of(s)
            && base64_decoded(r.0@) == Some(s) && base64_decoded(r.1@) == Some(x25519_public_key(s)),
        r.0@.len() == 44,
        r.1@.len() == 44,
{
    let secret = os_random_bytes(32);
    encryption_material(secret.as_slice())
}

/// One key of a pair is missing.
pub open spec fn pair_missing(secret: Seq<char>, public: Seq<char>) -> bool {
    secret.len() == 0 || public.len() == 0
}

/// The identity after key completion: a pair with a missing half is
/// replaced by the given material; everything else stays.
pub open spec fn completed(id: Identity, signing: (Seq<char>, Seq<char>), encryption: (Seq<char>, Seq<char>), r: Identity) -> bool {
    &&& r.service_id == id.service_id
    &&& r.private_key == id.private_key
    &&& r.created_at_unix == id.created_at_unix
    &&& if pair_missing(id.signing_secret_key@, id.signing_public_key@) {
        r.signing_secret_key@ == signing.0 && r.signing_public_key@ == signing.1
    } else {
        r.signing_secret_key == id.signing_secret_key && r.signing_public_key == id.signing_public_key
    }
    &&& if pair_missing(id.encryption_secret_key@, id.encryption_public_key@) {
        r.encryption_secret_key@ == encryption.0 && r.encryption_public_key@ == encryption.1
    } else {
        r.encryption_secret_key == id.encryption_secret_key
            && r.encryption_public_key == id.encryption_public_key
    }
}

impl Identity {
    /// A new identity for the onion service that Tor created, with fresh
    /// signing and encryption keys, created now.
    pub fn create(created: OnionIdentityMaterial) -> (r: Identity)
        ensures
            r.service_id == created.service_id,
            r.private_key == created.private_key,
            signing_keys_match(r),
            encryption_keys_match(r),
            signing_texts_full(r),
            encryption_texts_full(r),
            exists|s: Seq<u8>| s.len() == 32
                && (r.encryption_secret_key@, r.encryption_public_key@) == encryption_material_of(s),
    {
        let (signing_secret_key, signing_public_key) = generate_signing_material();
        let (encryption_secret_key, encryption_public_key) = generate_encryption_material();
        Identity {
            service_id: created.service_id,
            private_key: created.private_key,
            signing_secret_key,
            signing_public_key,
            encryption_secret_key,
            encryption_public_key,
            created_at_unix: now_unix(),
        }
    }

    /// Fills in a key pair of which a half is missing, with the given
    /// secrets; tells whether anything changed (and must be saved).
    pub fn complete_keys(self, signing_secret: &[u8], encryption_secret: &[u8]) -> (r: (Identity, bool))
        requires
            signing_secret@.len() == 32,
            encryption_secret@.len() == 32,
        ensures
            completed(self, signing_material_of(signing_secret@), encryption_material_of(encryption_secret@), r.0),
            r.1 == (pair_missing(self.signing_secret_key@, self.signing_public_key@)
                || pair_missing(self.encryption_secret_key@, self.encryption_public_key@)),
            pair_missing(self.signing_secret_key@, self.signing_public_key@) ==> signing_keys_match(r.0)
                && signing_texts_full(r.0),
            pair_missing(self.encryption_secret_key@, self.encryption_public_key@) ==> encryption_keys_match(r.0)
                && encryption_texts_full(r.0),
    {
        let mut identity = self;
        let mut changed = false;
        if identity.signing_secret_key.as_str().is_empty() || identity.signing_public_key.as_str().is_empty() {
            let (secret, public) = signing_material(signing_secret);
            identity.signing_secret_key = secret;
            identity.signing_public_key = public;
            changed = true;
        }
        if identity.encryption_secret_key.as_str().is_empty()
            || identity.encryption_public_key.as_str().is_empty() {
            let (secret, public) = encryption_material(encryption_secret);
            identity.encryption_secret_key = secret;
            identity.encryption_public_key = public;
            changed = true;
        }
        (identity, changed)
    }

    /// The identity as stored (`None` when there is none), with any missing
    /// key pair made fresh; tells whether it must be saved again.
    pub fn load(stored: Option<Identity>) -> (r: Result<(Identity, bool), OnionChatError>)
        ensures
            stored is None ==> r == Err::<(Identity, bool), OnionChatError>(OnionChatError::MissingIdentity),
            stored is Some ==> r is Ok,
            stored is Some && r is Ok ==> ({
                let id = stored->Some_0;
                let loaded = (r->Ok_0).0;
                &&& exists|s: Seq<u8>, e: Seq<u8>| s.len() == 32 && e.len() == 32
                    && completed(id, signing_material_of(s), encryption_material_of(e), loaded)
                &&& (r->Ok_0).1 == (pair_missing(id.signing_secret_key@, id.signing_public_key@)
                    || pair_missing(id.encryption_secret_key@, id.encryption_public_key@))
                &&& signing_keys_match(id) ==> signing_keys_match(loaded)
                &&& pair_missing(id.signing_secret_key@, id.signing_public_key@) ==> signing_keys_match(loaded)
                    && signing_texts_full(loaded)
                &&& pair_missing(id.encryption_secret_key@, id.encryption_public_key@) ==> encryption_keys_match(loaded)
                    && encryption_texts_full(loaded)
            }),
    {
        match stored {
            None => {
                Err(OnionChatError::MissingIdentity)
            },
            Some(id) => {
                let s = os_random_bytes(32);
                let e = os_random_bytes(32);
                let ghost before = id;
                let r = id.complete_keys(s.as_slice(), e.as_slice());
                assert(completed(before, signing_material_of(s@), encryption_material_of(e@), r.0));
                assert(exists|s2: Seq<u8>, e2: Seq<u8>| s2.len() == 32 && e2.len() == 32
                    && completed(before, signing_material_of(s2), encryption_material_of(e2), r.0));
                assert(r.1 == (pair_missing(before.signing_secret_key@, before.signing_public_key@)
                    || pair_missing(before.encryption_secret_key@, before.encryption_public_key@)));
                assert(signing_keys_match(before) ==> signing_keys_match(r.0));
                assert(pair_missing(before.signing_secret_key@, before.signing_public_key@) ==> signing_keys_match(r.0)
                    && signing_texts_full(r.0));
                assert(pair_missing(before.encryption_secret_key@, before.encryption_public_key@)
                    ==> encryption_keys_match(r.0) && encryption_texts_full(r.0));
                assert(before == stored->Some_0);
                Ok(r)
            },
        }
    }

    /// The onion address: the service id followed by `.onion`.
    pub fn onion_address(&self) -> (r: String)
        ensures
            r@ == self.service_id@ + ".onion"@,
    {
        crate::text::concat(self.service_id.as_str(), ".onion")
    }

    /// The 32-byte signing secret; a key that is not base64 of 32 bytes is
    /// refused as `InvalidInvite`.
    pub fn signing_key(&self) -> (r: Result<Vec<u8>, OnionChatError>)
        ensures
            match base64_decoded(self.signing_secret_key@) {
                Some(k) if k.len() == 32 => r matches Ok(v) && v@ == k,
                _ => r == Err::<Vec<u8>, OnionChatError>(OnionChatError::InvalidInvite),
            },
    {
        match base64_decode(self.signing_secret_key.as_str()) {
            Some(k) => {
                if k.len() != 32 {
                    return Err(OnionChatError::InvalidInvite);
                }
                Ok(k)
            },
            None => Err(OnionChatError::InvalidInvite),
        }
    }

    /// The base64 Ed25519 signature of `bytes` under the signing key.
    pub fn sign_bytes(&self, bytes: &[u8]) -> (r: Result<String, OnionChatError>)
        ensures
            match base64_decoded(self.signing_secret_key@) {
                Some(k) if k.len() == 32 => r matches Ok(s) && s@ == base64_encoded(
                    ed25519_signature(k, bytes@),
                ) && base64_decoded(s@) == Some(ed25519_signature(k, bytes@))
                    && ed25519_signature(k, bytes@).len() == 64
                    && ed25519_verify_outcome(ed25519_public_key(k), bytes@, ed25519_signature(k, bytes@))
                    == Some(true),
                _ => r == Err::<String, OnionChatError>(OnionChatError::InvalidInvite),
            },
    {
        let key = self.signing_key()?;
        let signature = ed25519_sign(key.as_slice(), bytes);
        Ok(base64_encode(signature.as_slice()))
    }

    /// The 32-byte encryption secret; a key that is not base64 of 32 bytes is
    /// refused as `MessageEncryptionFailed`.
    pub fn encryption_secret_key(&self) -> (r: Result<Vec<u8>, OnionChatError>)
        ensures
            match base64_decoded(self.encryption_secret_key@) {
                Some(k) if k.len() == 32 => r matches Ok(v) && v@ == k,
                _ => r == Err::<Vec<u8>, OnionChatError>(OnionChatError::MessageEncryptionFailed),
            },
    {
        match base64_decode(self.encryption_secret_key.as_str()) {
            Some(k) => {
                if k.len() != 32 {
                    return Err(OnionChatError::MessageEncryptionFailed);
                }
                Ok(k)
            },
            None => Err(OnionChatError::MessageEncryptionFailed),
        }
    }

    /// A description of the identity and of where it is stored.
    pub fn summary(&self, storage: &Storage) -> (r: String)
        ensures
            r@ == "onion: "@ + self.service_id@ + ".onion"@ + "\nsigning_public_key: "@
                + self.signing_public_key@ + "\nencryption_public_key: "@
                + self.encryption_public_key@ + "\nconfig_dir: "@ + storage.paths.root@
                + "\nidentity_file: "@ + storage.paths.identity_file@,
    {
        let mut v: Vec<char> = Vec::new();
        let onion = self.onion_address();
        push_text(&mut v, "onion: ");
        push_text(&mut v, onion.as_str());
        push_text(&mut v, "\nsigning_public_key: ");
        push_text(&mut v, self.signing_public_key.as_str());
        push_text(&mut v, "\nencryption_public_key: ");
        push_text(&mut v, self.encryption_public_key.as_str());
        push_text(&mut v, "\nconfig_dir: ");
        push_text(&mut v, storage.paths.root.as_str());
        push_text(&mut v, "\nidentity_file: ");
        push_text(&mut v, storage.paths.identity_file.as_str());
        crate::text::string_of(&v)
    }
}

} // verus!
