use base64::Engine;
use ed25519_dalek::{Signature, SigningKey, Verifier};
use onionchat::error::OnionChatError;
use onionchat::identity::{encryption_material, signing_material, Identity};
use onionchat::storage::Storage;
use onionchat::tor::OnionIdentityMaterial;
use x25519_dalek::{PublicKey, StaticSecret};

fn b64(bytes: &[u8]) -> String {
    base64::engine::general_purpose::STANDARD.encode(bytes)
}

fn stored_identity() -> Identity {
    Identity {
        service_id: "abcdefghijklmnopqrstuvwxyz234567abcdefghijklmnopqrstuvwxyz2345".into(),
        private_key: "ED25519-V3:dummy".into(),
        signing_secret_key: "AAAAAAAAAAAAAAAAAAAAAAAAAAAAAAAAAAAAAAAAAAA=".into(),
        signing_public_key: "AAAAAAAAAAAAAAAAAAAAAAAAAAAAAAAAAAAAAAAAAAA=".into(),
        encryption_secret_key: "AAAAAAAAAAAAAAAAAAAAAAAAAAAAAAAAAAAAAAAAAAA=".into(),
        encryption_public_key: "AAAAAAAAAAAAAAAAAAAAAAAAAAAAAAAAAAAAAAAAAAA=".into(),
        created_at_unix: 123,
    }
}

#[test]
fn identity_round_trip() {
    let identity = stored_identity();
    let (loaded, changed) = Identity::load(Some(identity.clone())).unwrap();
    assert_eq!(loaded.service_id, identity.service_id);
    assert_eq!(loaded.private_key, identity.private_key);
    assert!(!changed);
    assert_eq!(loaded.signing_secret_key, identity.signing_secret_key);
    assert_eq!(loaded.encryption_public_key, identity.encryption_public_key);
    assert_eq!(loaded.created_at_unix, 123);
}

#[test]
fn missing_identity_is_reported() {
    assert!(matches!(Identity::load(None), Err(OnionChatError::MissingIdentity)));
}

#[test]
fn missing_keys_are_filled_in_on_load() {
    let mut identity = stored_identity();
    identity.signing_public_key = String::new();
    identity.encryption_secret_key = String::new();
    let (loaded, changed) = Identity::load(Some(identity.clone())).unwrap();
    assert!(changed);
    assert_eq!(loaded.service_id, identity.service_id);
    let secret: [u8; 32] = base64::engine::general_purpose::STANDARD
        .decode(&loaded.signing_secret_key)
        .unwrap()
        .try_into()
        .unwrap();
    let public = SigningKey::from_bytes(&secret).verifying_key();
    assert_eq!(loaded.signing_public_key, b64(public.as_bytes()));
    let enc: [u8; 32] = base64::engine::general_purpose::STANDARD
        .decode(&loaded.encryption_secret_key)
        .unwrap()
        .try_into()
        .unwrap();
    assert_eq!(loaded.encryption_public_key, b64(PublicKey::from(&StaticSecret::from(enc)).as_bytes()));
    assert_eq!(loaded.signing_public_key.len(), 44);
    assert_eq!(loaded.encryption_secret_key.len(), 44);
}

#[test]
fn complete_keys_uses_the_given_secrets() {
    let mut identity = stored_identity();
    identity.signing_secret_key = String::new();
    let (filled, changed) = identity.clone().complete_keys(&[3u8; 32], &[4u8; 32]);
    assert!(changed);
    assert_eq!(filled.signing_secret_key, b64(&[3u8; 32]));
    let public = SigningKey::from_bytes(&[3u8; 32]).verifying_key();
    assert_eq!(filled.signing_public_key, b64(public.as_bytes()));
    assert_eq!(filled.encryption_secret_key, identity.encryption_secret_key);
    let (same, changed) = stored_identity().complete_keys(&[3u8; 32], &[4u8; 32]);
    assert!(!changed);
    assert_eq!(same.signing_secret_key, stored_identity().signing_secret_key);
}

#[test]
fn key_material_pairs_secret_and_public() {
    let (secret, public) = signing_material(&[9u8; 32]);
    assert_eq!(secret, b64(&[9u8; 32]));
    assert_eq!(public, b64(SigningKey::from_bytes(&[9u8; 32]).verifying_key().as_bytes()));
    let (secret, public) = encryption_material(&[8u8; 32]);
    assert_eq!(secret, b64(&[8u8; 32]));
    assert_eq!(public, b64(PublicKey::from(&StaticSecret::from([8u8; 32])).as_bytes()));
}

#[test]
fn created_identity_keeps_tor_material_and_has_fresh_keys() {
    let identity = Identity::create(OnionIdentityMaterial {
        service_id: "svc".into(),
        private_key: "ED25519-V3:k".into(),
    });
    assert_eq!(identity.service_id, "svc");
    assert_eq!(identity.private_key, "ED25519-V3:k");
    let secret = identity.signing_key().unwrap();
    let public = SigningKey::from_bytes(&secret.clone().try_into().unwrap()).verifying_key();
    assert_eq!(identity.signing_public_key, b64(public.as_bytes()));
    assert_eq!(identity.encryption_secret_key().unwrap().len(), 32);
    assert_eq!(identity.signing_secret_key.len(), 44);
    assert_eq!(identity.signing_public_key.len(), 44);
    assert_eq!(identity.encryption_secret_key.len(), 44);
    assert_eq!(identity.encryption_public_key.len(), 44);
    let enc: [u8; 32] = identity.encryption_secret_key().unwrap().try_into().unwrap();
    assert_eq!(identity.encryption_public_key, b64(PublicKey::from(&StaticSecret::from(enc)).as_bytes()));
}

#[test]
fn signed_bytes_verify_under_the_public_key() {
    let mut identity = stored_identity();
    let (secret, public) = signing_material(&[5u8; 32]);
    identity.signing_secret_key = secret;
    identity.signing_public_key = public;
    let sig_text = identity.sign_bytes(b"hello").unwrap();
    let sig_bytes: [u8; 64] = base64::engine::general_purpose::STANDARD
        .decode(sig_text)
        .unwrap()
        .try_into()
        .unwrap();
    let key = SigningKey::from_bytes(&[5u8; 32]).verifying_key();
    assert!(key.verify(b"hello", &Signature::from_bytes(&sig_bytes)).is_ok());
}

#[test]
fn malformed_keys_are_refused() {
    let mut identity = stored_identity();
    identity.signing_secret_key = "short".into();
    identity.encryption_secret_key = b64(&[1u8; 16]);
    assert_eq!(identity.signing_key(), Err(OnionChatError::InvalidInvite));
    assert_eq!(identity.sign_bytes(b"x"), Err(OnionChatError::InvalidInvite));
    assert_eq!(identity.encryption_secret_key(), Err(OnionChatError::MessageEncryptionFailed));
}

#[test]
fn summary_names_address_keys_and_files() {
    let identity = stored_identity();
    let storage = Storage::from_root("/tmp/oc".to_string());
    assert_eq!(identity.onion_address(), format!("{}.onion", identity.service_id));
    assert_eq!(
        identity.summary(&storage),
        format!(
            "onion: {}.onion\nsigning_public_key: {}\nencryption_public_key: {}\nconfig_dir: /tmp/oc\nidentity_file: /tmp/oc/identity.json",
            identity.service_id, identity.signing_public_key, identity.encryption_public_key
        )
    );
}
