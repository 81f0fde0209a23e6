use hmac::{Hmac, Mac};
use onionchat::error::{Failure, OnionChatError};
use onionchat::tor::{
    active_service_from_reply, add_onion_command, add_onion_new_command, check_safecookie_cookie,
    choose_auth_method, del_onion_command, flatten_reply, identity_material_from_reply, parse_kv_pairs,
    safecookie_authenticate_command, safecookie_challenge_command, safecookie_client_nonce, safecookie_hmac,
    split_quoted_fields, split_words, trim_reply_line, AuthMethod, ReplyProgress, ReplyReader,
};
use sha2::Sha256;

const SERVER_KEY: &[u8] = b"Tor safe cookie authentication server-to-controller hash";
const CLIENT_KEY: &[u8] = b"Tor safe cookie authentication controller-to-server hash";

fn hmac_of(key: &[u8], parts: &[&[u8]]) -> Vec<u8> {
    let mut mac = Hmac::<Sha256>::new_from_slice(key).unwrap();
    for part in parts {
        mac.update(part);
    }
    mac.finalize().into_bytes().to_vec()
}

fn lines(items: &[&str]) -> Vec<String> {
    items.iter().map(|s| s.to_string()).collect()
}

#[test]
fn quoted_fields_keep_spaces_inside_quotes() {
    assert_eq!(
        split_quoted_fields("AUTH METHODS=COOKIE,SAFECOOKIE COOKIEFILE=\"/var/run/tor/control auth\""),
        vec![
            "AUTH".to_string(),
            "METHODS=COOKIE,SAFECOOKIE".to_string(),
            "COOKIEFILE=\"/var/run/tor/control auth\"".to_string(),
        ]
    );
    assert_eq!(split_quoted_fields("a=\"x\\\"y\" b"), vec!["a=\"x\"y\"".to_string(), "b".to_string()]);
    assert!(split_quoted_fields("   ").is_empty());
}

#[test]
fn key_value_attributes_lose_their_quotes() {
    let attrs = parse_kv_pairs("AUTH METHODS=NULL,SAFECOOKIE COOKIEFILE=\"/tmp/cookie file\" X=1 X=2");
    assert_eq!(attrs.get("METHODS"), Some("NULL,SAFECOOKIE".to_string()));
    assert_eq!(attrs.get("COOKIEFILE"), Some("/tmp/cookie file".to_string()));
    assert_eq!(attrs.get("X"), Some("2".to_string()));
    assert_eq!(attrs.get("AUTH"), None);
}

#[test]
fn flattened_reply_collects_every_word_pair() {
    let values = flatten_reply(&lines(&["ServiceID=abc PrivateKey=ED25519-V3:key=x", "Other=1 ServiceID=def"]));
    assert_eq!(values.get("ServiceID"), Some("def".to_string()));
    assert_eq!(values.get("PrivateKey"), Some("ED25519-V3:key=x".to_string()));
    assert_eq!(values.get("Other"), Some("1".to_string()));
    assert_eq!(values.get("Missing"), None);
    assert_eq!(split_words("  a \t b\nc  "), vec!["a".to_string(), "b".to_string(), "c".to_string()]);
}

#[test]
fn reply_reader_collects_lines_until_the_end_line() {
    let mut reader = ReplyReader::new();
    assert!(reader.feed(Some("250-PROTOCOLINFO 1\r\n")) == Ok(ReplyProgress::More));
    assert!(reader.feed(Some("250-AUTH METHODS=NULL\r\n")) == Ok(ReplyProgress::More));
    assert!(reader.feed(Some("250 OK\r\n")) == Ok(ReplyProgress::Complete));
    assert_eq!(reader.lines, lines(&["PROTOCOLINFO 1", "AUTH METHODS=NULL"]));

    let mut reader = ReplyReader::new();
    assert!(reader.feed(Some("250 ServiceID=abc\n")) == Ok(ReplyProgress::Complete));
    assert_eq!(reader.lines, lines(&["ServiceID=abc"]));
}

#[test]
fn reply_reader_joins_a_data_block() {
    let mut reader = ReplyReader::new();
    assert!(reader.feed(Some("250+info=\r\n")) == Ok(ReplyProgress::More));
    assert!(reader.feed(Some("line one\r\n")) == Ok(ReplyProgress::More));
    assert!(reader.feed(Some("line two\r\n")) == Ok(ReplyProgress::More));
    assert!(reader.feed(Some(".\r\n")) == Ok(ReplyProgress::More));
    assert!(reader.feed(Some("250 OK\r\n")) == Ok(ReplyProgress::Complete));
    assert_eq!(reader.lines, lines(&["info==line oneline two"]));
}

#[test]
fn reply_reader_refuses_bad_lines() {
    let mut reader = ReplyReader::new();
    assert_eq!(
        reader.feed(Some("515 Authentication failed\r\n")),
        Err(Failure::Chat(OnionChatError::TorProtocol("515 Authentication failed".to_string())))
    );
    assert_eq!(
        reader.feed(Some("25\r\n")),
        Err(Failure::Other("malformed Tor control reply: 25".to_string()))
    );
    assert_eq!(
        reader.feed(Some("250*odd\r\n")),
        Err(Failure::Other("unknown Tor reply separator: *".to_string()))
    );
    assert_eq!(
        reader.feed(None),
        Err(Failure::Other("Tor control port closed unexpectedly".to_string()))
    );
    assert!(reader.lines.is_empty());
    assert_eq!(trim_reply_line("250 OK\r\n\r\n"), "250 OK");
}

#[test]
fn safecookie_is_preferred_over_null() {
    let reply = lines(&[
        "PROTOCOLINFO 1",
        "AUTH METHODS=NULL,SAFECOOKIE COOKIEFILE=\"/run/tor/control.authcookie\"",
        "VERSION Tor=\"0.4.8\"",
    ]);
    match choose_auth_method(&reply) {
        Ok(AuthMethod::SafeCookie(path)) => assert_eq!(path, "/run/tor/control.authcookie"),
        _ => panic!("expected SAFECOOKIE"),
    }
    match choose_auth_method(&lines(&["AUTH METHODS=NULL"])) {
        Ok(AuthMethod::Null) => {}
        _ => panic!("expected NULL"),
    }
}

#[test]
fn unusable_auth_offers_are_refused() {
    assert!(matches!(
        choose_auth_method(&lines(&["PROTOCOLINFO 1"])),
        Err(Failure::Chat(OnionChatError::TorProtocol(m))) if m == "missing AUTH line in PROTOCOLINFO"
    ));
    assert!(matches!(
        choose_auth_method(&lines(&["AUTH METHODS=SAFECOOKIE"])),
        Err(Failure::Chat(OnionChatError::TorAuth(m))) if m == "SAFECOOKIE offered without COOKIEFILE"
    ));
    assert!(matches!(
        choose_auth_method(&lines(&["AUTH METHODS=HASHEDPASSWORD,COOKIE"])),
        Err(Failure::Chat(OnionChatError::TorAuth(m)))
            if m == "unsupported Tor authentication methods: HASHEDPASSWORD,COOKIE"
    ));
}

#[test]
fn safecookie_exchange_proves_both_sides() {
    let cookie = [0x11u8; 32];
    let client_nonce = [0x22u8; 32];
    let server_nonce = [0x33u8; 32];
    let server_hash = hmac_of(SERVER_KEY, &[&cookie, &client_nonce, &server_nonce]);
    let client_hash = hmac_of(CLIENT_KEY, &[&cookie, &client_nonce, &server_nonce]);
    assert_eq!(safecookie_hmac(SERVER_KEY, &cookie, &client_nonce, &server_nonce), server_hash);

    let reply = vec![format!(
        "AUTHCHALLENGE SERVERHASH={} SERVERNONCE={}",
        hex::encode_upper(&server_hash),
        hex::encode(server_nonce)
    )];
    assert_eq!(
        safecookie_authenticate_command(&reply, &cookie, &client_nonce),
        Ok(format!("AUTHENTICATE {}", hex::encode(&client_hash)))
    );

    let forged = vec![format!(
        "AUTHCHALLENGE SERVERHASH={} SERVERNONCE={}",
        hex::encode(&client_hash),
        hex::encode(server_nonce)
    )];
    assert_eq!(
        safecookie_authenticate_command(&forged, &cookie, &client_nonce),
        Err(Failure::Chat(OnionChatError::TorAuth("SAFECOOKIE server hash verification failed".to_string())))
    );
    assert_eq!(
        safecookie_authenticate_command(&lines(&["SERVERNONCE=00"]), &cookie, &client_nonce),
        Err(Failure::Other("Tor did not return SERVERHASH".to_string()))
    );
    assert_eq!(
        safecookie_authenticate_command(&lines(&["SERVERHASH=zz SERVERNONCE=00"]), &cookie, &client_nonce),
        Err(Failure::Other("invalid SERVERHASH hex".to_string()))
    );
    assert_eq!(
        safecookie_authenticate_command(&lines(&["SERVERHASH=00"]), &cookie, &client_nonce),
        Err(Failure::Other("Tor did not return SERVERNONCE".to_string()))
    );
    assert_eq!(
        safecookie_authenticate_command(&lines(&["SERVERHASH=00 SERVERNONCE=0"]), &cookie, &client_nonce),
        Err(Failure::Other("invalid SERVERNONCE hex".to_string()))
    );
}

#[test]
fn safecookie_inputs_have_their_sizes() {
    assert_eq!(check_safecookie_cookie(&[0u8; 32]), Ok(()));
    assert_eq!(
        check_safecookie_cookie(&[0u8; 31]),
        Err(OnionChatError::TorAuth("Tor SAFECOOKIE cookie must be 32 bytes".to_string()))
    );
    let nonce = safecookie_client_nonce();
    assert_eq!(nonce.len(), 32);
    assert_eq!(
        safecookie_challenge_command(&[0xab, 0x01]),
        "AUTHCHALLENGE SAFECOOKIE ab01"
    );
}

#[test]
fn onion_commands_have_their_documented_form() {
    assert_eq!(add_onion_new_command(17654), "ADD_ONION NEW:ED25519-V3 Port=17654,127.0.0.1:1");
    assert_eq!(
        add_onion_command("ED25519-V3:secret", 80, 40123),
        "ADD_ONION ED25519-V3:secret Port=80,127.0.0.1:40123"
    );
    assert_eq!(add_onion_command("k", 0, 65535), "ADD_ONION k Port=0,127.0.0.1:65535");
    assert_eq!(del_onion_command("abc"), "DEL_ONION abc");
}

#[test]
fn add_onion_replies_give_the_service() {
    let reply = lines(&["ServiceID=abcdef", "PrivateKey=ED25519-V3:secret"]);
    let material = identity_material_from_reply(&reply).ok().unwrap();
    assert_eq!(material.service_id, "abcdef");
    assert_eq!(material.private_key, "ED25519-V3:secret");
    let service = active_service_from_reply(&reply).ok().unwrap();
    assert_eq!(service.service_id, "abcdef");
    assert_eq!(service.onion_address, "abcdef.onion");
    assert!(matches!(
        identity_material_from_reply(&lines(&["ServiceID=abcdef"])),
        Err(Failure::Other(m)) if m == "Tor did not return PrivateKey"
    ));
    assert!(matches!(
        active_service_from_reply(&lines(&["PrivateKey=x"])),
        Err(Failure::Other(m)) if m == "Tor did not return ServiceID"
    ));
}
