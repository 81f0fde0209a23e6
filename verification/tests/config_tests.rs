use onionchat::config::{
    default_control_host, default_control_port, default_log_level, default_max_message_bytes,
    default_onion_virtual_port, default_socks_host, default_socks_port, AppConfig, RuntimeConfig, TorConfig,
};
use onionchat::text::{decimal_string, string_less, trim_chars};

#[test]
fn defaults_match_a_local_tor() {
    let config = AppConfig::default();
    assert_eq!(config.tor.control_host, "127.0.0.1");
    assert_eq!(config.tor.control_port, 9051);
    assert_eq!(config.tor.socks_host, "127.0.0.1");
    assert_eq!(config.tor.socks_port, 9050);
    assert_eq!(config.app.onion_virtual_port, 17654);
    assert_eq!(config.app.log_level, "info");
    assert_eq!(config.app.max_message_bytes, 4096);
    assert_eq!(TorConfig::default().control_port, default_control_port());
    assert_eq!(RuntimeConfig::default().max_message_bytes, default_max_message_bytes());
    assert_eq!(default_control_host(), default_socks_host());
    assert_eq!(default_socks_port(), 9050);
    assert_eq!(default_onion_virtual_port(), 17654);
    assert_eq!(default_log_level(), "info");
}

#[test]
fn decimal_text_and_concatenation() {
    assert_eq!(decimal_string(0), "0");
    assert_eq!(decimal_string(17654), "17654");
    assert_eq!(decimal_string(u64::MAX), "18446744073709551615");
    assert_eq!(onionchat::text::concat("ab", "cd"), "abcd");
}

#[test]
fn text_order_is_by_code_point_then_length() {
    assert!(string_less(&"abc".to_string(), &"abd".to_string()));
    assert!(string_less(&"ab".to_string(), &"abc".to_string()));
    assert!(!string_less(&"abc".to_string(), &"abc".to_string()));
    assert!(string_less(&"Z".to_string(), &"a".to_string()));
    assert_eq!(trim_chars(&" \t x y \u{3000}".chars().collect()), vec!['x', ' ', 'y']);
}
