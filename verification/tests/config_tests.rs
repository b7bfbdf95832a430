use tombola::config::{parse_config, parse_unsigned_max, ClientConfig, ServerConfig};

#[test]
fn test_parse_config() {
    let content = r#"
        # This is a comment
        host = 192.168.1.100
        port = 8080
        # Another comment
        max_connections = 50
    "#;

    let config = parse_config(content).unwrap();
    assert_eq!(config.get("host"), Some(&"192.168.1.100".to_string()));
    assert_eq!(config.get("port"), Some(&"8080".to_string()));
    assert_eq!(config.get("max_connections"), Some(&"50".to_string()));
}

#[test]
fn test_server_config_default() {
    let config = ServerConfig::default();
    assert_eq!(config.host, "127.0.0.1");
    assert_eq!(config.port, 3000);
}

#[test]
fn test_client_config_default() {
    let config = ClientConfig::default();
    assert_eq!(config.host, "127.0.0.1");
    assert_eq!(config.port, 3000);
    assert_eq!(config.timeout, 30);
    assert_eq!(config.retry_attempts, 3);
    assert_eq!(config.client_name, "DefaultClient");
}

#[test]
fn test_client_config_server_url() {
    let config = ClientConfig {
        host: "192.168.1.100".to_string(),
        port: 8080,
        timeout: 30,
        retry_attempts: 3,
        client_name: "TestClient".to_string(),
    };
    assert_eq!(config.server_url(), "http://192.168.1.100:8080");
}

#[test]
fn later_lines_override_and_odd_lines_are_skipped() {
    let content = "a=1\r\nno equals here\n#b=2\n a = x = y \nA=3\na=4";
    let config = parse_config(content).unwrap();
    assert_eq!(config.get("a"), Some(&"4".to_string()));
    assert_eq!(config.get("A"), Some(&"3".to_string()));
    assert_eq!(config.get("#b"), None);
    assert_eq!(config.len(), 2);
    let c2 = parse_config(" k = x = y ").unwrap();
    assert_eq!(c2.get("k"), Some(&"x = y".to_string()));
}

#[test]
fn unsigned_numbers_parse_like_str_parse() {
    assert_eq!(parse_unsigned_max("8080", 65535), Some(8080));
    assert_eq!(parse_unsigned_max("+7", 65535), Some(7));
    assert_eq!(parse_unsigned_max("65535", 65535), Some(65535));
    assert_eq!(parse_unsigned_max("65536", 65535), None);
    assert_eq!(parse_unsigned_max("", 65535), None);
    assert_eq!(parse_unsigned_max("+", 65535), None);
    assert_eq!(parse_unsigned_max("-1", 65535), None);
    assert_eq!(parse_unsigned_max("12a", 65535), None);
    assert_eq!(parse_unsigned_max("18446744073709551615", u64::MAX), Some(u64::MAX));
    assert_eq!(parse_unsigned_max("18446744073709551616", u64::MAX), None);
    for s in ["0", "42", "007", "999999", "+0"] {
        assert_eq!(parse_unsigned_max(s, 65535), s.parse::<u16>().ok().map(|v| v as u64));
    }
}

#[test]
fn configs_from_text_use_defaults_for_missing_or_bad_values() {
    let sc = ServerConfig::from_text("host = 10.0.0.1\nport = 99999\n").unwrap();
    assert_eq!(sc.host, "10.0.0.1");
    assert_eq!(sc.port, 3000);
    let cc = ClientConfig::from_text("timeout=5\nretry_attempts=x\nclient_name = Bob\nport=4000").unwrap();
    assert_eq!(cc.host, "127.0.0.1");
    assert_eq!(cc.port, 4000);
    assert_eq!(cc.timeout, 5);
    assert_eq!(cc.retry_attempts, 3);
    assert_eq!(cc.client_name, "Bob");
}
