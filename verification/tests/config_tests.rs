use rhei_server::config::RheiConfig;
use rhei_server::config::config_from_env;
use rhei_server::config::parse_u16;

#[test]
fn parse_plain_numbers() {
    assert_eq!(parse_u16("0"), Some(0));
    assert_eq!(parse_u16("123"), Some(123));
    assert_eq!(parse_u16("65535"), Some(65535));
    assert_eq!(parse_u16("007"), Some(7));
}

#[test]
fn parse_accepts_leading_plus() {
    assert_eq!(parse_u16("+123"), Some(123));
    assert_eq!(parse_u16("+0"), Some(0));
}

#[test]
fn parse_rejects_bad_input() {
    assert_eq!(parse_u16(""), None);
    assert_eq!(parse_u16("+"), None);
    assert_eq!(parse_u16("abc"), None);
    assert_eq!(parse_u16("12x"), None);
    assert_eq!(parse_u16("-1"), None);
    assert_eq!(parse_u16(" 12"), None);
    assert_eq!(parse_u16("65536"), None);
    assert_eq!(parse_u16("999999"), None);
}

#[test]
fn parse_agrees_with_standard_parsing() {
    for s in ["0", "80", "+8080", "65535", "65536", "", "x", "1 2"] {
        assert_eq!(parse_u16(s), s.parse::<u16>().ok(), "input {:?}", s);
    }
}

#[test]
fn default_config() {
    let c = RheiConfig::default();
    assert_eq!(c.ip, "0.0.0.0");
    assert_eq!(c.port, 3000);
}

#[test]
fn config_uses_environment_values() {
    let c = config_from_env(Some("127.0.0.1".to_string()), Some("8080".to_string()));
    assert_eq!(c.ip, "127.0.0.1");
    assert_eq!(c.port, 8080);
}

#[test]
fn config_falls_back_on_missing_or_bad_values() {
    let c = config_from_env(None, None);
    assert_eq!(c.ip, "0.0.0.0");
    assert_eq!(c.port, 3000);

    let c = config_from_env(None, Some("not-a-port".to_string()));
    assert_eq!(c.port, 3000);

    let c = config_from_env(None, Some("70000".to_string()));
    assert_eq!(c.port, 3000);
}
