use claude_code_trace::net::{parse_u16, pick_host, pick_port, pick_static_dir, DEFAULT_HTTP_HOST, DEFAULT_HTTP_PORT};

#[test]
fn pick_host_uses_default_when_missing() {
    assert_eq!(pick_host(None), DEFAULT_HTTP_HOST);
}

#[test]
fn pick_host_uses_default_when_empty() {
    assert_eq!(pick_host(Some(String::new())), DEFAULT_HTTP_HOST);
}

#[test]
fn pick_host_uses_provided_value() {
    assert_eq!(pick_host(Some("0.0.0.0".to_string())), "0.0.0.0");
}

#[test]
fn pick_port_uses_default_when_missing() {
    assert_eq!(pick_port(None), DEFAULT_HTTP_PORT);
}

#[test]
fn pick_port_uses_default_when_unparsable() {
    assert_eq!(pick_port(Some("not-a-number".to_string())), DEFAULT_HTTP_PORT);
}

#[test]
fn pick_port_uses_parsed_value() {
    assert_eq!(pick_port(Some("8080".to_string())), 8080);
}

#[test]
fn default_bind_address_values() {
    assert_eq!(DEFAULT_HTTP_HOST, "127.0.0.1");
    assert_eq!(DEFAULT_HTTP_PORT, 11423);
}

#[test]
fn parse_u16_matches_std_parse() {
    let cases = [
        "0", "65535", "65536", "+80", "-1", "-0", "+", "", " 80", "80 ", "0080", "99999999999999999999", "12a", "٣",
    ];
    for c in cases {
        assert_eq!(parse_u16(c), c.parse::<u16>().ok(), "case {c:?}");
    }
}

#[test]
fn pick_port_edge_values() {
    assert_eq!(pick_port(Some("65535".to_string())), 65535);
    assert_eq!(pick_port(Some("65536".to_string())), DEFAULT_HTTP_PORT);
    assert_eq!(pick_port(Some("+443".to_string())), 443);
    assert_eq!(pick_port(Some("".to_string())), DEFAULT_HTTP_PORT);
}

#[test]
fn pick_static_dir_ignores_empty() {
    assert_eq!(pick_static_dir(None), None);
    assert_eq!(pick_static_dir(Some(String::new())), None);
    assert_eq!(pick_static_dir(Some("/srv/www".to_string())), Some("/srv/www".to_string()));
}
