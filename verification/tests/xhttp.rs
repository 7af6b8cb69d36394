use ruproxy::xhttp::route::{parse_path, XhttpConfig};

#[test]
fn test_parse_path_stream_one_no_slash() {
    assert_eq!(parse_path("/xhttp", "/xhttp/"), Some((None, None)));
}

#[test]
fn test_parse_path_stream_one_with_slash() {
    assert_eq!(parse_path("/xhttp/", "/xhttp/"), Some((None, None)));
}

#[test]
fn test_parse_path_stream_down() {
    let sid = "550e8400-e29b-41d4-a716-446655440000";
    let p = format!("/xhttp/{sid}");
    assert_eq!(parse_path(&p, "/xhttp/"), Some((Some(sid.to_string()), None)));
}

#[test]
fn test_parse_path_packet_up() {
    let sid = "550e8400-e29b-41d4-a716-446655440000";
    let p = format!("/xhttp/{sid}/42");
    assert_eq!(
        parse_path(&p, "/xhttp/"),
        Some((Some(sid.to_string()), Some("42".to_string())))
    );
}

#[test]
fn test_parse_path_bad_prefix() {
    assert_eq!(parse_path("/other/path", "/xhttp/"), None);
}

#[test]
fn test_normalized_path() {
    let cfg = XhttpConfig { path: "/xhttp".to_string(), host: None };
    assert_eq!(cfg.normalized_path(), "/xhttp/");

    let cfg2 = XhttpConfig { path: "/xhttp/".to_string(), host: None };
    assert_eq!(cfg2.normalized_path(), "/xhttp/");

    let cfg3 = XhttpConfig { path: "/".to_string(), host: None };
    assert_eq!(cfg3.normalized_path(), "/");
}
