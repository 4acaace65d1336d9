use claude_code_trace::api::{check_projects_dir, check_session_path, parse_utc_instant, session_by_id_request};

#[test]
fn invalid_since_parse_fails() {
    assert!(parse_utc_instant("notadate").is_none());
}

#[test]
fn utc_timestamps_parse_to_seconds_and_nanos() {
    let t = parse_utc_instant("2025-01-15T10:00:00Z").unwrap();
    assert_eq!(t.secs, 1_736_935_200);
    assert_eq!(t.nanos, 0);
    let u = parse_utc_instant("2025-01-15T12:00:00.5+02:00").unwrap();
    assert_eq!(u.secs, 1_736_935_200);
    assert_eq!(u.nanos, 500_000_000);
}

fn has(files: &'static [&'static str]) -> impl Fn(&str) -> bool {
    move |p: &str| files.iter().any(|f| *f == p)
}

#[test]
fn session_by_id_searches_dirs_in_order() {
    let dirs = vec!["/a".to_string(), "/b".to_string(), "/c/".to_string()];
    let probe = has(&["/b/s1.jsonl", "/c/s1.jsonl", "/c/s2.jsonl"]);
    let r = session_by_id_request("s1", &dirs, None, None, &probe).unwrap();
    assert_eq!(r.path, "/b/s1.jsonl");
    assert!(r.since.is_none() && r.before.is_none());
    let r2 = session_by_id_request("s2", &dirs, Some("2025-01-15T10:00:00Z"), None, &probe).unwrap();
    assert_eq!(r2.path, "/c/s2.jsonl");
    assert_eq!(r2.since.unwrap().secs, 1_736_935_200);
}

#[test]
fn session_by_id_errors() {
    let dirs = vec!["/a".to_string()];
    let probe = has(&["/a/s.jsonl"]);
    let e = session_by_id_request("", &dirs, None, None, &probe).err().unwrap();
    assert_eq!((e.status, e.message.as_str()), (400, "no session id provided"));
    let e = session_by_id_request("nope", &dirs, None, None, &probe).err().unwrap();
    assert_eq!((e.status, e.message.as_str()), (404, "session not found: nope"));
    let e = session_by_id_request("s", &dirs, Some("yesterday"), Some("also bad"), &probe).err().unwrap();
    assert_eq!(e.status, 400);
    assert_eq!(e.message, "invalid `since` timestamp — expected ISO 8601 UTC (e.g. 2025-01-15T10:00:00Z)");
    let e = session_by_id_request("s", &dirs, None, Some("also bad"), &probe).err().unwrap();
    assert_eq!(e.message, "invalid `before` timestamp — expected ISO 8601 UTC (e.g. 2025-01-15T10:00:00Z)");
    // an unknown session is reported before a bad timestamp
    let e = session_by_id_request("nope", &dirs, Some("bad"), None, &probe).err().unwrap();
    assert_eq!(e.status, 404);
}

#[test]
fn session_path_must_not_be_empty() {
    assert!(check_session_path("/p/s.jsonl").is_ok());
    let e = check_session_path("").err().unwrap();
    assert_eq!((e.status, e.message.as_str()), (400, "no session path provided"));
}

#[test]
fn projects_dir_must_exist_and_be_a_directory() {
    let exists = |p: &str| p == "/dir" || p == "/file";
    let is_dir = |p: &str| p == "/dir";
    assert!(check_projects_dir(None, &exists, &is_dir).is_ok());
    assert!(check_projects_dir(Some("/dir"), &exists, &is_dir).is_ok());
    let e = check_projects_dir(Some("/gone"), &exists, &is_dir).err().unwrap();
    assert_eq!((e.status, e.message.as_str()), (400, "path does not exist: /gone"));
    let e = check_projects_dir(Some("/file"), &exists, &is_dir).err().unwrap();
    assert_eq!((e.status, e.message.as_str()), (400, "path is not a directory: /file"));
}
