use claude_code_trace::picker::{
    claude_projects_dir, discover_all_project_sessions, discover_project_sessions_with_scan, encode_path,
    project_dir_for_path, session_file_name, session_id_from_path, session_info_from_metadata, sort_newest_first,
    trim_jsonl_suffixes, ProjectFile, SessionMetadata,
};
use claude_code_trace::session::SessionInfo;
use claude_code_trace::state::{discover_sessions_cached, SessionsCache, SseEvent};
use claude_code_trace::strmap::StrMap;
use claude_code_trace::session::Liveness;

fn make_info(session_id: &str, mod_time: i64) -> SessionInfo {
    SessionInfo {
        path: format!("/p/{session_id}.jsonl"),
        session_id: session_id.to_string(),
        mod_time,
        first_message: String::new(),
        recap: None,
        recap_turn: 0,
        name: None,
        liveness: None,
        turn_count: 0,
        is_ongoing: false,
        total_tokens: 0,
        input_tokens: 0,
        output_tokens: 0,
        cache_read_tokens: 0,
        cache_creation_tokens: 0,
        context_tokens: 0,
        cost_usd_bits: 0,
        duration_ms: 0,
        model: String::new(),
        cwd: String::new(),
        git_branch: String::new(),
        permission_mode: String::new(),
    }
}

fn ids(v: &[SessionInfo]) -> Vec<String> {
    v.iter().map(|s| s.session_id.clone()).collect()
}

#[test]
fn sort_is_newest_first_and_stable() {
    let v = vec![make_info("a", 1), make_info("b", 3), make_info("c", 1), make_info("d", 2), make_info("e", 3)];
    let sorted = sort_newest_first(v);
    assert_eq!(ids(&sorted), vec!["b", "e", "d", "a", "c"]);
    let again = sort_newest_first(sorted);
    assert_eq!(ids(&again), vec!["b", "e", "d", "a", "c"]);
    assert!(sort_newest_first(Vec::new()).is_empty());
}

#[test]
fn sort_matches_std_stable_sort_by_reverse_time() {
    let times = [5i64, -3, 5, 0, 9, -3, 7, 7, 1];
    let v: Vec<SessionInfo> = times.iter().enumerate().map(|(i, t)| make_info(&format!("s{i}"), *t)).collect();
    let mut expected: Vec<(usize, i64)> = times.iter().copied().enumerate().collect();
    expected.sort_by_key(|(_, t)| std::cmp::Reverse(*t));
    let want: Vec<String> = expected.iter().map(|(i, _)| format!("s{i}")).collect();
    assert_eq!(ids(&sort_newest_first(v)), want);
}

#[test]
fn session_file_names() {
    assert!(session_file_name("abc.jsonl"));
    assert!(session_file_name(".jsonl"));
    assert!(!session_file_name("agent_1.jsonl"));
    assert!(session_file_name("agent-1.jsonl"));
    assert!(!session_file_name("abc.json"));
    assert!(!session_file_name("abc.jsonl.bak"));
}

#[test]
fn session_ids_strip_every_trailing_jsonl() {
    assert_eq!(session_id_from_path("/home/u/.agent/projects/x/abc-123.jsonl"), "abc-123");
    assert_eq!(session_id_from_path("a.jsonl.jsonl"), "a");
    assert_eq!(session_id_from_path("/dir/"), "dir");
    assert_eq!(session_id_from_path("/"), "");
    assert_eq!(trim_jsonl_suffixes("x.jsonlx"), "x.jsonlx");
}

#[test]
fn encode_path_replaces_separators_dots_and_underscores() {
    assert_eq!(encode_path("/home/me/my_proj.v2"), "-home-me-my-proj-v2");
    assert_eq!(encode_path("plain"), "plain");
}

fn meta() -> SessionMetadata {
    SessionMetadata {
        first_msg: "hello".to_string(),
        turn_count: 4,
        is_ongoing: true,
        total_tokens: 10,
        input_tokens: 1,
        output_tokens: 2,
        cache_read_tokens: 3,
        cache_creation_tokens: 4,
        context_tokens: 5,
        cost_usd_bits: 0.5f64.to_bits(),
        duration_ms: 6,
        model: "m".to_string(),
        cwd: "/w".to_string(),
        git_branch: "main".to_string(),
        permission_mode: "manual".to_string(),
        recap: Some("r".to_string()),
        recap_turn: 3,
    }
}

#[test]
fn session_info_from_metadata_decides_ongoing() {
    let info = session_info_from_metadata("/p/s1.jsonl", 77, meta(), |ongoing, _t| ongoing, |_p: &str| false);
    assert_eq!(info.session_id, "s1");
    assert_eq!(info.path, "/p/s1.jsonl");
    assert_eq!(info.mod_time, 77);
    assert!(info.is_ongoing);
    assert_eq!(info.first_message, "hello");
    assert_eq!(info.recap.as_deref(), Some("r"));
    assert_eq!(info.recap_turn, 3);
    assert_eq!(info.turn_count, 4);
    assert!(info.name.is_none() && info.liveness.is_none());
    let stale = session_info_from_metadata("/p/s1.jsonl", 77, meta(), |_o, _t| false, |_p: &str| false);
    assert!(!stale.is_ongoing);
    let sub = session_info_from_metadata("/p/s1.jsonl", 77, meta(), |_o, _t| false, |p: &str| p == "/p/s1.jsonl");
    assert!(sub.is_ongoing);
    let d = SessionMetadata::default();
    assert_eq!(d.permission_mode, "");
    assert!(!d.is_ongoing);
}

#[test]
fn discover_all_merges_readable_dirs_newest_first() {
    let dirs = vec!["d1".to_string(), "bad".to_string(), "d2".to_string()];
    let r = discover_all_project_sessions(&dirs, &|d: &str| match d {
        "d1" => Ok(vec![make_info("a", 1), make_info("b", 5)]),
        "d2" => Ok(vec![make_info("c", 3)]),
        _ => Err(format!("reading {d}: not found")),
    })
    .unwrap();
    assert_eq!(ids(&r), vec!["b", "c", "a"]);
    let none: Vec<String> = Vec::new();
    assert!(discover_all_project_sessions(&none, &|_d: &str| Ok(Vec::new())).unwrap().is_empty());
}

#[test]
fn sessions_cache_shares_a_scan_within_ttl_and_per_dirs() {
    let mut cache = SessionsCache::new();
    let dirs = vec!["d".to_string()];
    let names: StrMap<String> = StrMap::new();
    let first = discover_sessions_cached(&mut cache, &dirs, 1000, || Ok(vec![make_info("a", 1)]), &names, None).unwrap();
    assert_eq!(ids(&first), vec!["a"]);
    let hit = discover_sessions_cached(&mut cache, &dirs, 2999, || Ok(vec![make_info("b", 1)]), &names, None).unwrap();
    assert_eq!(ids(&hit), vec!["a"]);
    let expired = discover_sessions_cached(&mut cache, &dirs, 3000, || Ok(vec![make_info("c", 1)]), &names, None).unwrap();
    assert_eq!(ids(&expired), vec!["c"]);
    let other_dirs = vec!["e".to_string()];
    let other = discover_sessions_cached(&mut cache, &other_dirs, 3001, || Ok(vec![make_info("d", 1)]), &names, None).unwrap();
    assert_eq!(ids(&other), vec!["d"]);
    let failed = discover_sessions_cached(&mut cache, &dirs, 3002, || Err("boom".to_string()), &names, None);
    assert_eq!(failed.err(), Some("boom".to_string()));
    // a failed scan leaves the cache as it was
    let again = discover_sessions_cached(&mut cache, &other_dirs, 3003, || Ok(Vec::new()), &names, None).unwrap();
    assert_eq!(ids(&again), vec!["d"]);
}

#[test]
fn cached_sessions_get_names_and_liveness_joined_on_every_call() {
    let mut cache = SessionsCache::new();
    let dirs = vec!["d".to_string()];
    let mut names: StrMap<String> = StrMap::new();
    names.insert("a".to_string(), "named".to_string());
    let mut live: StrMap<Liveness> = StrMap::new();
    live.insert("b".to_string(), Liveness { status: "busy".to_string(), idle_seconds: 2, pid: 7 });
    let r = discover_sessions_cached(
        &mut cache,
        &dirs,
        0,
        || Ok(vec![make_info("a", 1), make_info("b", 2)]),
        &names,
        Some(&live),
    )
    .unwrap();
    assert_eq!(r[0].name.as_deref(), Some("named"));
    assert!(r[0].liveness.is_none());
    assert_eq!(r[1].liveness.as_ref().unwrap().status, "busy");
    let empty: StrMap<String> = StrMap::new();
    let hit = discover_sessions_cached(&mut cache, &dirs, 1, || Ok(Vec::new()), &empty, None).unwrap();
    assert!(hit[0].name.is_none(), "names are not baked into the cache");
}

#[test]
fn sse_event_holds_name_and_payload() {
    let e = SseEvent { event: "picker-refresh".to_string(), data: "{}".to_string() };
    assert_eq!(e.event, "picker-refresh");
    assert_eq!(e.data, "{}");
}

fn existing(p: &str) -> bool {
    p == "/tmp/configured" || p == "/tmp/env-dir"
}

#[test]
fn claude_projects_dir_defaults_to_home() {
    let dir = claude_projects_dir(None, None, Some("/home/u/.agent"), &existing).unwrap();
    assert_eq!(dir, "/home/u/.agent/projects");
}

#[test]
fn claude_projects_dir_uses_configured_when_valid() {
    let dir = claude_projects_dir(Some("/tmp/configured"), None, Some("/home/u/.agent"), &existing).unwrap();
    assert_eq!(dir, "/tmp/configured");
}

#[test]
fn claude_projects_dir_uses_env_var_when_valid() {
    let dir = claude_projects_dir(None, Some("/tmp/env-dir"), Some("/home/u/.agent"), &existing).unwrap();
    assert_eq!(dir, "/tmp/env-dir");
}

#[test]
fn claude_projects_dir_configured_takes_priority_over_env() {
    let dir = claude_projects_dir(Some("/tmp/configured"), Some("/tmp/env-dir"), Some("/home/u/.agent"), &existing).unwrap();
    assert_eq!(dir, "/tmp/configured");
}

#[test]
fn claude_projects_dir_falls_back_when_env_path_missing() {
    let dir = claude_projects_dir(None, Some("/nonexistent/path/that/does/not/exist"), Some("/home/u/.agent"), &existing)
        .unwrap();
    assert_eq!(dir, "/home/u/.agent/projects");
    let also = claude_projects_dir(Some("/missing"), Some("/missing-too"), Some("/h"), &existing).unwrap();
    assert_eq!(also, "/h/projects");
}

#[test]
fn claude_projects_dir_without_a_home_is_an_error() {
    let r = claude_projects_dir(None, None, None, &existing);
    assert_eq!(r, Err("no home directory".to_string()));
    assert_eq!(claude_projects_dir(Some("/tmp/configured"), None, None, &existing), Ok("/tmp/configured".to_string()));
}

#[test]
fn project_dir_for_path_encodes_under_the_projects_dir() {
    assert_eq!(project_dir_for_path("/home/u/.agent/projects", "/work/my_app"), "/home/u/.agent/projects/-work-my-app");
}

fn file(name: &str, is_dir: bool, mod_time: i64) -> ProjectFile {
    ProjectFile { name: name.to_string(), path: format!("/p/{name}"), is_dir, mod_time, size: 10 }
}

#[test]
fn project_discovery_scans_only_transcripts_and_orders_newest_first() {
    let files = vec![
        file("a.jsonl", false, 1),
        file("agent_x.jsonl", false, 9),
        file("notes.txt", false, 9),
        file("dir.jsonl", true, 9),
        file("b.jsonl", false, 5),
        file("skip.jsonl", false, 7),
    ];
    let scan = |path: &str, mod_time: i64, _size: u64| {
        if path.ends_with("skip.jsonl") {
            None
        } else {
            Some(make_info(&session_id_from_path(path), mod_time))
        }
    };
    let r = discover_project_sessions_with_scan(&files, &scan);
    assert_eq!(ids(&r), vec!["b", "a"]);
}
