use claude_code_trace::version::{current, VersionInfo};

fn info(dirty: bool) -> VersionInfo {
    VersionInfo {
        version: "0.11.0".to_string(),
        commit: "94c9070".to_string(),
        branch: "edge".to_string(),
        dirty,
    }
}

#[test]
fn display_string_formats_version_branch_commit_dirty() {
    assert_eq!(info(false).display_string(), "0.11.0 · edge (94c9070)");
    assert_eq!(info(true).display_string(), "0.11.0 · edge (94c9070, dirty)");
}

#[test]
fn about_parenthetical_formats_branch_commit_dirty() {
    assert_eq!(info(false).about_parenthetical(), "edge @ 94c9070");
    assert_eq!(info(true).about_parenthetical(), "edge @ 94c9070, dirty");
}

#[test]
fn current_has_a_nonempty_version_commit_and_branch_fallback() {
    let v = current("0.1.0", None, None, None);
    assert!(!v.version.is_empty());
    assert!(!v.commit.is_empty());
    assert!(!v.branch.is_empty());
    assert_eq!(v.commit, "unknown");
    assert_eq!(v.branch, "unknown");
    assert!(!v.dirty);
}

#[test]
fn about_version_line_includes_commit() {
    let line = current("0.1.0", Some("94c9070"), Some("edge"), None).display_string();
    assert!(line.contains('('));
    assert!(line.starts_with("0.1.0"));
    assert!(line.contains("94c9070"));
}

#[test]
fn current_reads_dirty_only_from_exact_true() {
    assert!(current("1.0.0", Some("abc"), Some("main"), Some("true")).dirty);
    assert!(!current("1.0.0", Some("abc"), Some("main"), Some("TRUE")).dirty);
    assert!(!current("1.0.0", Some("abc"), Some("main"), Some("false")).dirty);
    let v = current("1.0.0", Some("abc"), Some("main"), Some("true"));
    assert_eq!(v.display_string(), "1.0.0 · main (abc, dirty)");
    assert_eq!(v.about_parenthetical(), "main @ abc, dirty");
}
