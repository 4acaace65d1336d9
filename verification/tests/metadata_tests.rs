use claude_code_trace::json::JsonValue;
use claude_code_trace::metadata::{first_message, session_duration_ms, session_metadata_from_lines, Preview};
use claude_code_trace::picker::SessionMetadata;
use claude_code_trace::tokens::{scan_metadata_tokens, TokenSnapshot};

/// A user entry whose content is a non-empty string, or holds a text block.
fn is_user_chunk(raw: &JsonValue, entry_type: &str, is_meta: bool, is_sidechain: bool) -> bool {
    if entry_type != "user" || is_meta || is_sidechain {
        return false;
    }
    match raw.get("message").and_then(|m| m.get("content")) {
        Some(JsonValue::Str(s)) => !s.trim().is_empty(),
        Some(JsonValue::Array(blocks)) => blocks
            .iter()
            .any(|b| b.get("type").and_then(|t| t.as_str()).map(|t| t == "text").unwrap_or(false)),
        _ => false,
    }
}

fn never(_name: &str, _input: Option<&JsonValue>) -> bool {
    false
}

fn no_estimate(_raw: &JsonValue) -> i64 {
    0
}

fn cache_creation(usage: &JsonValue) -> i64 {
    if let Some(n) = usage.get("cache_creation").and_then(|c| c.get("input_tokens")).and_then(|n| n.as_i64()) {
        return n;
    }
    usage.get("cache_creation_input_tokens").and_then(|n| n.as_i64()).unwrap_or(0)
}

fn prefer_complete(older: &TokenSnapshot, newer: &TokenSnapshot) -> bool {
    newer.has_stop_reason || !older.has_stop_reason
}

fn parse_timestamp(text: &str) -> i64 {
    chrono::DateTime::parse_from_rfc3339(text)
        .ok()
        .and_then(|d| d.timestamp_nanos_opt())
        .unwrap_or(0)
}

/// The string content of a user message: a `<command-name>` tag gives a
/// command, other text a message.
fn preview(raw: &JsonValue) -> Preview {
    let text = match raw.get("message").and_then(|m| m.get("content")) {
        Some(JsonValue::Str(s)) => s.clone(),
        _ => return Preview::Skip,
    };
    if let Some(rest) = text.strip_prefix("<command-name>") {
        let name = rest.split("</command-name>").next().map(|n| n.to_string());
        return Preview::Command(name);
    }
    if text.trim().is_empty() {
        return Preview::Skip;
    }
    Preview::Message(text.trim().to_string())
}

fn lines(text: &str) -> Vec<String> {
    text.lines().map(|l| l.to_string()).collect()
}

fn scan(text: &str) -> SessionMetadata {
    session_metadata_from_lines(
        &lines(text),
        &[],
        &is_user_chunk,
        &never,
        &no_estimate,
        &cache_creation,
        &prefer_complete,
        &parse_timestamp,
        &preview,
    )
}

#[test]
fn scan_session_metadata_skips_corrupt_lines() {
    let valid_user = "{\"type\":\"user\",\"uuid\":\"u1\",\"timestamp\":\"2025-01-15T10:00:00Z\",\"message\":{\"role\":\"user\",\"content\":\"Hello world\"}}\n";
    let corrupt = "{\"type\":\"user\",\"uuid\":\"u2\",\"timestamp\":\"2025-01-15T10:00:01Z\",\"message\":{\"role\":\"user\",\"content\":\"CORRUPT truncated\n";
    let valid_assistant = "{\"type\":\"assistant\",\"uuid\":\"a1\",\"requestId\":\"r1\",\"message\":{\"model\":\"sonnet-4-20250514\",\"role\":\"assistant\",\"content\":[],\"usage\":{\"input_tokens\":10,\"output_tokens\":5,\"cache_read_input_tokens\":0,\"cache_creation_input_tokens\":0},\"stop_reason\":\"end_turn\"}}\n";
    let meta = scan(&format!("{valid_user}{corrupt}{valid_assistant}"));
    assert!(meta.first_msg.contains("Hello world"), "first_msg must come from the valid user entry; got: {:?}", meta.first_msg);
    assert_eq!(meta.input_tokens, 10, "tokens after the corrupt line must be counted");
}

#[test]
fn forked_session_turn_count_excludes_inherited_entries() {
    let inh_u1 = "{\"type\":\"user\",\"uuid\":\"pu1\",\"forkedFrom\":{\"sessionId\":\"p\",\"messageUuid\":\"pu1\"},\"message\":{\"role\":\"user\",\"content\":\"q\"}}\n";
    let inh_a1 = "{\"type\":\"assistant\",\"uuid\":\"pa1\",\"forkedFrom\":{\"sessionId\":\"p\",\"messageUuid\":\"pa1\"},\"message\":{\"role\":\"assistant\",\"content\":[]}}\n";
    let inh_u2 = "{\"type\":\"user\",\"uuid\":\"pu2\",\"forkedFrom\":{\"sessionId\":\"p\",\"messageUuid\":\"pu2\"},\"message\":{\"role\":\"user\",\"content\":\"q\"}}\n";
    let inh_a2 = "{\"type\":\"assistant\",\"uuid\":\"pa2\",\"forkedFrom\":{\"sessionId\":\"p\",\"messageUuid\":\"pa2\"},\"message\":{\"role\":\"assistant\",\"content\":[]}}\n";
    let new_u = "{\"type\":\"user\",\"uuid\":\"fu1\",\"message\":{\"role\":\"user\",\"content\":\"fork question\"}}\n";
    let new_a = "{\"type\":\"assistant\",\"uuid\":\"fa1\",\"message\":{\"role\":\"assistant\",\"content\":[]}}\n";
    let meta = scan(&format!("{inh_u1}{inh_a1}{inh_u2}{inh_a2}{new_u}{new_a}"));
    assert_eq!(meta.turn_count, 2, "turn_count must only reflect the fork's own turns");
}

#[test]
fn forked_session_first_message_excludes_inherited_entries() {
    let inh_u = "{\"type\":\"user\",\"uuid\":\"pu1\",\"forkedFrom\":{\"sessionId\":\"p\",\"messageUuid\":\"pu1\"},\"message\":{\"role\":\"user\",\"content\":\"Inherited parent question\"}}\n";
    let new_u = "{\"type\":\"user\",\"uuid\":\"fu1\",\"message\":{\"role\":\"user\",\"content\":\"New fork question\"}}\n";
    let meta = scan(&format!("{inh_u}{new_u}"));
    assert!(meta.first_msg.contains("New fork question"), "got: {:?}", meta.first_msg);
    assert!(!meta.first_msg.contains("Inherited"), "got: {:?}", meta.first_msg);
}

#[test]
fn forked_session_tokens_exclude_inherited_entries() {
    let inh_a = "{\"type\":\"assistant\",\"uuid\":\"pa1\",\"requestId\":\"r1\",\"forkedFrom\":{\"sessionId\":\"p\",\"messageUuid\":\"pa1\"},\"message\":{\"usage\":{\"input_tokens\":100,\"output_tokens\":50,\"cache_read_input_tokens\":0,\"cache_creation_input_tokens\":0},\"stop_reason\":\"end_turn\"}}\n";
    let new_a = "{\"type\":\"assistant\",\"uuid\":\"fa1\",\"requestId\":\"r2\",\"message\":{\"usage\":{\"input_tokens\":10,\"output_tokens\":5,\"cache_read_input_tokens\":0,\"cache_creation_input_tokens\":0},\"stop_reason\":\"end_turn\"}}\n";
    let meta = scan(&format!("{inh_a}{new_a}"));
    assert_eq!(meta.input_tokens, 10, "input_tokens must only count the fork's own entries");
    assert_eq!(meta.output_tokens, 5, "output_tokens must only count the fork's own entries");
    assert_eq!(meta.total_tokens, 15, "total_tokens must only count the fork's own entries (not 215)");
}

#[test]
fn context_tokens_is_last_turn_not_cumulative() {
    let body = [
        r#"{"type":"assistant","uuid":"a1","requestId":"r1","message":{"model":"opus-4","stop_reason":"end_turn","usage":{"input_tokens":100,"cache_read_input_tokens":1000,"output_tokens":10}}}"#,
        "\n",
        r#"{"type":"assistant","uuid":"a2","requestId":"r2","message":{"model":"opus-4","stop_reason":"end_turn","usage":{"input_tokens":50,"cache_read_input_tokens":5000,"cache_creation_input_tokens":200,"output_tokens":20}}}"#,
        "\n",
    ]
    .concat();
    let meta = scan(&body);
    assert_eq!(meta.context_tokens, 50 + 5000 + 200);
    assert!(meta.total_tokens >= 100 + 1000 + 50 + 5000 + 200);
}

#[test]
fn forked_session_duration_excludes_inherited_timestamps() {
    let inh = "{\"type\":\"user\",\"uuid\":\"pu1\",\"timestamp\":\"2026-01-01T10:00:00Z\",\"forkedFrom\":{\"sessionId\":\"p\",\"messageUuid\":\"pu1\"},\"message\":{\"role\":\"user\",\"content\":\"q\"}}\n";
    let new_start = "{\"type\":\"user\",\"uuid\":\"fu1\",\"timestamp\":\"2026-04-26T10:00:00Z\",\"message\":{\"role\":\"user\",\"content\":\"q\"}}\n";
    let new_end = "{\"type\":\"assistant\",\"uuid\":\"fa1\",\"timestamp\":\"2026-04-26T10:00:05Z\",\"message\":{\"role\":\"assistant\",\"content\":[]}}\n";
    let meta = scan(&format!("{inh}{new_start}{new_end}"));
    assert!(meta.duration_ms >= 5000, "got {} ms", meta.duration_ms);
    assert!(meta.duration_ms < 60_000, "got {} ms", meta.duration_ms);
}

#[test]
fn scan_session_metadata_tracks_cwd_per_entry_after_cd() {
    let entry1 = "{\"type\":\"user\",\"uuid\":\"u1\",\"parentUuid\":null,\"isSidechain\":false,\"timestamp\":\"2026-06-08T10:00:00Z\",\"cwd\":\"/home/user/project-a\",\"gitBranch\":\"main\",\"message\":{\"role\":\"user\",\"content\":\"start\"}}\n";
    let entry2 = "{\"type\":\"assistant\",\"uuid\":\"a1\",\"parentUuid\":\"u1\",\"isSidechain\":false,\"timestamp\":\"2026-06-08T10:00:01Z\",\"cwd\":\"/home/user/project-a\",\"gitBranch\":\"main\",\"message\":{\"role\":\"assistant\",\"content\":[{\"type\":\"tool_use\",\"id\":\"cd1\",\"name\":\"Cd\",\"input\":{\"path\":\"/home/user/project-b\"}}],\"model\":\"sonnet-4-6\",\"stop_reason\":\"tool_use\",\"usage\":{\"input_tokens\":10,\"output_tokens\":5,\"cache_read_input_tokens\":0,\"cache_creation_input_tokens\":0}}}\n";
    let entry3 = "{\"type\":\"user\",\"uuid\":\"u2\",\"parentUuid\":\"a1\",\"isSidechain\":false,\"timestamp\":\"2026-06-08T10:00:02Z\",\"cwd\":\"/home/user/project-b\",\"gitBranch\":\"feature\",\"message\":{\"role\":\"user\",\"content\":[{\"type\":\"tool_result\",\"tool_use_id\":\"cd1\",\"content\":\"Changed directory to /home/user/project-b\"}]}}\n";
    let meta = scan(&format!("{entry1}{entry2}{entry3}"));
    assert_eq!(meta.cwd, "/home/user/project-b");
    assert_eq!(meta.git_branch, "feature");
}

#[test]
fn scan_session_metadata_stable_cwd_unchanged_by_single_entry() {
    let entry = "{\"type\":\"user\",\"uuid\":\"u1\",\"parentUuid\":null,\"isSidechain\":false,\"timestamp\":\"2026-06-08T10:00:00Z\",\"cwd\":\"/home/user/stable\",\"gitBranch\":\"main\",\"message\":{\"role\":\"user\",\"content\":\"hello\"}}\n";
    let meta = scan(entry);
    assert_eq!(meta.cwd, "/home/user/stable");
    assert_eq!(meta.git_branch, "main");
}

#[test]
fn metadata_scan_fields_together() {
    let text = [
        r#"{"type":"user","uuid":"u1","timestamp":"2026-01-01T00:00:00.000900Z","permissionMode":"plan","message":{"content":"<command-name>/review</command-name>"}}"#,
        "\n",
        r#"{"type":"user","uuid":"u2","message":{"content":"line one\nline two"}}"#,
        "\n",
        r#"{"type":"assistant","uuid":"a1","requestId":"r1","isSidechain":true,"message":{"model":"side","usage":{"input_tokens":3}}}"#,
        "\n",
        r#"{"type":"assistant","uuid":"a2","requestId":"r2","timestamp":"2026-01-01T00:00:01.000100Z","message":{"model":"main-model","usage":{"input_tokens":0}}}"#,
        "\n",
    ]
    .concat();
    let meta = scan(&text);
    assert_eq!(meta.first_msg, "line one line two");
    assert_eq!(meta.permission_mode, "plan");
    assert_eq!(meta.model, "main-model");
    // 1.0002 s apart: whole milliseconds, rounded toward zero.
    assert_eq!(meta.duration_ms, 999);
    // The sidechain entry counts toward the totals but not the context; the
    // zero-count entry is still recorded and sets the context.
    assert_eq!(meta.input_tokens, 3);
    assert_eq!(meta.context_tokens, 0);
    // Two user turns, and the main-chain reply after the second.
    assert_eq!(meta.turn_count, 3);
    assert!(!meta.is_ongoing);
    assert_eq!(meta.cost_usd_bits, 0);
}

#[test]
fn first_message_falls_back_to_command_and_truncates() {
    let cmd = lines(r#"{"type":"user","uuid":"u1","message":{"content":"<command-name>  compact </command-name>"}}"#);
    assert_eq!(first_message(&cmd, &preview), "/compact");
    let unnamed = lines(r#"{"type":"user","uuid":"u1","message":{"content":"<command-name>"}}"#);
    let unnamed_preview = |_raw: &JsonValue| Preview::Command(None);
    assert_eq!(first_message(&unnamed, &unnamed_preview), "/command");
    let long = "x".repeat(600);
    let entry = format!(r#"{{"type":"user","uuid":"u1","message":{{"content":"{long}"}}}}"#);
    let msg = first_message(&lines(&entry), &preview);
    assert_eq!(msg.chars().count(), 500);
}

#[test]
fn first_message_reads_only_the_first_two_hundred_lines() {
    let filler = r#"{"type":"system","uuid":"s"}"#;
    let mut text: Vec<String> = (0..200).map(|_| filler.to_string()).collect();
    text.push(r#"{"type":"user","uuid":"u1","message":{"content":"too late"}}"#.to_string());
    assert_eq!(first_message(&text, &preview), "");
    text.remove(0);
    assert_eq!(first_message(&text, &preview), "too late");
}

#[test]
fn duration_is_zero_without_own_timestamps() {
    let text = lines(r#"{"type":"user","timestamp":"2026-01-01T00:00:00Z","forkedFrom":{}}"#);
    assert_eq!(session_duration_ms(&text, &parse_timestamp), 0);
    let backwards = lines(&[
        r#"{"type":"user","timestamp":"2026-01-01T00:00:02Z"}"#,
        "\n",
        r#"{"type":"user","timestamp":"2026-01-01T00:00:00.5Z"}"#,
    ]
    .concat());
    assert_eq!(session_duration_ms(&backwards, &parse_timestamp), -1500);
}

#[test]
fn metadata_tokens_dedup_and_context() {
    let text = lines(&[
        r#"{"type":"assistant","uuid":"a1","requestId":"r1","message":{"usage":{"input_tokens":4,"output_tokens":1}}}"#,
        "\n",
        r#"{"type":"assistant","uuid":"a2","requestId":"r1","message":{"usage":{"input_tokens":4,"output_tokens":6,"cache_read_input_tokens":10},"stop_reason":"end_turn"}}"#,
        "\n",
        r#"{"type":"assistant","requestId":"r9","message":{"usage":{"input_tokens":99}}}"#,
    ]
    .concat());
    let t = scan_metadata_tokens(&text, &[], &no_estimate, &cache_creation, &prefer_complete);
    assert_eq!(t.totals.input_tokens, 4);
    assert_eq!(t.totals.output_tokens, 6);
    assert_eq!(t.totals.total_tokens, 20);
    assert_eq!(t.context_tokens, 14);
}

#[test]
fn metadata_tokens_count_subagent_lines_in_the_same_map() {
    let main = lines(r#"{"type":"assistant","uuid":"a1","requestId":"r1","message":{"usage":{"input_tokens":4,"output_tokens":1}}}"#);
    let sub = lines(&[
        r#"{"type":"assistant","uuid":"s1","isSidechain":true,"requestId":"r1","message":{"usage":{"input_tokens":4,"output_tokens":9},"stop_reason":"end_turn"}}"#,
        "\n",
        r#"{"type":"assistant","uuid":"s2","isSidechain":true,"requestId":"r2","message":{"usage":{"input_tokens":2}}}"#,
    ]
    .concat());
    let t = scan_metadata_tokens(&main, &sub, &no_estimate, &cache_creation, &prefer_complete);
    assert_eq!(t.totals.input_tokens, 6);
    assert_eq!(t.totals.output_tokens, 9);
    assert_eq!(t.context_tokens, 4);
}
