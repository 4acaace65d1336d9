use claude_code_trace::json::JsonValue;
use claude_code_trace::ongoing::{blank, has_user_content_raw, is_tool_use_rejection, scan_ongoing, OngoingTracker};

fn never(_name: &str, _input: Option<&JsonValue>) -> bool {
    false
}

fn send_message_approves(name: &str, input: Option<&JsonValue>) -> bool {
    name == "SendMessage" && input.and_then(|i| i.get("approve")).and_then(|a| a.as_bool()) == Some(true)
}

fn lines(text: &[&str]) -> Vec<String> {
    text.iter().map(|l| l.to_string()).collect()
}

fn json(text: &str) -> JsonValue {
    JsonValue::parse(text).expect("valid JSON")
}

const ORPHAN: &str = r#"{"type":"assistant","uuid":"a1","parentUuid":null,"timestamp":"2026-04-28T10:00:00Z","message":{"role":"assistant","content":[{"type":"tool_use","id":"toolu_orphan","name":"Bash","input":{"command":"ls"}}],"model":"sonnet-4-6","stop_reason":"tool_use","usage":{"input_tokens":10,"output_tokens":5,"cache_read_input_tokens":0,"cache_creation_input_tokens":0}}}"#;
const FINAL_TEXT: &str = r#"{"type":"assistant","uuid":"a2","parentUuid":"u1","timestamp":"2026-04-28T10:00:02Z","message":{"role":"assistant","content":[{"type":"text","text":"hi"}],"model":"sonnet-4-6","stop_reason":"end_turn"}}"#;

#[test]
fn orphaned_tool_use_before_user_text_does_not_mark_session_ongoing() {
    let user_text = r#"{"type":"user","uuid":"u1","parentUuid":"a1","message":{"role":"user","content":"hello"}}"#;
    assert!(!scan_ongoing(&lines(&[ORPHAN, user_text, FINAL_TEXT]), &never));
}

#[test]
fn orphaned_tool_use_with_array_content_user_does_not_mark_ongoing() {
    let user_array = r#"{"type":"user","uuid":"u1","parentUuid":"a1","message":{"role":"user","content":[{"type":"text","text":"what now?"}]}}"#;
    assert!(!scan_ongoing(&lines(&[ORPHAN, user_array, FINAL_TEXT]), &never));
}

#[test]
fn genuine_deferred_tool_use_still_marks_session_ongoing() {
    assert!(scan_ongoing(&lines(&[ORPHAN]), &never));
}

#[test]
fn orphaned_tool_use_before_end_turn_does_not_mark_session_ongoing() {
    let new_u = r#"{"type":"user","uuid":"u2","parentUuid":"a1","message":{"role":"user","content":"What else can you do?"}}"#;
    assert!(!scan_ongoing(&lines(&[ORPHAN, new_u, FINAL_TEXT]), &never));
}

#[test]
fn pending_tool_use_alone_is_ongoing_and_its_result_keeps_working() {
    let result = r#"{"type":"user","uuid":"u1","message":{"content":[{"type":"tool_result","tool_use_id":"toolu_orphan"}]}}"#;
    // the result is activity: the assistant still has to answer
    assert!(scan_ongoing(&lines(&[ORPHAN, result]), &never));
    // an answer ends the turn
    assert!(!scan_ongoing(&lines(&[ORPHAN, result, FINAL_TEXT]), &never));
}

#[test]
fn rejected_tool_use_ends_the_turn() {
    let rejected = r#"{"type":"user","uuid":"u1","toolUseResult":"User rejected tool use","message":{"content":[{"type":"tool_result","tool_use_id":"toolu_orphan"}]}}"#;
    assert!(!scan_ongoing(&lines(&[ORPHAN, rejected]), &never));
}

#[test]
fn interruption_ends_the_turn() {
    let interrupted = r#"{"type":"user","uuid":"u1","message":{"content":"[Request interrupted by user for tool use]"}}"#;
    assert!(!scan_ongoing(&lines(&[ORPHAN, interrupted]), &never));
    let in_block = r#"{"type":"user","uuid":"u1","message":{"content":[{"type":"text","text":"[Request interrupted by user]"}]}}"#;
    assert!(!scan_ongoing(&lines(&[ORPHAN, in_block]), &never));
}

#[test]
fn plan_exit_and_shutdown_approval_are_endings() {
    let plan = r#"{"type":"assistant","uuid":"a1","message":{"content":[{"type":"tool_use","id":"t1","name":"ExitPlanMode","input":{}}]}}"#;
    assert!(!scan_ongoing(&lines(&[plan]), &never));
    let shutdown = r#"{"type":"assistant","uuid":"a1","message":{"content":[{"type":"tool_use","id":"t2","name":"SendMessage","input":{"approve":true}}]}}"#;
    assert!(!scan_ongoing(&lines(&[shutdown]), &send_message_approves));
    assert!(scan_ongoing(&lines(&[shutdown]), &never));
    // the result of an approved shutdown is an ending too
    let result = r#"{"type":"user","uuid":"u1","message":{"content":[{"type":"tool_result","tool_use_id":"t2"}]}}"#;
    assert!(!scan_ongoing(&lines(&[shutdown, result]), &send_message_approves));
}

#[test]
fn thinking_after_an_answer_is_ongoing_again() {
    let thinking = r#"{"type":"assistant","uuid":"a3","message":{"content":[{"type":"thinking","thinking":"hmm"}]}}"#;
    let blank_thinking = r#"{"type":"assistant","uuid":"a3","message":{"content":[{"type":"thinking","thinking":"   "}]}}"#;
    assert!(scan_ongoing(&lines(&[FINAL_TEXT, thinking]), &never));
    assert!(!scan_ongoing(&lines(&[FINAL_TEXT, blank_thinking]), &never));
}

#[test]
fn inherited_sidechain_and_uuidless_entries_are_skipped() {
    let inherited = r#"{"type":"assistant","uuid":"a1","forkedFrom":{"sessionId":"p"},"message":{"content":[{"type":"tool_use","id":"t","name":"Bash"}]}}"#;
    let sidechain = r#"{"type":"assistant","uuid":"a1","isSidechain":true,"message":{"content":[{"type":"tool_use","id":"t","name":"Bash"}]}}"#;
    let no_uuid = r#"{"type":"assistant","message":{"content":[{"type":"tool_use","id":"t","name":"Bash"}]}}"#;
    assert!(!scan_ongoing(&lines(&[inherited]), &never));
    assert!(!scan_ongoing(&lines(&[sidechain]), &never));
    assert!(!scan_ongoing(&lines(&[no_uuid]), &never));
    assert!(!scan_ongoing(&lines(&["not json", ""]), &never));
    assert!(!scan_ongoing(&[], &never));
}

#[test]
fn tracker_observes_entries_one_by_one() {
    let mut t = OngoingTracker::new();
    assert!(!t.is_ongoing());
    t.observe_entry(&json(ORPHAN), &never);
    assert!(t.is_ongoing());
    t.scan_ongoing_user(&json(r#"{"type":"user","message":{"content":"continue"}}"#));
    // the pending call is dropped, but activity was seen and nothing ended it
    assert!(t.is_ongoing());
    t.scan_ongoing_assistant(&json(FINAL_TEXT), &never);
    assert!(!t.is_ongoing());
}

#[test]
fn tool_use_rejection_is_recognised_exactly() {
    assert!(is_tool_use_rejection(&json(r#"{"toolUseResult":"User rejected tool use"}"#)));
    assert!(!is_tool_use_rejection(&json(r#"{"toolUseResult":"user rejected tool use"}"#)));
    assert!(!is_tool_use_rejection(&json(r#"{"toolUseResult":{"stdout":""}}"#)));
    assert!(!is_tool_use_rejection(&json(r#"{}"#)));
}

#[test]
fn user_content_detection() {
    let text = json(r#""hello""#);
    assert!(has_user_content_raw(Some(&text), "hello"));
    assert!(!has_user_content_raw(Some(&text), "  \n"));
    let image = json(r#"[{"type":"tool_result"},{"type":"image"}]"#);
    assert!(has_user_content_raw(Some(&image), ""));
    let results = json(r#"[{"type":"tool_result"}]"#);
    assert!(!has_user_content_raw(Some(&results), "x"));
    assert!(!has_user_content_raw(None, "x"));
    assert!(!has_user_content_raw(Some(&json("3")), "x"));
}

#[test]
fn blank_uses_unicode_whitespace() {
    assert!(blank(""));
    assert!(blank(" \t\n\u{3000}\u{a0}"));
    assert!(!blank(" x "));
}
