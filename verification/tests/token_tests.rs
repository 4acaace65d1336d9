use claude_code_trace::json::JsonValue;
use claude_code_trace::tokens::{IncrementalTokenScanner, TokenSnapshot, TokenTotals};

fn no_estimate(_raw: &JsonValue) -> i64 {
    0
}

/// The cache-creation count of a usage object: the nested
/// `cache_creation.input_tokens`, else the flat `cache_creation_input_tokens`.
fn cache_creation(usage: &JsonValue) -> i64 {
    if let Some(n) = usage.get("cache_creation").and_then(|c| c.get("input_tokens")).and_then(|n| n.as_i64()) {
        return n;
    }
    usage.get("cache_creation_input_tokens").and_then(|n| n.as_i64()).unwrap_or(0)
}

/// A snapshot with a stop reason wins over a streaming one.
fn prefer_complete(older: &TokenSnapshot, newer: &TokenSnapshot) -> bool {
    newer.has_stop_reason || !older.has_stop_reason
}

fn scan(scanner: &mut IncrementalTokenScanner, text: &str) -> TokenTotals {
    let lines: Vec<String> = text.lines().map(|l| l.to_string()).collect();
    scanner.scan_lines(&lines, &no_estimate, &cache_creation, &prefer_complete)
}

#[test]
fn incremental_scanner_empty_file() {
    let mut scanner = IncrementalTokenScanner::new();
    let totals = scan(&mut scanner, "");
    assert_eq!(totals.total_tokens, 0);
    assert!(totals.model.is_empty());
}

#[test]
fn incremental_scanner_accumulates_tokens() {
    let entry1 = r#"{"type":"assistant","uuid":"a1","requestId":"r1","message":{"model":"sonnet-4-20250514","role":"assistant","content":[],"usage":{"input_tokens":100,"output_tokens":50,"cache_read_input_tokens":0,"cache_creation_input_tokens":0},"stop_reason":"end_turn"}}"#;
    let mut scanner = IncrementalTokenScanner::new();
    let totals1 = scan(&mut scanner, &format!("{entry1}\n"));
    assert_eq!(totals1.input_tokens, 100);
    assert_eq!(totals1.output_tokens, 50);
    assert_eq!(totals1.total_tokens, 150);
    assert_eq!(totals1.model, "sonnet-4-20250514");

    let entry2 = r#"{"type":"assistant","uuid":"a2","requestId":"r2","message":{"model":"sonnet-4-20250514","role":"assistant","content":[],"usage":{"input_tokens":200,"output_tokens":80,"cache_read_input_tokens":0,"cache_creation_input_tokens":0},"stop_reason":"end_turn"}}"#;
    let totals2 = scan(&mut scanner, &format!("{entry2}\n"));
    assert_eq!(totals2.input_tokens, 300);
    assert_eq!(totals2.output_tokens, 130);
    assert_eq!(totals2.total_tokens, 430);
}

#[test]
fn incremental_scanner_deduplicates_request_ids() {
    let streaming = r#"{"type":"assistant","uuid":"a1","requestId":"r1","message":{"model":"sonnet-4-20250514","role":"assistant","content":[],"usage":{"input_tokens":100,"output_tokens":20,"cache_read_input_tokens":0,"cache_creation_input_tokens":0}}}"#;
    let complete = r#"{"type":"assistant","uuid":"a2","requestId":"r1","message":{"model":"sonnet-4-20250514","role":"assistant","content":[],"usage":{"input_tokens":100,"output_tokens":50,"cache_read_input_tokens":0,"cache_creation_input_tokens":0},"stop_reason":"end_turn"}}"#;
    let mut scanner = IncrementalTokenScanner::new();
    let totals = scan(&mut scanner, &format!("{streaming}\n{complete}\n"));
    assert_eq!(totals.input_tokens, 100);
    assert_eq!(totals.output_tokens, 50);
    assert_eq!(totals.total_tokens, 150);
}

#[test]
fn incremental_scanner_skips_non_assistant_lines() {
    let user_entry = r#"{"type":"user","uuid":"u1","message":{"content":"hello"}}"#;
    let assistant_entry = r#"{"type":"assistant","uuid":"a1","requestId":"r1","message":{"model":"sonnet-4-20250514","role":"assistant","content":[],"usage":{"input_tokens":50,"output_tokens":25,"cache_read_input_tokens":0,"cache_creation_input_tokens":0},"stop_reason":"end_turn"}}"#;
    let mut scanner = IncrementalTokenScanner::new();
    let totals = scan(&mut scanner, &format!("{user_entry}\n{assistant_entry}\n"));
    assert_eq!(totals.total_tokens, 75);
}

#[test]
fn incremental_scanner_nested_cache_creation_format() {
    let entry = r#"{"type":"assistant","uuid":"a1","requestId":"r1","message":{"model":"sonnet-4-20250514","role":"assistant","content":[],"usage":{"input_tokens":100,"output_tokens":50,"cache_read_input_tokens":0,"cache_creation":{"input_tokens":300}},"stop_reason":"end_turn"}}"#;
    let mut scanner = IncrementalTokenScanner::new();
    let totals = scan(&mut scanner, &format!("{entry}\n"));
    assert_eq!(totals.input_tokens, 100);
    assert_eq!(totals.output_tokens, 50);
    assert_eq!(totals.cache_creation_tokens, 300);
    assert_eq!(totals.total_tokens, 450);
}

#[test]
fn forked_session_incremental_scanner_excludes_inherited_tokens() {
    let inh_a = "{\"type\":\"assistant\",\"uuid\":\"pa1\",\"requestId\":\"r1\",\"forkedFrom\":{\"sessionId\":\"p\",\"messageUuid\":\"pa1\"},\"message\":{\"usage\":{\"input_tokens\":200,\"output_tokens\":100,\"cache_read_input_tokens\":0,\"cache_creation_input_tokens\":0},\"stop_reason\":\"end_turn\"}}\n";
    let new_a = "{\"type\":\"assistant\",\"uuid\":\"fa1\",\"requestId\":\"r2\",\"message\":{\"usage\":{\"input_tokens\":20,\"output_tokens\":10,\"cache_read_input_tokens\":0,\"cache_creation_input_tokens\":0},\"stop_reason\":\"end_turn\"}}\n";
    let mut scanner = IncrementalTokenScanner::new();
    let totals = scan(&mut scanner, &format!("{inh_a}{new_a}"));
    assert_eq!(totals.input_tokens, 20, "the scanner must skip forkedFrom entries");
    assert_eq!(totals.output_tokens, 10, "the scanner must skip forkedFrom entries");
}

#[test]
fn token_scan_in_pieces_matches_whole_read() {
    let text = [
        r#"{"type":"assistant","requestId":"r1","message":{"model":"m1","usage":{"input_tokens":10,"output_tokens":2}}}"#,
        "\n",
        r#"{"type":"assistant","message":{"model":"m1","usage":{"input_tokens":5,"output_tokens":1,"cache_read_input_tokens":7}}}"#,
        "\n",
        r#"{"type":"assistant","requestId":"r1","message":{"model":"m1","usage":{"input_tokens":10,"output_tokens":9},"stop_reason":"end_turn"}}"#,
        "\n",
        r#"{"type":"assistant","requestId":"r2","message":{"model":"m2","usage":{"input_tokens":1,"cache_creation_input_tokens":4},"stop_reason":"end_turn"}}"#,
        "\n",
    ].concat();
    let mut whole = IncrementalTokenScanner::new();
    let all = scan(&mut whole, &text);
    let lines: Vec<&str> = text.lines().collect();
    for cut in 0..=lines.len() {
        let mut pieces = IncrementalTokenScanner::new();
        let first = lines[..cut].join("\n");
        let second = lines[cut..].join("\n");
        scan(&mut pieces, &first);
        let t = scan(&mut pieces, &second);
        assert_eq!(t.total_tokens, all.total_tokens);
        assert_eq!(t.input_tokens, all.input_tokens);
        assert_eq!(t.output_tokens, all.output_tokens);
        assert_eq!(t.cache_read_tokens, all.cache_read_tokens);
        assert_eq!(t.cache_creation_tokens, all.cache_creation_tokens);
        assert_eq!(t.model, all.model);
    }
    // r1 keeps its complete snapshot (10 + 9), the entry without a request
    // id adds 5 + 1 + 7, and r2 adds 1 + 4.
    assert_eq!(all.input_tokens, 16);
    assert_eq!(all.output_tokens, 10);
    assert_eq!(all.cache_read_tokens, 7);
    assert_eq!(all.cache_creation_tokens, 4);
    assert_eq!(all.total_tokens, 37);
    assert_eq!(all.model, "m1");
}

#[test]
fn token_scanner_skips_synthetic_zero_and_non_json_lines() {
    let text = [
        "not json\n",
        r#"{"type":"assistant","requestId":"r0","message":{"model":"<synthetic>","usage":{"input_tokens":99}}}"#,
        "\n",
        r#"{"type":"assistant","requestId":"r1","message":{"model":"first","usage":{"input_tokens":0,"output_tokens":0}}}"#,
        "\n",
        r#"{"type":"assistant","message":{"model":"second","usage":{"input_tokens":3}}}"#,
        "\n",
        r#"{"type":"assistant","message":{"model":"third"}}"#,
        "\n",
    ].concat();
    let mut scanner = IncrementalTokenScanner::new();
    let totals = scan(&mut scanner, &text);
    assert_eq!(totals.total_tokens, 3);
    assert_eq!(totals.input_tokens, 3);
    // The zero-count entry is skipped before it could set the model.
    assert_eq!(totals.model, "second");
}

#[test]
fn token_scanner_uses_estimate_for_streaming_entries() {
    let streaming = r#"{"type":"assistant","requestId":"r1","message":{"model":"m","usage":{"input_tokens":1,"output_tokens":2}}}"#;
    let complete = r#"{"type":"assistant","requestId":"r2","message":{"model":"m","usage":{"input_tokens":1,"output_tokens":2},"stop_reason":"end_turn"}}"#;
    let estimate = |_raw: &JsonValue| -> i64 { 40 };
    let mut scanner = IncrementalTokenScanner::new();
    scanner.process_line(streaming, &estimate, &cache_creation, &prefer_complete);
    scanner.process_line(complete, &estimate, &cache_creation, &prefer_complete);
    let totals = scanner.compute_totals();
    // The streaming entry takes the larger estimate; the complete one keeps its report.
    assert_eq!(totals.output_tokens, 42);
    assert_eq!(totals.total_tokens, 44);
}

#[test]
fn token_scanner_keeps_first_snapshot_when_choice_declines() {
    let a = r#"{"type":"assistant","requestId":"r1","message":{"model":"m","usage":{"input_tokens":7},"stop_reason":"end_turn"}}"#;
    let b = r#"{"type":"assistant","requestId":"r1","message":{"model":"m","usage":{"input_tokens":100}}}"#;
    let mut scanner = IncrementalTokenScanner::new();
    scanner.process_line(a, &no_estimate, &cache_creation, &prefer_complete);
    scanner.process_line(b, &no_estimate, &cache_creation, &prefer_complete);
    let totals = scanner.compute_totals();
    assert_eq!(totals.input_tokens, 7);
    assert_eq!(totals.total_tokens, 7);
}

#[test]
fn scan_new_bytes_reads_appended_lines_and_advances_the_offset() {
    let a = r#"{"type":"assistant","requestId":"r1","message":{"model":"m","usage":{"input_tokens":3}}}"#;
    let b = r#"{"type":"assistant","requestId":"r2","message":{"model":"m","usage":{"input_tokens":4}}}"#;
    let mut file = format!("{a}\n").into_bytes();
    let mut scanner = IncrementalTokenScanner::new();
    let t1 = scanner.scan_new_bytes(&file, &no_estimate, &cache_creation, &prefer_complete);
    assert_eq!(t1.input_tokens, 3);
    assert_eq!(scanner.offset() as usize, file.len());
    let start = file.len();
    file.extend_from_slice(format!("  {b}  \n").as_bytes());
    let t2 = scanner.scan_new_bytes(&file[start..], &no_estimate, &cache_creation, &prefer_complete);
    assert_eq!(t2.input_tokens, 7);
    assert_eq!(scanner.offset() as usize, file.len());
    // Nothing new: nothing changes.
    let t3 = scanner.scan_new_bytes(&[], &no_estimate, &cache_creation, &prefer_complete);
    assert_eq!(t3.input_tokens, 7);
    assert_eq!(scanner.offset() as usize, file.len());
}

#[test]
fn scan_new_bytes_waits_for_an_unterminated_line_and_stops_at_bad_utf8() {
    let a = r#"{"type":"assistant","message":{"model":"m","usage":{"input_tokens":5}}}"#;
    let mut scanner = IncrementalTokenScanner::new();
    let t = scanner.scan_new_bytes(a.as_bytes(), &no_estimate, &cache_creation, &prefer_complete);
    assert_eq!(t.input_tokens, 0);
    assert_eq!(scanner.offset(), 0);
    let t = scanner.scan_new_bytes(format!("{a}\n").as_bytes(), &no_estimate, &cache_creation, &prefer_complete);
    assert_eq!(t.input_tokens, 5);
    assert_eq!(scanner.offset() as usize, a.len() + 1);

    let mut data = b"not json\n".to_vec();
    data.extend_from_slice(&[0xff, b'\n']);
    data.extend_from_slice(format!("{a}\n").as_bytes());
    let mut other = IncrementalTokenScanner::new();
    let t = other.scan_new_bytes(&data, &no_estimate, &cache_creation, &prefer_complete);
    assert_eq!(t.input_tokens, 0);
    assert_eq!(other.offset(), 9);
}

#[test]
fn scan_new_bytes_after_a_cut_line_gives_the_totals_of_the_whole_file() {
    let l1 = r#"{"type":"assistant","requestId":"r1","message":{"model":"m","usage":{"input_tokens":10,"output_tokens":2}}}"#;
    let l2 = r#"{"type":"assistant","requestId":"r2","message":{"model":"m","usage":{"input_tokens":7,"cache_read_input_tokens":3},"stop_reason":"end_turn"}}"#;
    let whole = format!("{l1}\n{l2}\n").into_bytes();
    for cut in 0..=whole.len() {
        let mut inc = IncrementalTokenScanner::new();
        inc.scan_new_bytes(&whole[..cut], &no_estimate, &cache_creation, &prefer_complete);
        let off = inc.offset() as usize;
        let t = inc.scan_new_bytes(&whole[off..], &no_estimate, &cache_creation, &prefer_complete);
        let mut fresh = IncrementalTokenScanner::default();
        let w = fresh.scan_new_bytes(&whole, &no_estimate, &cache_creation, &prefer_complete);
        assert_eq!(t.total_tokens, w.total_tokens, "cut at {cut}");
        assert_eq!(t.input_tokens, w.input_tokens);
        assert_eq!(t.output_tokens, w.output_tokens);
        assert_eq!(t.cache_read_tokens, w.cache_read_tokens);
        assert_eq!(t.model, w.model);
        assert_eq!(inc.offset() as usize, whole.len());
    }
}

#[test]
fn totals_are_the_sum_of_their_parts() {
    let text = [
        r#"{"type":"assistant","requestId":"r1","message":{"model":"m","usage":{"input_tokens":9223372036854775807,"output_tokens":5,"cache_read_input_tokens":2,"cache_creation_input_tokens":1}}}"#,
        "\n",
        r#"{"type":"assistant","message":{"model":"m","usage":{"input_tokens":3,"output_tokens":4}}}"#,
        "\n",
    ]
    .concat();
    let mut scanner = IncrementalTokenScanner::new();
    let t = scan(&mut scanner, &text);
    let parts = t
        .input_tokens
        .wrapping_add(t.output_tokens)
        .wrapping_add(t.cache_read_tokens)
        .wrapping_add(t.cache_creation_tokens);
    assert_eq!(t.total_tokens, parts);
}

#[test]
fn subagent_reads_pick_grown_agent_transcripts() {
    let mut scanner = IncrementalTokenScanner::new();
    let listing = vec![
        ("agent-a.jsonl".to_string(), 10u64),
        ("notes.txt".to_string(), 50),
        ("agent-b.json".to_string(), 5),
        ("agent-c.jsonl".to_string(), 0),
    ];
    assert_eq!(scanner.subagent_reads(&listing), vec![("agent-a.jsonl".to_string(), 0u64)]);
    let line = r#"{"type":"assistant","requestId":"r1","message":{"model":"m","usage":{"input_tokens":4}}}"#;
    let data = format!("{line}\npartial");
    scanner.scan_subagent_bytes("agent-a.jsonl", data.len() as u64, data.as_bytes(), &no_estimate, &cache_creation, &prefer_complete);
    assert_eq!(scanner.compute_totals().input_tokens, 4);
    // Same size: nothing to read; grown: read from the recorded offset.
    let same = vec![("agent-a.jsonl".to_string(), data.len() as u64)];
    assert!(scanner.subagent_reads(&same).is_empty());
    let grown = vec![("agent-a.jsonl".to_string(), data.len() as u64 + 1)];
    assert_eq!(scanner.subagent_reads(&grown), vec![("agent-a.jsonl".to_string(), (line.len() + 1) as u64)]);
    // The same request id in the main file shares the map with the subagent's.
    let main = format!("{line}\n");
    let t = scanner.scan_new_bytes(main.as_bytes(), &no_estimate, &cache_creation, &prefer_complete);
    assert_eq!(t.input_tokens, 4);
}
