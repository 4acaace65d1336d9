use claude_code_trace::live_chain::{fallback_predecessor, resolve_live_chain_uuids, select_live_entries, Entry};

fn make_entry(uuid: &str, parent_uuid: &str, leaf_uuid: &str, is_sidechain: bool) -> Entry {
    Entry {
        uuid: uuid.to_string(),
        parent_uuid: parent_uuid.to_string(),
        leaf_uuid: leaf_uuid.to_string(),
        is_sidechain,
        ..Default::default()
    }
}

fn make_compact_boundary(uuid: &str, logical_parent_uuid: &str) -> Entry {
    Entry {
        uuid: uuid.to_string(),
        parent_uuid: String::new(),
        logical_parent_uuid: logical_parent_uuid.to_string(),
        entry_type: "system".to_string(),
        subtype: "compact_boundary".to_string(),
        ..Default::default()
    }
}

fn make_rewind_pointer(uuid: &str, rewind_to_uuid: &str) -> Entry {
    Entry {
        uuid: uuid.to_string(),
        parent_uuid: String::new(),
        entry_type: "rewind-pointer".to_string(),
        rewind_to_uuid: rewind_to_uuid.to_string(),
        ..Default::default()
    }
}

#[test]
fn live_chain_empty_entries_returns_empty_set() {
    let result = resolve_live_chain_uuids(&[]);
    assert!(result.is_empty());
}

#[test]
fn live_chain_single_entry_no_parent_returns_self() {
    let entries = vec![make_entry("u1", "", "", false)];
    let set = resolve_live_chain_uuids(&entries);
    assert!(set.contains("u1"));
    assert_eq!(set.len(), 1);
}

#[test]
fn live_chain_linear_chain_returns_all() {
    let entries = vec![
        make_entry("A", "", "", false),
        make_entry("B", "A", "", false),
        make_entry("C", "B", "", false),
    ];
    let set = resolve_live_chain_uuids(&entries);
    assert!(set.contains("A"));
    assert!(set.contains("B"));
    assert!(set.contains("C"));
    assert_eq!(set.len(), 3);
}

#[test]
fn live_chain_dead_end_branch_excluded() {
    let entries = vec![
        make_entry("A", "", "", false),
        make_entry("B", "A", "", false),
        make_entry("X", "B", "", false),
        make_entry("C", "B", "", false),
        make_entry("D", "C", "", false),
    ];
    let set = resolve_live_chain_uuids(&entries);
    assert!(set.contains("A"), "root must be included");
    assert!(set.contains("B"), "shared node must be included");
    assert!(set.contains("C"), "live chain node must be included");
    assert!(set.contains("D"), "live leaf must be included");
    assert!(!set.contains("X"), "dead-end entry must be excluded");
}

#[test]
fn live_chain_leaf_uuid_hint_overrides_file_order() {
    let entries = vec![
        make_entry("A", "", "", false),
        make_entry("B", "A", "", false),
        make_entry("C", "B", "", false),
        make_entry("D", "A", "", false),
        Entry {
            uuid: String::new(),
            leaf_uuid: "C".to_string(),
            ..Default::default()
        },
    ];
    let set = resolve_live_chain_uuids(&entries);
    assert!(set.contains("A"));
    assert!(set.contains("B"));
    assert!(set.contains("C"), "leafUuid-pointed entry must be live");
    assert!(!set.contains("D"), "dead-end after live tip must be excluded");
}

#[test]
fn live_chain_sidechain_entries_are_not_leaf_candidates() {
    let entries = vec![
        make_entry("A", "", "", false),
        make_entry("B", "A", "", false),
        make_entry("S", "A", "", true),
    ];
    let set = resolve_live_chain_uuids(&entries);
    assert!(set.contains("A"));
    assert!(set.contains("B"), "main chain leaf must be in live set");
}

#[test]
fn live_chain_five_level_deep_sidechains_do_not_corrupt_live_set() {
    let entries = vec![
        make_entry("A", "", "", false),
        make_entry("B", "A", "", false),
        make_entry("S1", "A", "", true),
        make_entry("S2", "S1", "", true),
        make_entry("S3", "S2", "", true),
        make_entry("S4", "S3", "", true),
        make_entry("S5", "S4", "", true),
    ];
    let set = resolve_live_chain_uuids(&entries);
    assert!(set.contains("A"), "root main-session entry must be in live set");
    assert!(set.contains("B"), "main-session live leaf must survive 5-level sidechain chains");
    for id in ["S1", "S2", "S3", "S4", "S5"] {
        assert!(!set.contains(id), "depth sidechain {id} must not be in main-session live set");
    }
}

#[test]
fn live_chain_with_leafuuid_hint_handles_five_level_sidechains() {
    let mut leaf_entry = make_entry("B", "A", "", false);
    leaf_entry.leaf_uuid = "B".to_string();
    let entries = vec![
        make_entry("A", "", "", false),
        leaf_entry,
        make_entry("S1", "A", "", true),
        make_entry("S2", "S1", "", true),
        make_entry("S3", "S2", "", true),
        make_entry("S4", "S3", "", true),
        make_entry("S5", "S4", "", true),
    ];
    let set = resolve_live_chain_uuids(&entries);
    assert!(set.contains("A"), "root must be in live set");
    assert!(set.contains("B"), "leafUuid-pointed entry must be the live tip");
    assert_eq!(set.len(), 2, "only A and B belong to the main-session chain");
}

#[test]
fn live_chain_cycle_guard_prevents_infinite_loop() {
    let entries = vec![make_entry("A", "B", "", false), make_entry("B", "A", "", false)];
    let set = resolve_live_chain_uuids(&entries);
    assert!(set.is_empty());
}

#[test]
fn live_chain_follows_logical_parent_uuid_through_compact_boundary() {
    let entries = vec![
        make_entry("A", "", "", false),
        make_entry("B", "A", "", false),
        make_entry("C", "B", "", false),
        make_compact_boundary("D", "C"),
        make_entry("E", "D", "", false),
        make_entry("F", "E", "", false),
    ];
    let set = resolve_live_chain_uuids(&entries);
    assert!(set.contains("F"), "live leaf must be in live set");
    assert!(set.contains("E"), "post-compact entry must be in live set");
    assert!(set.contains("D"), "compact_boundary must be in live set");
    assert!(set.contains("C"), "last pre-compact entry must be in live set");
    assert!(set.contains("B"), "mid pre-compact entry must be in live set");
    assert!(set.contains("A"), "first pre-compact entry must be in live set");
    assert_eq!(set.len(), 6);
}

#[test]
fn live_chain_multiple_compactions_includes_all_pre_compact_messages() {
    let entries = vec![
        make_entry("A", "", "", false),
        make_entry("B", "A", "", false),
        make_entry("C", "B", "", false),
        make_compact_boundary("D", "C"),
        make_entry("E", "D", "", false),
        make_entry("F", "E", "", false),
        make_compact_boundary("G", "F"),
        make_entry("H", "G", "", false),
        make_entry("I", "H", "", false),
    ];
    let set = resolve_live_chain_uuids(&entries);
    assert_eq!(set.len(), 9, "all entries across both compactions must be in live set");
    for id in &["A", "B", "C", "D", "E", "F", "G", "H", "I"] {
        assert!(set.contains(id), "{id} must be in live set");
    }
}

#[test]
fn live_chain_compact_boundary_logical_parent_cycle_falls_back_to_file_order() {
    let entries = vec![
        make_entry("A", "", "", false),
        make_entry("B", "A", "", false),
        make_entry("C", "B", "", false),
        make_compact_boundary("D", "G"),
        make_entry("E", "D", "", false),
        make_entry("F", "E", "", false),
        make_entry("G", "F", "", false),
        make_entry("H", "G", "", false),
    ];
    let set = resolve_live_chain_uuids(&entries);
    assert_eq!(set.len(), 8, "pre-compact history must survive a cyclic logicalParentUuid");
    for id in &["A", "B", "C", "D", "E", "F", "G", "H"] {
        assert!(set.contains(id), "{id} must be in live set");
    }
}

#[test]
fn live_chain_compact_boundary_with_dead_end_branch_excluded() {
    let entries = vec![
        make_entry("A", "", "", false),
        make_entry("B", "A", "", false),
        make_entry("X", "B", "", false),
        make_compact_boundary("C", "B"),
        make_entry("D", "C", "", false),
        make_entry("E", "D", "", false),
    ];
    let set = resolve_live_chain_uuids(&entries);
    assert!(set.contains("E"), "live leaf must be in live set");
    assert!(set.contains("D"));
    assert!(set.contains("C"), "compact_boundary must be in live set");
    assert!(set.contains("B"), "pre-compact entry must be in live set via logicalParentUuid");
    assert!(set.contains("A"), "root must be in live set");
    assert!(!set.contains("X"), "dead-end branch must be excluded");
}

#[test]
fn live_chain_post_rewind_branch_excludes_pre_rewind_dead_end() {
    let mut h = make_entry("H", "G", "", false);
    h.leaf_uuid = "H".to_string();
    let entries = vec![
        make_entry("A", "", "", false),
        make_entry("B", "A", "", false),
        make_entry("C", "B", "", false),
        make_compact_boundary("D", "C"),
        make_entry("E", "D", "", false),
        make_entry("F", "E", "", false),
        make_rewind_pointer("RP", "C"),
        make_entry("G", "C", "", false),
        h,
    ];
    let set = resolve_live_chain_uuids(&entries);
    assert!(set.contains("H"), "post-rewind live leaf must be in live set");
    assert!(set.contains("G"), "post-rewind user entry must be in live set");
    assert!(set.contains("C"), "rewind anchor (last pre-clear entry) must be in live set");
    assert!(set.contains("B"), "pre-clear entry must be in live set");
    assert!(set.contains("A"), "root must be in live set");
    assert!(!set.contains("D"), "compact_boundary must be excluded (dead branch after rewind)");
    assert!(!set.contains("E"), "compact summary must be excluded (dead branch after rewind)");
    assert!(!set.contains("F"), "pre-rewind assistant turn must be excluded");
    assert!(!set.contains("RP"), "rewind-pointer must be excluded (structural marker)");
    assert_eq!(set.len(), 5);
}

#[test]
fn live_chain_floating_rewind_pointer_does_not_disrupt_resolution() {
    let mut h = make_entry("H", "G", "", false);
    h.leaf_uuid = "H".to_string();
    let entries = vec![
        make_entry("A", "", "", false),
        make_entry("B", "A", "", false),
        make_entry("C", "B", "", false),
        make_entry("G", "C", "", false),
        h,
        make_rewind_pointer("RP", "B"),
    ];
    let set = resolve_live_chain_uuids(&entries);
    assert!(set.contains("H"), "live tip must be in live set");
    assert!(set.contains("G"));
    assert!(set.contains("C"));
    assert!(set.contains("B"));
    assert!(set.contains("A"));
    assert!(!set.contains("RP"), "floating rewind-pointer must not be in live set");
    assert_eq!(set.len(), 5);
}

#[test]
fn live_chain_rewind_with_leafuuid_set_to_rewind_target() {
    let mut c = make_entry("C", "B", "", false);
    c.leaf_uuid = "C".to_string();
    let entries = vec![
        make_entry("A", "", "", false),
        make_entry("B", "A", "", false),
        c,
        make_compact_boundary("D", "C"),
        make_entry("E", "D", "", false),
        make_entry("F", "E", "", false),
    ];
    let set = resolve_live_chain_uuids(&entries);
    assert!(set.contains("C"), "rewind target must be the live leaf");
    assert!(set.contains("B"));
    assert!(set.contains("A"));
    assert!(!set.contains("D"), "compact_boundary must be excluded");
    assert!(!set.contains("E"), "post-clear entry must be excluded");
    assert!(!set.contains("F"), "post-clear entry must be excluded");
    assert_eq!(set.len(), 3);
}

#[test]
fn live_chain_leaf_hint_to_unknown_uuid_falls_back_to_file_order() {
    // A hint naming no entry is ignored: the last main-chain leaf is the tip.
    let entries = vec![make_entry("A", "", "Z", false), make_entry("B", "A", "", false)];
    let set = resolve_live_chain_uuids(&entries);
    assert!(set.contains("A"));
    assert!(set.contains("B"));
    assert!(!set.contains("Z"));
    assert_eq!(set.len(), 2);
}

#[test]
fn fallback_predecessor_is_latest_earlier_unvisited_main_entry() {
    let entries = vec![
        make_entry("A", "", "", false),
        make_entry("B", "A", "", false),
        make_entry("S", "A", "", true),
        make_compact_boundary("D", "B"),
    ];
    let none = resolve_live_chain_uuids(&[]);
    assert_eq!(fallback_predecessor(&entries, 3, &none), Some("B".to_string()));
    let live = resolve_live_chain_uuids(&entries);
    assert_eq!(fallback_predecessor(&entries, 3, &live), None);
}

fn summary(agent: &str, text: &str) -> Entry {
    Entry {
        entry_type: "summary".to_string(),
        agent_name: agent.to_string(),
        summary: text.to_string(),
        ..Default::default()
    }
}

#[test]
fn duplicate_summary_entries_keep_first_of_each_key() {
    let entries = vec![
        summary("worker", "idle"),
        summary("worker", "idle"),
        summary("other", "idle"),
        summary("worker", "busy"),
    ];
    let kept = select_live_entries(&entries, true);
    assert_eq!(kept.len(), 3);
    assert_eq!(kept[0].agent_name, "worker");
    assert_eq!(kept[1].agent_name, "other");
    assert_eq!(kept[2].summary, "busy");
}

#[test]
fn full_read_drops_dead_end_but_keeps_live_attachment_and_sidechain() {
    let mut attachment = make_entry("T", "B", "", false);
    attachment.entry_type = "attachment".to_string();
    let entries = vec![
        make_entry("A", "", "", false),
        make_entry("B", "A", "", false),
        make_entry("X", "A", "", false),
        attachment,
        make_entry("S", "A", "", true),
        make_entry("C", "B", "", false),
    ];
    let kept = select_live_entries(&entries, true);
    let ids: Vec<String> = kept.iter().map(|e| e.uuid.clone()).collect();
    assert_eq!(ids, vec!["A", "B", "T", "S", "C"]);
    // An incremental read resolves nothing and keeps every entry.
    assert_eq!(select_live_entries(&entries, false).len(), 6);
}
