use claude_code_trace::bookmarks::{apply_add, apply_remove, reconcile_one, remove, upsert, Bookmark, BookmarkMeta};
use claude_code_trace::session::SessionInfo;

fn sample(id: &str, label: &str) -> Bookmark {
    Bookmark {
        session_id: id.into(),
        label: label.into(),
        recap: None,
        meta: BookmarkMeta::default(),
        bookmarked_at: "2026-07-12T00:00:00Z".into(),
    }
}

fn sample_session() -> SessionInfo {
    SessionInfo {
        path: "p".into(),
        session_id: "a".into(),
        mod_time: 0,
        first_message: String::new(),
        recap: None,
        recap_turn: 0,
        name: None,
        liveness: None,
        turn_count: 5,
        is_ongoing: false,
        total_tokens: 100,
        input_tokens: 10,
        output_tokens: 20,
        cache_read_tokens: 30,
        cache_creation_tokens: 40,
        context_tokens: 50,
        cost_usd_bits: 1.5f64.to_bits(),
        duration_ms: 1000,
        model: "model-x".into(),
        cwd: String::new(),
        git_branch: String::new(),
        permission_mode: String::new(),
    }
}

fn sample_bookmark() -> Bookmark {
    Bookmark {
        session_id: "a".into(),
        label: "A".into(),
        recap: Some("A".into()),
        meta: BookmarkMeta {
            model: "model-x".into(),
            turn_count: 5,
            total_tokens: 100,
            input_tokens: 10,
            output_tokens: 20,
            cache_read_tokens: 30,
            cache_creation_tokens: 40,
            context_tokens: 50,
            cost_usd_bits: 1.5f64.to_bits(),
            duration_ms: 1000,
            recap_turn: 5,
            ..BookmarkMeta::default()
        },
        bookmarked_at: "2026-07-12T00:00:00Z".into(),
    }
}

fn ids(list: &[Bookmark]) -> Vec<String> {
    list.iter().map(|b| b.session_id.clone()).collect()
}

#[test]
fn upsert_dedupes_and_puts_newest_first() {
    let mut list = vec![sample("a", "A"), sample("b", "B")];
    upsert(&mut list, sample("a", "A2"));
    assert_eq!(list.len(), 2);
    assert_eq!(list[0].session_id, "a");
    assert_eq!(list[0].label, "A2");
}

#[test]
fn remove_drops_by_session_id() {
    let mut list = vec![sample("a", "A"), sample("b", "B")];
    remove(&mut list, "a");
    assert_eq!(ids(&list), vec!["b"]);
}

#[test]
fn reconcile_fresh_recap_updates_recap_and_recap_turn() {
    let mut b = sample_bookmark();
    let mut s = sample_session();
    s.recap = Some("B".into());
    s.recap_turn = 30;
    assert!(reconcile_one(&mut b, &s));
    assert_eq!(b.recap, Some("B".to_string()));
    assert_eq!(b.meta.recap_turn, 30);
}

#[test]
fn reconcile_never_overwrites_recap_with_null() {
    let mut b = sample_bookmark();
    let mut s = sample_session();
    s.recap = None;
    b.recap = Some("A".into());
    assert!(!reconcile_one(&mut b, &s));
    assert_eq!(b.recap, Some("A".to_string()));
}

#[test]
fn reconcile_sticky_name_adopts_new_name() {
    let mut b = sample_bookmark();
    let mut s = sample_session();
    s.name = Some("New".into());
    assert!(reconcile_one(&mut b, &s));
    assert_eq!(b.label, "New");
}

#[test]
fn reconcile_sticky_name_keeps_existing_label_when_live_name_absent() {
    let mut b = sample_bookmark();
    let s = sample_session();
    assert!(!reconcile_one(&mut b, &s));
    assert_eq!(b.label, "A");
}

#[test]
fn reconcile_is_diff_gated_when_nothing_changed() {
    let mut b = sample_bookmark();
    let s = sample_session();
    assert!(!reconcile_one(&mut b, &s));
}

#[test]
fn reconcile_settles_numbers_once_session_stops_being_ongoing() {
    let mut b = sample_bookmark();
    let mut s = sample_session();
    s.is_ongoing = false;
    s.turn_count = 9;
    assert!(reconcile_one(&mut b, &s));
    assert_eq!(b.meta.turn_count, 9);
}

#[test]
fn reconcile_does_not_sync_numbers_per_turn_while_ongoing() {
    let mut b = sample_bookmark();
    let mut s = sample_session();
    s.is_ongoing = true;
    s.turn_count = 9;
    assert!(!reconcile_one(&mut b, &s));
    assert_eq!(b.meta.turn_count, 5);
}

#[test]
fn reconcile_settles_model_change_when_other_numbers_are_unchanged() {
    let mut b = sample_bookmark();
    let mut s = sample_session();
    s.is_ongoing = false;
    s.model = "model-y".into();
    assert!(reconcile_one(&mut b, &s));
    assert_eq!(b.meta.model, "model-y");
}

#[test]
fn reconcile_self_heals_recap_turn_when_recap_text_is_unchanged() {
    let mut b = sample_bookmark();
    let mut s = sample_session();
    s.recap = Some(b.recap.clone().unwrap());
    s.recap_turn = 12;
    assert!(reconcile_one(&mut b, &s));
    assert_eq!(b.meta.recap_turn, 12);
}

#[test]
fn mutation_helper_list_add_remove_roundtrip() {
    let mut list: Vec<Bookmark> = vec![];
    let b = Bookmark {
        session_id: "s1".into(),
        label: "L".into(),
        ..Default::default()
    };
    upsert(&mut list, b);
    assert_eq!(list.len(), 1);
    assert_eq!(list[0].session_id, "s1");
    remove(&mut list, "s1");
    assert!(list.is_empty());
}

#[test]
fn reconcile_trims_live_name_and_ignores_blank_one() {
    let mut b = sample_bookmark();
    let mut s = sample_session();
    s.name = Some("   ".into());
    assert!(!reconcile_one(&mut b, &s));
    assert_eq!(b.label, "A");
    s.name = Some("  Renamed \n".into());
    assert!(reconcile_one(&mut b, &s));
    assert_eq!(b.label, "Renamed");
}

#[test]
fn reconcile_numbers_piggyback_on_a_name_change_while_ongoing() {
    let mut b = sample_bookmark();
    let mut s = sample_session();
    s.is_ongoing = true;
    s.turn_count = 9;
    s.cost_usd_bits = 2.25f64.to_bits();
    s.name = Some("Named".into());
    assert!(reconcile_one(&mut b, &s));
    assert_eq!(b.meta.turn_count, 9);
    assert_eq!(f64::from_bits(b.meta.cost_usd_bits), 2.25);
    // the modification time is written as RFC 3339 text
    assert_eq!(b.meta.mod_time, "1970-01-01T00:00:00+00:00");
}

#[test]
fn reconcile_writes_modification_time_as_rfc3339() {
    let mut b = sample_bookmark();
    let mut s = sample_session();
    s.turn_count = 6;
    s.mod_time = 1_700_000_000_123_000_000;
    assert!(reconcile_one(&mut b, &s));
    assert_eq!(b.meta.mod_time, "2023-11-14T22:13:20.123+00:00");
    // a second reconcile from the same session changes nothing
    assert!(!reconcile_one(&mut b, &s));
}

#[test]
fn reconcile_never_clears_an_empty_recap() {
    let mut b = sample_bookmark();
    let mut s = sample_session();
    s.recap = Some(String::new());
    assert!(!reconcile_one(&mut b, &s));
    assert_eq!(b.recap, Some("A".to_string()));
}

#[test]
fn upsert_into_empty_and_upsert_twice() {
    let mut list: Vec<Bookmark> = Vec::new();
    upsert(&mut list, sample("x", "X"));
    upsert(&mut list, sample("y", "Y"));
    upsert(&mut list, sample("x", "X2"));
    assert_eq!(ids(&list), vec!["x", "y"]);
    assert_eq!(list[0].label, "X2");
    upsert(&mut list, sample("x", "X2"));
    assert_eq!(ids(&list), vec!["x", "y"]);
}

#[test]
fn remove_missing_id_keeps_list() {
    let mut list = vec![sample("a", "A"), sample("b", "B")];
    remove(&mut list, "zzz");
    assert_eq!(ids(&list), vec!["a", "b"]);
}

#[test]
fn apply_add_commits_only_after_a_successful_save() {
    let mut state = vec![sample("a", "A")];
    let mut saved_ids: Vec<String> = Vec::new();
    let r = apply_add(&mut state, sample("b", "B"), |l: &[Bookmark]| {
        saved_ids = ids(l);
        Ok(())
    });
    let v = r.unwrap();
    assert_eq!(ids(&v), vec!["b", "a"]);
    assert_eq!(ids(&state), vec!["b", "a"]);
    assert_eq!(saved_ids, vec!["b", "a"]);

    let failed = apply_add(&mut state, sample("c", "C"), |_l: &[Bookmark]| Err("disk full".to_string()));
    assert_eq!(failed.err(), Some("disk full".to_string()));
    assert_eq!(ids(&state), vec!["b", "a"]);
}

#[test]
fn apply_remove_commits_only_after_a_successful_save() {
    let mut state = vec![sample("a", "A"), sample("b", "B")];
    let failed = apply_remove(&mut state, "a", |_l: &[Bookmark]| Err("read-only".to_string()));
    assert_eq!(failed.err(), Some("read-only".to_string()));
    assert_eq!(ids(&state), vec!["a", "b"]);
    let v = apply_remove(&mut state, "a", |l: &[Bookmark]| {
        assert_eq!(ids(l), vec!["b"]);
        Ok(())
    })
    .unwrap();
    assert_eq!(ids(&v), vec!["b"]);
    assert_eq!(ids(&state), vec!["b"]);
}

#[test]
fn remove_after_upsert_leaves_the_other_bookmarks() {
    let mut list = vec![sample("a", "A"), sample("b", "B"), sample("c", "C")];
    upsert(&mut list, sample("b", "B2"));
    remove(&mut list, "b");
    assert_eq!(ids(&list), vec!["a", "c"]);
}

#[test]
fn reconcile_compares_costs_as_floats() {
    // +0.0 and -0.0 are equal, so nothing lags.
    let mut b = sample_bookmark();
    b.meta.cost_usd_bits = 0.0f64.to_bits();
    let mut s = sample_session();
    s.cost_usd_bits = (-0.0f64).to_bits();
    s.recap = Some("A".into());
    s.recap_turn = 5;
    assert!(!reconcile_one(&mut b, &s));
    // A NaN cost always differs, so a settled session syncs its numbers.
    s.cost_usd_bits = f64::NAN.to_bits();
    assert!(reconcile_one(&mut b, &s));
    assert_eq!(b.meta.cost_usd_bits, f64::NAN.to_bits());
    assert!(reconcile_one(&mut b, &s));
}
