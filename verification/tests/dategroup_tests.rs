use claude_code_trace::dategroup::{categorize, group_sessions_by_date, group_sessions_by_day_start, DateCategory, DAY_NANOS};
use claude_code_trace::session::SessionInfo;
use chrono::TimeZone;

fn make_session(mod_time: i64) -> SessionInfo {
    SessionInfo {
        session_id: format!("session-{mod_time}"),
        path: "/tmp/test.jsonl".to_string(),
        first_message: "test".to_string(),
        recap: None,
        recap_turn: 0,
        name: None,
        liveness: None,
        mod_time,
        turn_count: 1,
        model: "sonnet-4-20250514".to_string(),
        total_tokens: 100,
        input_tokens: 50,
        output_tokens: 50,
        cache_read_tokens: 0,
        cache_creation_tokens: 0,
        context_tokens: 0,
        cost_usd_bits: 0.01f64.to_bits(),
        duration_ms: 1000,
        cwd: "/tmp".to_string(),
        git_branch: "main".to_string(),
        permission_mode: "default".to_string(),
        is_ongoing: false,
    }
}

fn now_nanos() -> i64 {
    chrono::Utc::now().timestamp_nanos_opt().unwrap()
}

const HOUR: i64 = 3_600_000_000_000;

#[test]
fn empty_sessions_returns_empty_groups() {
    let groups = group_sessions_by_date(&[]);
    assert!(groups.is_empty());
}

#[test]
fn session_from_today_goes_in_today() {
    let sessions = vec![make_session(now_nanos())];
    let groups = group_sessions_by_date(&sessions);
    assert_eq!(groups.len(), 1);
    assert_eq!(groups[0].category, DateCategory::Today);
    assert_eq!(groups[0].sessions.len(), 1);
}

#[test]
fn session_from_yesterday_goes_in_yesterday() {
    let sessions = vec![make_session(now_nanos() - 30 * HOUR)];
    let groups = group_sessions_by_date(&sessions);
    assert!(!groups.is_empty());
    assert_ne!(groups[0].category, DateCategory::Today);
}

#[test]
fn old_session_goes_in_older() {
    let sessions = vec![make_session(now_nanos() - 60 * DAY_NANOS)];
    let groups = group_sessions_by_date(&sessions);
    assert_eq!(groups.len(), 1);
    assert_eq!(groups[0].category, DateCategory::Older);
}

#[test]
fn groups_are_in_chronological_order() {
    let now = now_nanos();
    let sessions = vec![make_session(now - 60 * DAY_NANOS), make_session(now)];
    let groups = group_sessions_by_date(&sessions);
    assert!(groups.len() >= 2);
    let today_pos = groups.iter().position(|g| g.category == DateCategory::Today);
    let older_pos = groups.iter().position(|g| g.category == DateCategory::Older);
    assert!(today_pos.unwrap() < older_pos.unwrap());
}

#[test]
fn multiple_sessions_same_category_grouped() {
    let noon = chrono::Local::now()
        .date_naive()
        .and_hms_opt(12, 0, 0)
        .map(|dt| chrono::Local.from_local_datetime(&dt).unwrap().with_timezone(&chrono::Utc))
        .unwrap_or_else(chrono::Utc::now);
    let noon_nanos = noon.timestamp_nanos_opt().unwrap();
    let sessions = vec![make_session(noon_nanos), make_session(noon_nanos - 5 * 60_000_000_000)];
    let groups = group_sessions_by_date(&sessions);
    assert_eq!(groups.len(), 1);
    assert_eq!(groups[0].category, DateCategory::Today);
    assert_eq!(groups[0].sessions.len(), 2);
}

#[test]
fn categorize_uses_day_boundaries() {
    let today = 100 * DAY_NANOS;
    assert_eq!(categorize(today, today), DateCategory::Today);
    assert_eq!(categorize(today - 1, today), DateCategory::Yesterday);
    assert_eq!(categorize(today - DAY_NANOS, today), DateCategory::Yesterday);
    assert_eq!(categorize(today - DAY_NANOS - 1, today), DateCategory::ThisWeek);
    assert_eq!(categorize(today - 7 * DAY_NANOS, today), DateCategory::ThisWeek);
    assert_eq!(categorize(today - 7 * DAY_NANOS - 1, today), DateCategory::ThisMonth);
    assert_eq!(categorize(today - 30 * DAY_NANOS, today), DateCategory::ThisMonth);
    assert_eq!(categorize(today - 30 * DAY_NANOS - 1, today), DateCategory::Older);
}

#[test]
fn day_start_grouping_partitions_in_category_order() {
    let today = 100 * DAY_NANOS;
    let times = [
        today - 40 * DAY_NANOS,
        today + 5,
        today - 3 * DAY_NANOS,
        today - HOUR,
        today + 10,
        today - 20 * DAY_NANOS,
    ];
    let sessions: Vec<SessionInfo> = times.iter().map(|t| make_session(*t)).collect();
    let groups = group_sessions_by_day_start(&sessions, today);
    let cats: Vec<DateCategory> = groups.iter().map(|g| g.category).collect();
    assert_eq!(
        cats,
        vec![DateCategory::Today, DateCategory::Yesterday, DateCategory::ThisWeek, DateCategory::ThisMonth, DateCategory::Older]
    );
    let today_times: Vec<i64> = groups[0].sessions.iter().map(|s| s.mod_time).collect();
    assert_eq!(today_times, vec![today + 5, today + 10]);
    let total: usize = groups.iter().map(|g| g.sessions.len()).sum();
    assert_eq!(total, sessions.len());
}

#[test]
fn day_start_grouping_leaves_out_empty_categories() {
    let today = 100 * DAY_NANOS;
    let sessions = vec![make_session(today - 60 * DAY_NANOS), make_session(today + 1)];
    let groups = group_sessions_by_day_start(&sessions, today);
    assert_eq!(groups.len(), 2);
    assert_eq!(groups[0].category, DateCategory::Today);
    assert_eq!(groups[1].category, DateCategory::Older);
}
