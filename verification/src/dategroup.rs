use vstd::prelude::*;
use chrono::TimeZone;
use crate::session::SessionInfo;

verus! {

/// Where a session falls relative to the start of the local day.
#[derive(Clone, Copy, Debug, PartialEq, Eq, Structural, Hash)]
pub enum DateCategory {
    Today,
    Yesterday,
    ThisWeek,
    ThisMonth,
    Older,
}

/// The sessions of one date category, in their original order.
pub struct DateGroup {
    pub category: DateCategory,
    pub sessions: Vec<SessionInfo>,
}

/// One day, in nanoseconds.
pub const DAY_NANOS: i64 = 86_400_000_000_000i64;

/// The category of a modification time `t` (nanoseconds since the epoch) when
/// the local day started at `today`: from `today` on it is Today; then, going
/// back, the day before, the 7 days before and the 30 days before; anything
/// earlier is Older.
pub open spec fn category_of(t: i64, today: int) -> DateCategory {
    if t >= today {
        DateCategory::Today
    } else if t >= today - DAY_NANOS {
        DateCategory::Yesterday
    } else if t >= today - 7 * DAY_NANOS {
        DateCategory::ThisWeek
    } else if t >= today - 30 * DAY_NANOS {
        DateCategory::ThisMonth
    } else {
        DateCategory::Older
    }
}

/// The sessions of category `c`, in order.
pub open spec fn in_category(s: Seq<SessionInfo>, c: DateCategory, today: int) -> Seq<SessionInfo>
    decreases s.len(),
{
    if s.len() == 0 {
        Seq::empty()
    } else if category_of(s.last().mod_time, today) == c {
        in_category(s.drop_last(), c, today).push(s.last())
    } else {
        in_category(s.drop_last(), c, today)
    }
}

/// The categories in display order, newest first.
pub open spec fn category_order() -> Seq<DateCategory> {
    seq![DateCategory::Today, DateCategory::Yesterday, DateCategory::ThisWeek, DateCategory::ThisMonth, DateCategory::Older]
}

/// One `(category, sessions)` group per category of `cats`, in that order,
/// leaving out categories with no session.
pub open spec fn groups_from(cats: Seq<DateCategory>, s: Seq<SessionInfo>, today: int) -> Seq<(DateCategory, Seq<SessionInfo>)>
    decreases cats.len(),
{
    if cats.len() == 0 {
        Seq::empty()
    } else {
        let rest = groups_from(cats.drop_first(), s, today);
        let g = in_category(s, cats[0], today);
        if g.len() > 0 {
            seq![(cats[0], g)] + rest
        } else {
            rest
        }
    }
}

/// Every session falls in exactly one category: the category sizes add up to
/// the number of sessions.
pub proof fn lemma_categories_partition(s: Seq<SessionInfo>, today: int)
    ensures
        in_category(s, DateCategory::Today, today).len() + in_category(s, DateCategory::Yesterday, today).len()
            + in_category(s, DateCategory::ThisWeek, today).len() + in_category(s, DateCategory::ThisMonth, today).len()
            + in_category(s, DateCategory::Older, today).len() == s.len(),
    decreases s.len(),
{
    if s.len() > 0 {
        lemma_categories_partition(s.drop_last(), today);
    }
}

/// The groups as `(category, sessions)` pairs.
pub open spec fn group_pairs(gs: Seq<DateGroup>) -> Seq<(DateCategory, Seq<SessionInfo>)> {
    gs.map_values(|g: DateGroup| (g.category, g.sessions@))
}

/// The category of modification time `t` when the local day started at `today`.
pub fn categorize(t: i64, today: i64) -> (r: DateCategory)
    requires
        today >= i64::MIN + 30 * DAY_NANOS,
    ensures
        r == category_of(t, today as int),
{
    if t >= today {
        DateCategory::Today
    } else if t >= today - DAY_NANOS {
        DateCategory::Yesterday
    } else if t >= today - 7 * DAY_NANOS {
        DateCategory::ThisWeek
    } else if t >= today - 30 * DAY_NANOS {
        DateCategory::ThisMonth
    } else {
        DateCategory::Older
    }
}

/// The sessions of category `c`, in order.
fn sessions_in(sessions: &[SessionInfo], c: DateCategory, today: i64) -> (r: Vec<SessionInfo>)
    requires
        today >= i64::MIN + 30 * DAY_NANOS,
    ensures
        r@ == in_category(sessions@, c, today as int),
{
    let mut out: Vec<SessionInfo> = Vec::new();
    let mut i: usize = 0;
    while i < sessions.len()
        invariant
            i <= sessions@.len(),
            today >= i64::MIN + 30 * DAY_NANOS,
            out@ == in_category(sessions@.take(i as int), c, today as int),
        decreases sessions.len() - i,
    {
        assert(sessions@.take(i + 1).drop_last() =~= sessions@.take(i as int));
        assert(sessions@.take(i + 1).last() == sessions@[i as int]);
        if categorize(sessions[i].mod_time, today) == c {
            out.push(sessions[i].duplicate());
        }
        i = i + 1;
    }
    assert(sessions@.take(sessions@.len() as int) =~= sessions@);
    out
}

/// Group sessions by date category relative to `today`, the start of the local
/// day (nanoseconds since the epoch): groups come in the order Today,
/// Yesterday, ThisWeek, ThisMonth, Older, categories without sessions are left
/// out, and each group keeps the sessions' order.
pub fn group_sessions_by_day_start(sessions: &[SessionInfo], today: i64) -> (r: Vec<DateGroup>)
    requires
        today >= i64::MIN + 30 * DAY_NANOS,
    ensures
        group_pairs(r@) == groups_from(category_order(), sessions@, today as int),
{
    let mut groups: Vec<DateGroup> = Vec::new();
    let ghost s = sessions@;
    let ghost t = today as int;
    let g0 = sessions_in(sessions, DateCategory::Today, today);
    if g0.len() > 0 {
        groups.push(DateGroup { category: DateCategory::Today, sessions: g0 });
    }
    let g1 = sessions_in(sessions, DateCategory::Yesterday, today);
    if g1.len() > 0 {
        groups.push(DateGroup { category: DateCategory::Yesterday, sessions: g1 });
    }
    let g2 = sessions_in(sessions, DateCategory::ThisWeek, today);
    if g2.len() > 0 {
        groups.push(DateGroup { category: DateCategory::ThisWeek, sessions: g2 });
    }
    let g3 = sessions_in(sessions, DateCategory::ThisMonth, today);
    if g3.len() > 0 {
        groups.push(DateGroup { category: DateCategory::ThisMonth, sessions: g3 });
    }
    let g4 = sessions_in(sessions, DateCategory::Older, today);
    if g4.len() > 0 {
        groups.push(DateGroup { category: DateCategory::Older, sessions: g4 });
    }
    proof {
        let cats = category_order();
        assert(cats.drop_first() =~= seq![DateCategory::Yesterday, DateCategory::ThisWeek, DateCategory::ThisMonth, DateCategory::Older]);
        assert(cats.drop_first().drop_first() =~= seq![DateCategory::ThisWeek, DateCategory::ThisMonth, DateCategory::Older]);
        assert(cats.drop_first().drop_first().drop_first() =~= seq![DateCategory::ThisMonth, DateCategory::Older]);
        assert(cats.drop_first().drop_first().drop_first().drop_first() =~= seq![DateCategory::Older]);
        assert(cats.drop_first().drop_first().drop_first().drop_first().drop_first() =~= Seq::<DateCategory>::empty());
        reveal_with_fuel(groups_from, 6);
        assert(group_pairs(groups@) =~= groups_from(cats, s, t));
    }
    groups
}

/// The start of the current local day, in nanoseconds since the epoch, read
/// from `chrono::Local::now()`: local midnight of today's date through
/// `chrono::Local.from_local_datetime(..)` (the earlier instant where midnight
/// is ambiguous), or the current time where midnight cannot be formed or is
/// skipped; `None` when the instant is outside the nanosecond range. Where
/// midnight is ambiguous or skipped this does not panic (a plain `unwrap` of
/// the local conversion would); it takes the earlier instant, or the current
/// time. Nothing is stated of the value: it depends on the clock and the time
/// zone.
#[verifier::external_body]
fn local_day_start_nanos() -> Option<i64> {
    let now = chrono::Local::now();
    let start = match now.date_naive().and_hms_opt(0, 0, 0) {
        Some(dt) => chrono::Local.from_local_datetime(&dt).earliest().unwrap_or(now),
        None => now,
    };
    start.timestamp_nanos_opt()
}

/// Group sessions into date categories based on their modification time,
/// relative to the start of the current local day. The result is the grouping
/// of [`group_sessions_by_day_start`] for the day start that the clock gives.
/// Outside the nanosecond range of the clock every session counts as Today.
pub fn group_sessions_by_date(sessions: &[SessionInfo]) -> (r: Vec<DateGroup>)
    ensures
        exists|today: int| #[trigger] groups_from(category_order(), sessions@, today) == group_pairs(r@),
{
    let today = match local_day_start_nanos() {
        Some(t) => if t >= i64::MIN + 30 * DAY_NANOS { t } else { i64::MIN + 30 * DAY_NANOS },
        None => i64::MIN + 30 * DAY_NANOS,
    };
    let r = group_sessions_by_day_start(sessions, today);
    assert(groups_from(category_order(), sessions@, today as int) == group_pairs(r@));
    r
}

} // verus!
