use vstd::prelude::*;
use crate::json::{get_str, json_get, json_i64, parsed_json, str_member, JsonValue};
use crate::session::{apply_liveness_map, dup_opt_string, liveness_joined, Liveness, LivenessView, SessionInfo};
use crate::strmap::{distinct_keys, lemma_distinct_lookup, lemma_pairs_map_lookup, last_key_below, pairs_map, Duplicate, StrMap};
use crate::text::{trim, trim_text, views};

verus! {

/// One file of the running-session registry (`sessions/*.json` in the
/// coding agent's home directory),
/// read defensively: every field is optional.
pub struct RegEntry {
    /// The `/rename` name, trimmed; absent when missing or blank.
    pub name: Option<String>,
    pub status: Option<String>,
    pub status_updated_at: Option<i64>,
    pub pid: Option<i64>,
    pub bridge_session_id: Option<String>,
}

/// What a [`RegEntry`] holds, as plain values.
pub struct RegEntryView {
    pub name: Option<Seq<char>>,
    pub status: Option<Seq<char>>,
    pub status_updated_at: Option<i64>,
    pub pid: Option<i64>,
    pub bridge_session_id: Option<Seq<char>>,
}

/// The text of an optional string.
pub open spec fn opt_text(o: Option<String>) -> Option<Seq<char>> {
    match o {
        Some(s) => Some(s@),
        None => None,
    }
}

impl View for RegEntry {
    type V = RegEntryView;

    open spec fn view(&self) -> RegEntryView {
        RegEntryView {
            name: opt_text(self.name),
            status: opt_text(self.status),
            status_updated_at: self.status_updated_at,
            pid: self.pid,
            bridge_session_id: opt_text(self.bridge_session_id),
        }
    }
}

impl Duplicate for RegEntry {
    fn duplicate(&self) -> (r: RegEntry) {
        RegEntry {
            name: dup_opt_string(&self.name),
            status: dup_opt_string(&self.status),
            status_updated_at: self.status_updated_at,
            pid: self.pid,
            bridge_session_id: dup_opt_string(&self.bridge_session_id),
        }
    }
}

/// The registry fields of a parsed registry file: `name` trimmed and dropped
/// when blank, `status` and `bridgeSessionId` when they are strings,
/// `statusUpdatedAt` and `pid` when they are integers.
pub open spec fn reg_entry_of(v: JsonValue) -> RegEntryView {
    RegEntryView {
        name: match str_member(v, "name"@) {
            Some(n) => if trim_text(n).len() > 0 { Some(trim_text(n)) } else { None },
            None => None,
        },
        status: str_member(v, "status"@),
        status_updated_at: json_i64(json_get(v, "statusUpdatedAt"@)),
        pid: json_i64(json_get(v, "pid"@)),
        bridge_session_id: str_member(v, "bridgeSessionId"@),
    }
}

/// The `(sessionId, entry)` that a registry file's text records: `None` when
/// the text is not JSON or has no string `sessionId`.
pub open spec fn registry_record(content: Seq<char>) -> Option<(Seq<char>, RegEntryView)> {
    match parsed_json(content) {
        Some(v) => match str_member(v, "sessionId"@) {
            Some(id) => Some((id, reg_entry_of(v))),
            None => None,
        },
        None => None,
    }
}

/// The registry that a directory's files describe, read in the given order: a
/// later file for the same `sessionId` replaces an earlier one.
pub open spec fn registry_of(contents: Seq<Seq<char>>) -> Map<Seq<char>, RegEntryView>
    decreases contents.len(),
{
    if contents.len() == 0 {
        Map::empty()
    } else {
        match registry_record(contents.last()) {
            Some((id, e)) => registry_of(contents.drop_last()).insert(id, e),
            None => registry_of(contents.drop_last()),
        }
    }
}

/// Read one registry file's text.
pub fn registry_entry_from_json(content: &str) -> (r: Option<(String, RegEntry)>)
    ensures
        match registry_record(content@) {
            Some((id, e)) => r matches Some((s, x)) && s@ == id && x@ == e,
            None => r is None,
        },
{
    let v = match JsonValue::parse(content) {
        Some(v) => v,
        None => return None,
    };
    let session_id = match get_str(&v, "sessionId") {
        Some(s) => s.clone(),
        None => return None,
    };
    let name = match get_str(&v, "name") {
        Some(n) => {
            let t = trim(n.as_str());
            if t.as_str().is_empty() {
                None
            } else {
                Some(t)
            }
        },
        None => None,
    };
    let status = match get_str(&v, "status") {
        Some(s) => Some(s.clone()),
        None => None,
    };
    let status_updated_at = match v.get("statusUpdatedAt") {
        Some(x) => x.as_i64(),
        None => None,
    };
    let pid = match v.get("pid") {
        Some(x) => x.as_i64(),
        None => None,
    };
    let bridge_session_id = match get_str(&v, "bridgeSessionId") {
        Some(s) => Some(s.clone()),
        None => None,
    };
    Some((session_id, RegEntry { name, status, status_updated_at, pid, bridge_session_id }))
}

/// Build the `session_id -> entry` registry from the texts of the registry
/// files, in directory order; unreadable or malformed files are skipped.
pub fn registry_from_files(contents: &[String]) -> (r: StrMap<RegEntry>)
    ensures
        r@ == registry_of(views(contents@)),
{
    let mut reg: StrMap<RegEntry> = StrMap::new();
    let mut i: usize = 0;
    while i < contents.len()
        invariant
            i <= contents@.len(),
            reg@ == registry_of(views(contents@).take(i as int)),
        decreases contents.len() - i,
    {
        assert(views(contents@).take(i + 1).drop_last() =~= views(contents@).take(i as int));
        assert(views(contents@).take(i + 1).last() == contents@[i as int]@);
        match registry_entry_from_json(contents[i].as_str()) {
            Some((id, e)) => {
                reg.insert(id, e);
            },
            None => {},
        }
        i = i + 1;
    }
    assert(views(contents@).take(contents@.len() as int) =~= views(contents@));
    reg
}

/// The names that a registry records: sessions with a non-blank name.
pub open spec fn names_of(reg: Map<Seq<char>, RegEntryView>) -> Map<Seq<char>, Seq<char>> {
    Map::new(|k: Seq<char>| reg.dom().contains(k) && reg[k].name is Some, |k: Seq<char>| reg[k].name->0)
}

/// The `session_id -> name` map for every registry entry with a name.
pub fn session_names_from_registry(reg: &StrMap<RegEntry>) -> (r: StrMap<String>)
    ensures
        r@ == names_of(reg@),
{
    reg.note_pairs();
    let ghost ps = reg.pair_seq();
    let mut names: StrMap<String> = StrMap::new();
    let mut i: usize = 0;
    while i < reg.pair_count()
        invariant
            ps == reg.pair_seq(),
            reg@ == pairs_map(ps),
            distinct_keys(ps),
            i <= ps.len(),
            forall|k: Seq<char>| #[trigger] names@.dom().contains(k) ==> names_of(reg@).dom().contains(k) && names@[k] == names_of(reg@)[k],
            forall|j: int| 0 <= j < i && (#[trigger] ps[j]).1@.name is Some ==> names@.dom().contains(ps[j].0@),
        decreases ps.len() - i,
    {
        proof {
            lemma_distinct_lookup(ps, i as int);
        }
        let e = reg.value_at(i);
        match &e.name {
            Some(n) => {
                let k = reg.key_at(i).clone();
                names.insert(k, n.clone());
            },
            None => {},
        }
        i = i + 1;
    }
    assert forall|k: Seq<char>| #[trigger] names_of(reg@).dom().contains(k) implies names@.dom().contains(k) by {
        lemma_pairs_map_lookup(ps, k);
        let j = last_key_below(ps, k, ps.len() as int)->0;
        assert(ps[j].1@.name is Some);
    }
    assert(names@ =~= names_of(reg@));
    names
}

/// The `session_id -> name` map of the running sessions whose registry files
/// have the given texts (`None` when the registry directory is unknown): every
/// session with a non-blank `/rename` name.
pub fn live_session_names(registry_files: Option<&[String]>) -> (r: StrMap<String>)
    ensures
        match registry_files {
            Some(files) => r@ == names_of(registry_of(views(files@))),
            None => r@ == Map::<Seq<char>, Seq<char>>::empty(),
        },
{
    match registry_files {
        Some(files) => {
            let reg = registry_from_files(files);
            session_names_from_registry(&reg)
        },
        None => StrMap::new(),
    }
}

/// The liveness an entry with a status reports at wall-clock time `now_ms`:
/// its status and pid, and the whole seconds since `statusUpdatedAt` (taken as
/// `now_ms` when absent), clamped to at least 0.
pub open spec fn liveness_of(e: RegEntryView, now_ms: i64) -> LivenessView {
    let updated = match e.status_updated_at {
        Some(t) => t as int,
        None => now_ms as int,
    };
    let idle_ms = if now_ms - updated > 0 { now_ms - updated } else { 0 };
    LivenessView { status: e.status->0, idle_seconds: (idle_ms / 1000) as i64, pid: e.pid->0 }
}

/// Every entry's `statusUpdatedAt` is close enough to `now_ms` that their
/// difference is an `i64`.
pub open spec fn idle_fits(reg: Map<Seq<char>, RegEntryView>, now_ms: i64) -> bool {
    forall|k: Seq<char>|
        #[trigger] reg.dom().contains(k) ==> match reg[k].status_updated_at {
            Some(t) => i64::MIN <= now_ms - t <= i64::MAX,
            None => true,
        }
}

/// Whether `m` is the liveness map of the registry `reg` at `now_ms`: an entry
/// is in it exactly when it has a pid and a status and `is_pid_alive` reported
/// its pid alive, with the liveness the entry reports.
pub open spec fn is_liveness_map<F: Fn(i64) -> bool>(
    reg: Map<Seq<char>, RegEntryView>,
    now_ms: i64,
    is_pid_alive: F,
    m: Map<Seq<char>, LivenessView>,
) -> bool {
    &&& forall|k: Seq<char>| #[trigger] m.dom().contains(k) ==> {
        &&& reg.dom().contains(k)
        &&& reg[k].pid is Some
        &&& reg[k].status is Some
        &&& is_pid_alive.ensures((reg[k].pid->0,), true)
        &&& m[k] == liveness_of(reg[k], now_ms)
    }
    &&& forall|k: Seq<char>| #[trigger] reg.dom().contains(k) && reg[k].pid is Some && reg[k].status is Some && !m.dom().contains(k)
        ==> is_pid_alive.ensures((reg[k].pid->0,), false)
}

/// Fill in the liveness of running sessions from the registry, with the same
/// staleness guard as [`liveness_map_from_registry`]: a session whose entry
/// lacks a pid or a status, or whose pid is not alive, keeps its liveness.
pub fn apply_liveness<F: Fn(i64) -> bool>(sessions: &mut Vec<SessionInfo>, reg: &StrMap<RegEntry>, now_ms: i64, is_pid_alive: F)
    requires
        forall|p: i64| is_pid_alive.requires((p,)),
        idle_fits(reg@, now_ms),
    ensures
        exists|m: Map<Seq<char>, LivenessView>|
            is_liveness_map(reg@, now_ms, is_pid_alive, m) && liveness_joined(old(sessions)@, final(sessions)@, m),
{
    let map = liveness_map_from_registry(reg, now_ms, is_pid_alive);
    apply_liveness_map(sessions, &map);
    assert(is_liveness_map(reg@, now_ms, is_pid_alive, map@));
}

/// The `session_id -> liveness` map of a registry: an entry counts only when it
/// has both a pid and a status and `is_pid_alive` reports its pid alive (the
/// staleness guard).
pub fn liveness_map_from_registry<F: Fn(i64) -> bool>(reg: &StrMap<RegEntry>, now_ms: i64, is_pid_alive: F) -> (r: StrMap<Liveness>)
    requires
        forall|p: i64| is_pid_alive.requires((p,)),
        idle_fits(reg@, now_ms),
    ensures
        is_liveness_map(reg@, now_ms, is_pid_alive, r@),
{
    reg.note_pairs();
    let ghost ps = reg.pair_seq();
    let mut map: StrMap<Liveness> = StrMap::new();
    let mut i: usize = 0;
    while i < reg.pair_count()
        invariant
            ps == reg.pair_seq(),
            reg@ == pairs_map(ps),
            distinct_keys(ps),
            i <= ps.len(),
            forall|p: i64| is_pid_alive.requires((p,)),
            idle_fits(reg@, now_ms),
            forall|k: Seq<char>| #[trigger] map@.dom().contains(k) ==> {
                &&& reg@.dom().contains(k)
                &&& reg@[k].pid is Some
                &&& reg@[k].status is Some
                &&& is_pid_alive.ensures((reg@[k].pid->0,), true)
                &&& map@[k] == liveness_of(reg@[k], now_ms)
            },
            forall|j: int| 0 <= j < i && (#[trigger] ps[j]).1@.pid is Some && ps[j].1@.status is Some && !map@.dom().contains(ps[j].0@)
                ==> is_pid_alive.ensures((ps[j].1@.pid->0,), false),
            forall|j: int| i <= j < ps.len() ==> !map@.dom().contains(#[trigger] ps[j].0@),
        decreases ps.len() - i,
    {
        proof {
            lemma_distinct_lookup(ps, i as int);
        }
        let e = reg.value_at(i);
        match (e.pid, &e.status) {
            (Some(pid), Some(status)) => {
                let alive = is_pid_alive(pid);
                if alive {
                    let now = now_ms;
                    let updated = match e.status_updated_at {
                        Some(t) => t,
                        None => now,
                    };
                    assert(reg@.dom().contains(ps[i as int].0@));
                    let diff = now - updated;
                    let idle_ms = if diff > 0 { diff } else { 0 };
                    let k = reg.key_at(i).clone();
                    let ghost before = map@;
                    map.insert(k, Liveness { status: status.clone(), idle_seconds: idle_ms / 1000, pid });
                    assert forall|j: int| i < j < ps.len() implies !map@.dom().contains(#[trigger] ps[j].0@) by {
                        assert(ps[j].0@ != ps[i as int].0@);
                    }
                }
            },
            _ => {},
        }
        i = i + 1;
    }
    assert forall|k: Seq<char>| #[trigger] reg@.dom().contains(k) && reg@[k].pid is Some && reg@[k].status is Some && !map@.dom().contains(k)
        implies is_pid_alive.ensures((reg@[k].pid->0,), false) by {
        lemma_pairs_map_lookup(ps, k);
        let j = last_key_below(ps, k, ps.len() as int)->0;
        assert(ps[j].0@ == k);
    }
    map
}

/// The pid of the running session `session_id`: its registry entry's pid, only
/// when `is_pid_alive` reports that pid alive.
pub fn live_pid_for<F: Fn(i64) -> bool>(reg: &StrMap<RegEntry>, session_id: &str, is_pid_alive: F) -> (r: Option<i64>)
    requires
        forall|p: i64| is_pid_alive.requires((p,)),
    ensures
        match r {
            Some(p) => {
                &&& reg@.dom().contains(session_id@)
                &&& reg@[session_id@].pid == Some(p)
                &&& is_pid_alive.ensures((p,), true)
            },
            None => !reg@.dom().contains(session_id@) || reg@[session_id@].pid is None
                || is_pid_alive.ensures((reg@[session_id@].pid->0,), false),
        },
{
    let e = match reg.get(session_id) {
        Some(e) => e,
        None => return None,
    };
    let pid = match e.pid {
        Some(p) => p,
        None => return None,
    };
    if is_pid_alive(pid) {
        Some(pid)
    } else {
        None
    }
}

/// Whether a cache entry captured at clock reading `captured` is still fresh at
/// `now`: the time elapsed since (zero if the clock reads earlier) is below
/// `ttl`.
pub open spec fn is_fresh(captured: u64, now: u64, ttl: u64) -> bool {
    (if now >= captured { now - captured } else { 0 }) < ttl
}

/// Short-lived cache of the computed liveness map: the registry scan and the
/// pid checks run at most once per time-to-live window.
pub struct LivenessCache {
    entry: Option<(u64, StrMap<Liveness>)>,
}

impl Default for LivenessCache {
    /// The same as [`LivenessCache::new`]: nothing cached.
    fn default() -> (r: LivenessCache)
        ensures
            r.cached() is None,
    {
        LivenessCache::new()
    }
}

impl LivenessCache {
    /// The capture time and the map held, if any.
    pub closed spec fn cached(self) -> Option<(u64, Map<Seq<char>, LivenessView>)> {
        match self.entry {
            Some((t, m)) => Some((t, m@)),
            None => None,
        }
    }

    /// An empty cache.
    pub fn new() -> (r: LivenessCache)
        ensures
            r.cached() is None,
    {
        LivenessCache { entry: None }
    }

    /// The cached map when it was captured less than `ttl` before `now`
    /// (readings of a monotonic clock); otherwise the map that `load` computes,
    /// which is then cached as captured at `now`.
    pub fn get_or_load<F: FnOnce() -> StrMap<Liveness>>(&mut self, now: u64, ttl: u64, load: F) -> (r: StrMap<Liveness>)
        requires
            load.requires(()),
        ensures
            match old(self).cached() {
                Some((t, m)) => if is_fresh(t, now, ttl) {
                    r@ == m && final(self).cached() == old(self).cached()
                } else {
                    load.ensures((), r) && final(self).cached() == Some((now, r@))
                },
                None => load.ensures((), r) && final(self).cached() == Some((now, r@)),
            },
    {
        match &self.entry {
            Some((t, m)) => {
                let elapsed = if now >= *t { now - *t } else { 0 };
                if elapsed < ttl {
                    return m.duplicate();
                }
            },
            None => {},
        }
        let map = load();
        self.entry = Some((now, map.duplicate()));
        map
    }
}

/// Short-lived cache of the `session_id -> name` map: the registry is read at
/// most once per time-to-live window.
pub struct SessionNamesCache {
    entry: Option<(u64, StrMap<String>)>,
}

impl Default for SessionNamesCache {
    /// The same as [`SessionNamesCache::new`]: nothing cached.
    fn default() -> (r: SessionNamesCache)
        ensures
            r.cached() is None,
    {
        SessionNamesCache::new()
    }
}

impl SessionNamesCache {
    /// The capture time and the map held, if any.
    pub closed spec fn cached(self) -> Option<(u64, Map<Seq<char>, Seq<char>>)> {
        match self.entry {
            Some((t, m)) => Some((t, m@)),
            None => None,
        }
    }

    /// An empty cache.
    pub fn new() -> (r: SessionNamesCache)
        ensures
            r.cached() is None,
    {
        SessionNamesCache { entry: None }
    }

    /// The cached names when they were captured less than `ttl` before `now`
    /// (readings of a monotonic clock); otherwise the names that `load`
    /// reads, which are then cached as captured at `now`.
    pub fn get_or_load<F: FnOnce() -> StrMap<String>>(&mut self, now: u64, ttl: u64, load: F) -> (r: StrMap<String>)
        requires
            load.requires(()),
        ensures
            match old(self).cached() {
                Some((t, m)) => if is_fresh(t, now, ttl) {
                    r@ == m && final(self).cached() == old(self).cached()
                } else {
                    load.ensures((), r) && final(self).cached() == Some((now, r@))
                },
                None => load.ensures((), r) && final(self).cached() == Some((now, r@)),
            },
    {
        match &self.entry {
            Some((t, m)) => {
                let elapsed = if now >= *t { now - *t } else { 0 };
                if elapsed < ttl {
                    return m.duplicate();
                }
            },
            None => {},
        }
        let map = load();
        self.entry = Some((now, map.duplicate()));
        map
    }
}

} // verus!
