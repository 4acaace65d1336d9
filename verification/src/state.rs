use vstd::prelude::*;
use crate::registry::is_fresh;
use crate::session::{apply_liveness_map, apply_session_names, liveness_joined, names_joined, Liveness, SessionInfo};
use crate::strmap::StrMap;
use crate::text::{str_eq, views};

verus! {

/// A Server-Sent Event destined for browser clients.
pub struct SseEvent {
    /// Event name, e.g. `"session-update"` or `"picker-refresh"`.
    pub event: String,
    /// JSON-serialized payload.
    pub data: String,
}

/// Time-to-live of the picker's session-list cache, in milliseconds.
pub const SESSIONS_CACHE_TTL_MS: u64 = 2000;

/// Time-to-live of the session-name registry cache, in milliseconds.
pub const SESSION_NAMES_CACHE_TTL_MS: u64 = 1000;

/// Time-to-live of the computed-liveness cache, in milliseconds.
pub const LIVENESS_CACHE_TTL_MS: u64 = 1000;

/// A copy of the sessions.
pub fn copy_sessions(v: &Vec<SessionInfo>) -> (r: Vec<SessionInfo>)
    ensures
        r@ == v@,
{
    let mut out: Vec<SessionInfo> = Vec::new();
    let mut i: usize = 0;
    while i < v.len()
        invariant
            i <= v@.len(),
            out@ == v@.take(i as int),
        decreases v.len() - i,
    {
        out.push(v[i].duplicate());
        i = i + 1;
        assert(out@ =~= v@.take(i as int));
    }
    assert(v@.take(v@.len() as int) =~= v@);
    out
}

/// Whether two lists of directories are equal.
fn same_dirs(a: &Vec<String>, b: &[String]) -> (r: bool)
    ensures
        r == (views(a@) == views(b@)),
{
    if a.len() != b.len() {
        assert(views(a@).len() != views(b@).len());
        return false;
    }
    let mut i: usize = 0;
    while i < a.len()
        invariant
            a@.len() == b@.len(),
            i <= a@.len(),
            forall|k: int| 0 <= k < i ==> a@[k]@ == b@[k]@,
        decreases a.len() - i,
    {
        if !str_eq(a[i].as_str(), b[i].as_str()) {
            assert(views(a@)[i as int] != views(b@)[i as int]);
            return false;
        }
        i = i + 1;
    }
    assert(views(a@) =~= views(b@));
    true
}

/// Short-lived cache of the picker's session list: callers within the
/// time-to-live window, asking for the same project directories, share one
/// disk scan.
pub struct SessionsCache {
    entry: Option<(Vec<String>, u64, Vec<SessionInfo>)>,
}

/// Whether a cache holding `cached` answers a request for `dirs` at `now`.
pub open spec fn serves(cached: Option<(Seq<Seq<char>>, u64, Seq<SessionInfo>)>, dirs: Seq<Seq<char>>, now: u64, ttl: u64) -> bool {
    match cached {
        Some((d, t, _)) => d == dirs && is_fresh(t, now, ttl),
        None => false,
    }
}

impl SessionsCache {
    /// The directories, capture time and sessions held, if any.
    pub closed spec fn cached(self) -> Option<(Seq<Seq<char>>, u64, Seq<SessionInfo>)> {
        match self.entry {
            Some((d, t, s)) => Some((views(d@), t, s@)),
            None => None,
        }
    }

    /// An empty cache.
    pub fn new() -> (r: SessionsCache)
        ensures
            r.cached() is None,
    {
        SessionsCache { entry: None }
    }

    /// The cached sessions when they were discovered for the same directories
    /// less than `ttl` before `now` (readings of a monotonic clock); otherwise
    /// what `discover` finds, which is then cached as captured at `now`. A
    /// failed discovery leaves the cache as it was.
    pub fn get_or_discover<F: FnOnce() -> Result<Vec<SessionInfo>, String>>(
        &mut self,
        project_dirs: &[String],
        now: u64,
        ttl: u64,
        discover: F,
    ) -> (r: Result<Vec<SessionInfo>, String>)
        requires
            discover.requires(()),
        ensures
            if serves(old(self).cached(), views(project_dirs@), now, ttl) {
                &&& r matches Ok(v) && Some(v@) == (match old(self).cached() { Some((_, _, s)) => Some(s), None => None })
                &&& final(self).cached() == old(self).cached()
            } else {
                &&& discover.ensures((), r)
                &&& match r {
                    Ok(v) => final(self).cached() == Some((views(project_dirs@), now, v@)),
                    Err(_) => final(self).cached() == old(self).cached(),
                }
            },
    {
        match &self.entry {
            Some((d, t, s)) => {
                let elapsed = if now >= *t { now - *t } else { 0 };
                if same_dirs(d, project_dirs) && elapsed < ttl {
                    return Ok(copy_sessions(s));
                }
            },
            None => {},
        }
        let found = discover();
        match found {
            Ok(v) => {
                let mut dirs: Vec<String> = Vec::new();
                let mut i: usize = 0;
                while i < project_dirs.len()
                    invariant
                        i <= project_dirs@.len(),
                        dirs@.len() == i,
                        forall|k: int| 0 <= k < i ==> #[trigger] dirs@[k]@ == project_dirs@[k]@,
                    decreases project_dirs.len() - i,
                {
                    let d = project_dirs[i].clone();
                    assert(d@ == project_dirs@[i as int]@);
                    dirs.push(d);
                    i = i + 1;
                }
                assert(views(dirs@) =~= views(project_dirs@));
                self.entry = Some((dirs, now, copy_sessions(&v)));
                Ok(v)
            },
            Err(e) => Err(e),
        }
    }
}

/// The picker's session list for `project_dirs` at `now` (milliseconds of a
/// monotonic clock): served from `cache` when fresh, otherwise discovered by
/// `discover` and cached; then joined with the registry's `names` and, when
/// the registry directory is known, its `liveness` map. A failed discovery is
/// returned as it is.
pub fn discover_sessions_cached<F: FnOnce() -> Result<Vec<SessionInfo>, String>>(
    cache: &mut SessionsCache,
    project_dirs: &[String],
    now: u64,
    discover: F,
    names: &StrMap<String>,
    liveness: Option<&StrMap<Liveness>>,
) -> (r: Result<Vec<SessionInfo>, String>)
    requires
        discover.requires(()),
    ensures
        ({
            let served = serves(old(cache).cached(), views(project_dirs@), now, SESSIONS_CACHE_TTL_MS);
            match r {
                Err(e) => !served && discover.ensures((), Err(e)) && final(cache).cached() == old(cache).cached(),
                Ok(v) => exists|base: Seq<SessionInfo>, named: Seq<SessionInfo>| {
                    &&& if served {
                        old(cache).cached() == Some((views(project_dirs@), old(cache).cached()->Some_0.1, base))
                            && final(cache).cached() == old(cache).cached()
                    } else {
                        exists|d: Vec<SessionInfo>| #[trigger] discover.ensures((), Ok(d)) && d@ == base
                            && final(cache).cached() == Some((views(project_dirs@), now, base))
                    }
                    &&& names_joined(base, named, names@)
                    &&& match liveness {
                        Some(m) => liveness_joined(named, v@, m@),
                        None => v@ == named,
                    }
                },
            }
        }),
{
    let found = cache.get_or_discover(project_dirs, now, SESSIONS_CACHE_TTL_MS, discover);
    let mut sessions = match found {
        Ok(v) => v,
        Err(e) => return Err(e),
    };
    let ghost base = sessions@;
    apply_session_names(&mut sessions, names);
    let ghost named = sessions@;
    match liveness {
        Some(m) => apply_liveness_map(&mut sessions, m),
        None => {},
    }
    assert(names_joined(base, named, names@));
    Ok(sessions)
}

} // verus!
