use vstd::prelude::*;
use crate::strmap::{Duplicate, StrMap};
use crate::text::str_eq;

verus! {

/// A copy of an optional string.
pub fn dup_opt_string(o: &Option<String>) -> (r: Option<String>)
    ensures
        r == *o,
{
    match o {
        Some(s) => Some(s.clone()),
        None => None,
    }
}

/// Liveness of a running session, from the running-session registry,
/// confirmed against a live `pid`. `status` is kept as the raw registry token
/// (`"busy"`, `"idle"`, ...).
pub struct Liveness {
    pub status: String,
    /// `now - statusUpdatedAt`, in whole seconds, clamped to at least 0.
    pub idle_seconds: i64,
    pub pid: i64,
}

/// What a [`Liveness`] holds, as plain values.
pub struct LivenessView {
    pub status: Seq<char>,
    pub idle_seconds: i64,
    pub pid: i64,
}

impl View for Liveness {
    type V = LivenessView;

    open spec fn view(&self) -> LivenessView {
        LivenessView { status: self.status@, idle_seconds: self.idle_seconds, pid: self.pid }
    }
}

impl Duplicate for Liveness {
    fn duplicate(&self) -> (r: Liveness) {
        Liveness { status: self.status.clone(), idle_seconds: self.idle_seconds, pid: self.pid }
    }
}

/// A copy of an optional liveness.
pub fn dup_opt_liveness(o: &Option<Liveness>) -> (r: Option<Liveness>)
    ensures
        r == *o,
{
    match o {
        Some(l) => Some(l.duplicate()),
        None => None,
    }
}

/// Metadata of one session transcript, as shown in the session picker.
pub struct SessionInfo {
    pub path: String,
    pub session_id: String,
    /// Last modification time, in nanoseconds since the Unix epoch (UTC).
    pub mod_time: i64,
    pub first_message: String,
    /// The coding agent's end-of-session recap, when it is the latest entry.
    pub recap: Option<String>,
    /// Turn count at which `recap` was written.
    pub recap_turn: i32,
    /// User-assigned session name (`/rename`), from the running-session registry.
    pub name: Option<String>,
    /// Liveness from the running-session registry, when the session is running.
    pub liveness: Option<Liveness>,
    pub turn_count: i32,
    pub is_ongoing: bool,
    pub total_tokens: i64,
    pub input_tokens: i64,
    pub output_tokens: i64,
    pub cache_read_tokens: i64,
    pub cache_creation_tokens: i64,
    /// Context-window occupancy of the last complete main-context turn.
    pub context_tokens: i64,
    /// Estimated cost in US dollars, held as the bit pattern of its `f64` value.
    pub cost_usd_bits: u64,
    pub duration_ms: i64,
    pub model: String,
    pub cwd: String,
    pub git_branch: String,
    pub permission_mode: String,
}

impl SessionInfo {
    /// The same session with `name` cleared.
    pub open spec fn without_name(self) -> SessionInfo {
        SessionInfo { name: None, ..self }
    }

    /// The same session with `liveness` cleared.
    pub open spec fn without_liveness(self) -> SessionInfo {
        SessionInfo { liveness: None, ..self }
    }

    /// The same session with `is_ongoing` cleared.
    pub open spec fn without_ongoing(self) -> SessionInfo {
        SessionInfo { is_ongoing: false, ..self }
    }

    /// A copy equal to this session.
    pub fn duplicate(&self) -> (r: SessionInfo)
        ensures
            r == *self,
    {
        SessionInfo {
            path: self.path.clone(),
            session_id: self.session_id.clone(),
            mod_time: self.mod_time,
            first_message: self.first_message.clone(),
            recap: dup_opt_string(&self.recap),
            recap_turn: self.recap_turn,
            name: dup_opt_string(&self.name),
            liveness: dup_opt_liveness(&self.liveness),
            turn_count: self.turn_count,
            is_ongoing: self.is_ongoing,
            total_tokens: self.total_tokens,
            input_tokens: self.input_tokens,
            output_tokens: self.output_tokens,
            cache_read_tokens: self.cache_read_tokens,
            cache_creation_tokens: self.cache_creation_tokens,
            context_tokens: self.context_tokens,
            cost_usd_bits: self.cost_usd_bits,
            duration_ms: self.duration_ms,
            model: self.model.clone(),
            cwd: self.cwd.clone(),
            git_branch: self.git_branch.clone(),
            permission_mode: self.permission_mode.clone(),
        }
    }
}

/// Whether `after` is `before` with the names of `names` joined on the
/// session id; sessions absent from the map keep their name.
pub open spec fn names_joined(before: Seq<SessionInfo>, after: Seq<SessionInfo>, names: Map<Seq<char>, Seq<char>>) -> bool {
    &&& after.len() == before.len()
    &&& forall|i: int|
        0 <= i < before.len() ==> {
            &&& #[trigger] after[i].without_name() == before[i].without_name()
            &&& if names.dom().contains(before[i].session_id@) {
                after[i].name matches Some(n) && n@ == names[before[i].session_id@]
            } else {
                after[i].name == before[i].name
            }
        }
}

/// Whether `after` is `before` with the liveness of `map` joined on the
/// session id; sessions absent from the map keep their liveness.
pub open spec fn liveness_joined(before: Seq<SessionInfo>, after: Seq<SessionInfo>, map: Map<Seq<char>, LivenessView>) -> bool {
    &&& after.len() == before.len()
    &&& forall|i: int|
        0 <= i < before.len() ==> {
            &&& #[trigger] after[i].without_liveness() == before[i].without_liveness()
            &&& if map.dom().contains(before[i].session_id@) {
                after[i].liveness matches Some(l) && l@ == map[before[i].session_id@]
            } else {
                after[i].liveness == before[i].liveness
            }
        }
}

/// Fill in `name` from a `session_id -> name` map. Sessions absent from the map
/// keep the name they had.
pub fn apply_session_names(sessions: &mut Vec<SessionInfo>, names: &StrMap<String>)
    ensures
        names_joined(old(sessions)@, final(sessions)@, names@),
{
    let ghost before = sessions@;
    let mut i: usize = 0;
    while i < sessions.len()
        invariant
            i <= sessions@.len(),
            sessions@.len() == before.len(),
            forall|k: int| i <= k < before.len() ==> sessions@[k] == before[k],
            forall|k: int|
                0 <= k < i ==> {
                    &&& #[trigger] sessions@[k].without_name() == before[k].without_name()
                    &&& if names@.dom().contains(before[k].session_id@) {
                        sessions@[k].name matches Some(n) && n@ == names@[before[k].session_id@]
                    } else {
                        sessions@[k].name == before[k].name
                    }
                },
        decreases sessions.len() - i,
    {
        let found = names.get(sessions[i].session_id.as_str());
        match found {
            Some(n) => {
                let mut s = sessions[i].duplicate();
                s.name = Some(n.clone());
                sessions.set(i, s);
            },
            None => {},
        }
        i = i + 1;
    }
}

/// Fill in `liveness` from a precomputed `session_id -> liveness` map.
/// Sessions absent from the map keep the liveness they had.
pub fn apply_liveness_map(sessions: &mut Vec<SessionInfo>, map: &StrMap<Liveness>)
    ensures
        liveness_joined(old(sessions)@, final(sessions)@, map@),
{
    let ghost before = sessions@;
    let mut i: usize = 0;
    while i < sessions.len()
        invariant
            i <= sessions@.len(),
            sessions@.len() == before.len(),
            forall|k: int| i <= k < before.len() ==> sessions@[k] == before[k],
            forall|k: int|
                0 <= k < i ==> {
                    &&& #[trigger] sessions@[k].without_liveness() == before[k].without_liveness()
                    &&& if map@.dom().contains(before[k].session_id@) {
                        sessions@[k].liveness matches Some(l) && l@ == map@[before[k].session_id@]
                    } else {
                        sessions@[k].liveness == before[k].liveness
                    }
                },
        decreases sessions.len() - i,
    {
        let found = map.get(sessions[i].session_id.as_str());
        match found {
            Some(l) => {
                let mut s = sessions[i].duplicate();
                s.liveness = Some(l.duplicate());
                sessions.set(i, s);
            },
            None => {},
        }
        i = i + 1;
    }
}

/// The first index whose session has the path `p`.
pub open spec fn first_with_path(sessions: Seq<SessionInfo>, p: Seq<char>, n: int) -> Option<int>
    decreases sessions.len() - n,
{
    if n < 0 || n >= sessions.len() {
        None
    } else if sessions[n].path@ == p {
        Some(n)
    } else {
        first_with_path(sessions, p, n + 1)
    }
}

/// Apply the session watcher's verdict `(path, is_ongoing)` for the watched
/// session: the first session with that path takes the watcher's ongoing
/// status; every other session is unchanged. With no watched session nothing
/// changes.
pub fn apply_watched_ongoing(sessions: &mut Vec<SessionInfo>, watched: &Option<(String, bool)>)
    ensures
        final(sessions)@.len() == old(sessions)@.len(),
        match watched {
            None => final(sessions)@ == old(sessions)@,
            Some((p, ongoing)) => match first_with_path(old(sessions)@, p@, 0) {
                None => final(sessions)@ == old(sessions)@,
                Some(j) => {
                    &&& final(sessions)@[j].is_ongoing == *ongoing
                    &&& final(sessions)@[j].without_ongoing() == old(sessions)@[j].without_ongoing()
                    &&& forall|k: int| 0 <= k < old(sessions)@.len() && k != j ==> final(sessions)@[k] == old(sessions)@[k]
                },
            },
        },
{
    let ghost before = sessions@;
    if let Some((p, ongoing)) = watched {
        let mut i: usize = 0;
        let mut done = false;
        while i < sessions.len() && !done
            invariant
                i <= sessions@.len(),
                sessions@.len() == before.len(),
                !done ==> sessions@ == before,
                !done ==> first_with_path(before, p@, 0) == first_with_path(before, p@, i as int),
                done ==> match first_with_path(before, p@, 0) {
                    None => false,
                    Some(j) => {
                        &&& sessions@[j].is_ongoing == *ongoing
                        &&& sessions@[j].without_ongoing() == before[j].without_ongoing()
                        &&& forall|k: int| 0 <= k < before.len() && k != j ==> sessions@[k] == before[k]
                    },
                },
            decreases sessions.len() - i + (if done { 0int } else { 1int }),
        {
            if str_eq(sessions[i].path.as_str(), p.as_str()) {
                let mut s = sessions[i].duplicate();
                s.is_ongoing = *ongoing;
                sessions.set(i, s);
                done = true;
            } else {
                i = i + 1;
            }
        }
    }
}

} // verus!
