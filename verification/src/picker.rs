use vstd::prelude::*;
use vstd::string::StringExecFns;
use crate::session::{Liveness, SessionInfo};
use crate::api::{answered, join_path, path_joined};
use crate::text::{chars_of, str_eq, string_from_chars};

verus! {

broadcast use vstd::seq_lib::group_to_multiset_ensures;

/// `sorted` with `s` placed after every session at least as recent as `s`.
pub open spec fn insert_by_time(sorted: Seq<SessionInfo>, s: SessionInfo) -> Seq<SessionInfo>
    decreases sorted.len(),
{
    if sorted.len() == 0 {
        seq![s]
    } else if sorted.last().mod_time >= s.mod_time {
        sorted.push(s)
    } else {
        insert_by_time(sorted.drop_last(), s).push(sorted.last())
    }
}

/// The sessions ordered newest first; sessions with the same modification
/// time keep their order (a stable sort by descending `mod_time`).
pub open spec fn newest_first(s: Seq<SessionInfo>) -> Seq<SessionInfo>
    decreases s.len(),
{
    if s.len() == 0 {
        s
    } else {
        insert_by_time(newest_first(s.drop_last()), s.last())
    }
}

/// Whether the sessions are ordered newest first.
pub open spec fn is_newest_first(s: Seq<SessionInfo>) -> bool {
    forall|i: int, j: int| 0 <= i < j < s.len() ==> s[i].mod_time >= s[j].mod_time
}

/// The sessions modified at time `t`, in order.
pub open spec fn modified_at(s: Seq<SessionInfo>, t: i64) -> Seq<SessionInfo> {
    s.filter(|x: SessionInfo| x.mod_time == t)
}

proof fn lemma_insert_at(sorted: Seq<SessionInfo>, s: SessionInfo, j: int)
    requires
        0 <= j <= sorted.len(),
        forall|k: int| j <= k < sorted.len() ==> sorted[k].mod_time < s.mod_time,
        j > 0 ==> sorted[j - 1].mod_time >= s.mod_time,
    ensures
        insert_by_time(sorted, s) == sorted.insert(j, s),
    decreases sorted.len(),
{
    if sorted.len() == 0 {
        assert(sorted.insert(j, s) =~= seq![s]);
    } else if sorted.last().mod_time >= s.mod_time {
        assert(j == sorted.len());
        assert(sorted.insert(j, s) =~= sorted.push(s));
    } else {
        lemma_insert_at(sorted.drop_last(), s, j);
        assert(sorted.drop_last().insert(j, s).push(sorted.last()) =~= sorted.insert(j, s));
    }
}

proof fn lemma_insert_keeps_order(sorted: Seq<SessionInfo>, s: SessionInfo)
    requires
        is_newest_first(sorted),
    ensures
        is_newest_first(insert_by_time(sorted, s)),
        insert_by_time(sorted, s).len() == sorted.len() + 1,
        forall|i: int| 0 <= i < insert_by_time(sorted, s).len() ==> (#[trigger] insert_by_time(sorted, s)[i] == s
            || sorted.contains(insert_by_time(sorted, s)[i])),
    decreases sorted.len(),
{
    if sorted.len() == 0 {
    } else if sorted.last().mod_time >= s.mod_time {
        let r = sorted.push(s);
        assert forall|i: int| 0 <= i < r.len() implies (#[trigger] r[i] == s || sorted.contains(r[i])) by {
            if i < sorted.len() {
                assert(r[i] == sorted[i]);
            }
        }
    } else {
        let d = sorted.drop_last();
        assert(is_newest_first(d));
        lemma_insert_keeps_order(d, s);
        let inner = insert_by_time(d, s);
        let r = inner.push(sorted.last());
        assert forall|i: int| 0 <= i < r.len() implies (#[trigger] r[i] == s || sorted.contains(r[i])) by {
            if i < inner.len() {
                if inner[i] != s {
                    let k = choose|k: int| 0 <= k < d.len() && d[k] == inner[i];
                    assert(sorted[k] == inner[i]);
                }
            } else {
                assert(sorted[sorted.len() - 1] == r[i]);
            }
        }
        assert forall|i: int, j: int| 0 <= i < j < r.len() implies r[i].mod_time >= r[j].mod_time by {
            if j == r.len() - 1 {
                if inner[i] == s {
                } else {
                    let k = choose|k: int| 0 <= k < d.len() && d[k] == inner[i];
                    assert(sorted[k] == inner[i]);
                }
            }
        }
    }
}

/// The newest-first order is ordered by descending modification time.
pub proof fn lemma_newest_first_ordered(s: Seq<SessionInfo>)
    ensures
        is_newest_first(newest_first(s)),
        newest_first(s).len() == s.len(),
    decreases s.len(),
{
    if s.len() > 0 {
        lemma_newest_first_ordered(s.drop_last());
        lemma_insert_keeps_order(newest_first(s.drop_last()), s.last());
    }
}

proof fn lemma_insert_multiset(sorted: Seq<SessionInfo>, s: SessionInfo)
    ensures
        insert_by_time(sorted, s).to_multiset() == sorted.to_multiset().insert(s),
    decreases sorted.len(),
{
    if sorted.len() == 0 {
        assert(seq![s] =~= Seq::<SessionInfo>::empty().push(s));
    } else if sorted.last().mod_time >= s.mod_time {
    } else {
        let d = sorted.drop_last();
        lemma_insert_multiset(d, s);
        assert(d.push(sorted.last()) =~= sorted);
        assert(insert_by_time(sorted, s).to_multiset() =~= sorted.to_multiset().insert(s));
    }
}

/// The newest-first order holds the same sessions, each as often.
pub proof fn lemma_newest_first_permutes(s: Seq<SessionInfo>)
    ensures
        newest_first(s).to_multiset() == s.to_multiset(),
    decreases s.len(),
{
    if s.len() > 0 {
        lemma_newest_first_permutes(s.drop_last());
        lemma_insert_multiset(newest_first(s.drop_last()), s.last());
        assert(s.drop_last().push(s.last()) =~= s);
    }
}

proof fn lemma_insert_modified_at(sorted: Seq<SessionInfo>, s: SessionInfo, t: i64)
    requires
        is_newest_first(sorted),
    ensures
        modified_at(insert_by_time(sorted, s), t) == if s.mod_time == t {
            modified_at(sorted, t).push(s)
        } else {
            modified_at(sorted, t)
        },
    decreases sorted.len(),
{
    reveal_with_fuel(Seq::filter, 2);
    if sorted.len() == 0 {
        assert(seq![s].drop_last() =~= Seq::<SessionInfo>::empty());
    } else if sorted.last().mod_time >= s.mod_time {
        assert(sorted.push(s).drop_last() =~= sorted);
    } else {
        let d = sorted.drop_last();
        assert(is_newest_first(d));
        lemma_insert_modified_at(d, s, t);
        let inner = insert_by_time(d, s);
        assert(inner.push(sorted.last()).drop_last() =~= inner);
        if s.mod_time == t {
            // every session kept before `s` with the same time stays before it
            assert(sorted.last().mod_time != t);
        }
    }
}

/// The newest-first order is stable: the sessions modified at any one time
/// come out in the order they went in.
pub proof fn lemma_newest_first_stable(s: Seq<SessionInfo>, t: i64)
    ensures
        modified_at(newest_first(s), t) == modified_at(s, t),
    decreases s.len(),
{
    reveal_with_fuel(Seq::filter, 2);
    if s.len() > 0 {
        lemma_newest_first_stable(s.drop_last(), t);
        lemma_newest_first_ordered(s.drop_last());
        lemma_insert_modified_at(newest_first(s.drop_last()), s.last(), t);
    }
}

/// Sessions already ordered newest first keep their order; in particular,
/// ordering twice gives what ordering once gives.
pub proof fn lemma_newest_first_keeps_ordered(s: Seq<SessionInfo>)
    ensures
        is_newest_first(s) ==> newest_first(s) == s,
        newest_first(newest_first(s)) == newest_first(s),
{
    if is_newest_first(s) {
        lemma_newest_first_keeps_ordered_base(s);
    }
    lemma_newest_first_ordered(s);
    lemma_newest_first_keeps_ordered_base(newest_first(s));
}

proof fn lemma_newest_first_keeps_ordered_base(s: Seq<SessionInfo>)
    requires
        is_newest_first(s),
    ensures
        newest_first(s) == s,
    decreases s.len(),
{
    if s.len() > 0 {
        let d = s.drop_last();
        assert(is_newest_first(d));
        lemma_newest_first_keeps_ordered_base(d);
        if d.len() > 0 {
            assert(d.last().mod_time >= s.last().mod_time);
        } else {
            assert(seq![s.last()] =~= s);
        }
        assert(d.push(s.last()) =~= s);
    }
}

/// Order the sessions newest first, keeping the order of sessions with the
/// same modification time.
pub fn sort_newest_first(sessions: Vec<SessionInfo>) -> (r: Vec<SessionInfo>)
    ensures
        r@ == newest_first(sessions@),
{
    let mut rest = sessions;
    let mut out: Vec<SessionInfo> = Vec::new();
    let ghost all = rest@;
    assert(all.len() == rest.len());
    let mut i: usize = 0;
    while rest.len() > 0
        invariant
            i as int + rest@.len() == all.len(),
            all.len() <= usize::MAX,
            rest@ == all.skip(i as int),
            out@ == newest_first(all.take(i as int)),
        decreases rest.len(),
    {
        let s = rest.remove(0);
        proof {
            lemma_newest_first_ordered(all.take(i as int));
        }
        let mut j = out.len();
        while j > 0 && out[j - 1].mod_time < s.mod_time
            invariant
                j <= out@.len(),
                forall|k: int| j <= k < out@.len() ==> out@[k].mod_time < s.mod_time,
            decreases j,
        {
            j = j - 1;
        }
        let ghost before = out@;
        proof {
            lemma_insert_at(before, s, j as int);
            assert(all.take(i + 1).drop_last() =~= all.take(i as int));
            assert(all.take(i + 1).last() == s);
        }
        out.insert(j, s);
        i = i + 1;
        assert(rest@ =~= all.skip(i as int));
    }
    assert(all.take(i as int) =~= all);
    out
}

/// Whether `s` ends with `suffix`.
pub open spec fn ends_with(s: Seq<char>, suffix: Seq<char>) -> bool {
    suffix.len() <= s.len() && s.skip(s.len() - suffix.len()) == suffix
}

/// `s` with every trailing repetition of a non-empty `suffix` removed
/// (`str::trim_end_matches`).
pub open spec fn trim_suffixes(s: Seq<char>, suffix: Seq<char>) -> Seq<char>
    decreases s.len(),
{
    if suffix.len() > 0 && ends_with(s, suffix) {
        trim_suffixes(s.take(s.len() - suffix.len()), suffix)
    } else {
        s
    }
}

/// Whether a directory entry name names a session transcript: a `.jsonl`
/// file that is not an `agent_` file.
pub open spec fn is_session_file_name(name: Seq<char>) -> bool {
    ends_with(name, ".jsonl"@) && !(name.len() >= 6 && name.take(6) == "agent_"@)
}

fn chars_end_with(v: &Vec<char>, suffix: &Vec<char>) -> (r: bool)
    ensures
        r == ends_with(v@, suffix@),
{
    if suffix.len() > v.len() {
        return false;
    }
    let off = v.len() - suffix.len();
    let mut i: usize = 0;
    while i < suffix.len()
        invariant
            off + suffix@.len() == v@.len(),
            i <= suffix@.len(),
            forall|k: int| 0 <= k < i ==> v@[off + k] == suffix@[k],
        decreases suffix.len() - i,
    {
        assert(off + i < v.len());
        if v[off + i] != suffix[i] {
            assert(v@.skip(off as int)[i as int] != suffix@[i as int]);
            return false;
        }
        i = i + 1;
    }
    assert(v@.skip(off as int) =~= suffix@);
    true
}

/// Whether a directory entry name names a session transcript (`*.jsonl`, not
/// `agent_*`).
pub fn session_file_name(name: &str) -> (r: bool)
    ensures
        r == is_session_file_name(name@),
{
    let v = chars_of(name);
    let jsonl = chars_of(".jsonl");
    let agent = chars_of("agent_");
    proof {
        reveal_strlit(".jsonl");
        reveal_strlit("agent_");
    }
    if !chars_end_with(&v, &jsonl) {
        return false;
    }
    if v.len() >= 6 {
        let mut i: usize = 0;
        while i < 6
            invariant
                i <= 6,
                v@.len() >= 6,
                v@ == name@,
                ends_with(name@, ".jsonl"@),
                agent@ == "agent_"@,
                agent@.len() == 6,
                forall|k: int| 0 <= k < i ==> v@[k] == agent@[k],
            decreases 6 - i,
        {
            if v[i] != agent[i] {
                assert(v@.take(6)[i as int] != agent@[i as int]);
                return true;
            }
            i = i + 1;
        }
        assert(v@.take(6) =~= agent@);
        false
    } else {
        true
    }
}

/// `s` with every trailing `.jsonl` removed.
pub fn trim_jsonl_suffixes(s: &str) -> (r: String)
    ensures
        r@ == trim_suffixes(s@, ".jsonl"@),
{
    let mut v = chars_of(s);
    let suffix = chars_of(".jsonl");
    proof {
        reveal_strlit(".jsonl");
    }
    while chars_end_with(&v, &suffix)
        invariant
            suffix@ == ".jsonl"@,
            suffix@.len() == 6,
            trim_suffixes(v@, ".jsonl"@) == trim_suffixes(s@, ".jsonl"@),
        decreases v@.len(),
    {
        let ghost before = v@;
        let keep = v.len() - suffix.len();
        v.truncate(keep);
        assert(v@ =~= before.take(before.len() - 6));
    }
    string_from_chars(v.as_slice())
}

/// The final component of a path as `std::path::Path::file_name` gives it,
/// when there is one and it is valid UTF-8.
pub uninterp spec fn path_file_name(path: Seq<char>) -> Option<Seq<char>>;

/// Calls `std::path::Path::file_name` on `path` and reads the name as UTF-8
/// (`OsStr::to_str`). Claimed: the result is a function of the path's text
/// alone, named [`path_file_name`]; which component that is (trailing
/// separators, `.` and `..`) is not stated.
#[verifier::external_body]
fn file_name_of(path: &str) -> (r: Option<String>)
    ensures
        match r {
            Some(n) => path_file_name(path@) == Some(n@),
            None => path_file_name(path@) is None,
        },
{
    std::path::Path::new(path).file_name().and_then(|n| n.to_str()).map(|n| n.to_string())
}

/// The session id of a transcript path: its file name without the trailing
/// `.jsonl` (every repetition of it), or the empty text when the path has no
/// file name.
pub open spec fn session_id_of(path: Seq<char>) -> Seq<char> {
    match path_file_name(path) {
        Some(n) => trim_suffixes(n, ".jsonl"@),
        None => trim_suffixes(Seq::empty(), ".jsonl"@),
    }
}

/// The session id of a transcript path.
pub fn session_id_from_path(path: &str) -> (r: String)
    ensures
        r@ == session_id_of(path@),
{
    match file_name_of(path) {
        Some(n) => trim_jsonl_suffixes(n.as_str()),
        None => {
            proof {
                reveal_strlit("");
            }
            trim_jsonl_suffixes("")
        },
    }
}

/// The separator of path components on this platform
/// (`std::path::MAIN_SEPARATOR`): `/` on Unix, `\\` on Windows, as its
/// documentation says.
#[verifier::external_body]
fn main_separator() -> (c: char)
    ensures
        c == '/' || c == '\\',
{
    std::path::MAIN_SEPARATOR
}

/// The character `c` in an encoded project path: `-` for a path separator
/// (`sep` or `/`), a `.` or a `_`.
pub open spec fn encoded_char(c: char, sep: char) -> char {
    if c == sep || c == '/' || c == '.' || c == '_' { '-' } else { c }
}

/// The directory name under which the coding agent keeps the transcripts of the
/// project at `path`, with `sep` the platform's path separator.
pub open spec fn encoded_path(path: Seq<char>, sep: char) -> Seq<char> {
    path.map_values(|c: char| encoded_char(c, sep))
}

/// The directory name under which the coding agent keeps the transcripts of the
/// project at `abs_path`: path separators, `.` and `_` become `-`.
pub fn encode_path(abs_path: &str) -> (r: String)
    ensures
        exists|sep: char| (sep == '/' || sep == '\\') && r@ == encoded_path(abs_path@, sep),
{
    let sep = main_separator();
    let v = chars_of(abs_path);
    let mut out: Vec<char> = Vec::new();
    let mut i: usize = 0;
    while i < v.len()
        invariant
            i <= v@.len(),
            out@ == encoded_path(v@.take(i as int), sep),
        decreases v.len() - i,
    {
        let c = v[i];
        let e = if c == sep || c == '/' || c == '.' || c == '_' { '-' } else { c };
        out.push(e);
        i = i + 1;
        assert(out@ =~= encoded_path(v@.take(i as int), sep));
    }
    assert(v@.take(v@.len() as int) =~= v@);
    string_from_chars(out.as_slice())
}

/// The sessions that the per-directory results hold, directory by
/// directory; directories that could not be read are skipped.
pub open spec fn gathered(found: Seq<Result<Vec<SessionInfo>, String>>) -> Seq<SessionInfo>
    decreases found.len(),
{
    if found.len() == 0 {
        Seq::empty()
    } else {
        match found.last() {
            Ok(v) => gathered(found.drop_last()) + v@,
            Err(_) => gathered(found.drop_last()),
        }
    }
}

/// Whether `found` holds, directory by directory, what `discover` gave.
pub open spec fn discovered_by<F: Fn(&str) -> Result<Vec<SessionInfo>, String>>(
    discover: F,
    dirs: Seq<String>,
    found: Seq<Result<Vec<SessionInfo>, String>>,
) -> bool {
    &&& found.len() == dirs.len()
    &&& forall|i: int| 0 <= i < dirs.len() ==> #[trigger] discovered_in(discover, dirs[i]@, found[i])
}

/// Whether `res` is what `discover` gave for the directory `dir`.
pub open spec fn discovered_in<F: Fn(&str) -> Result<Vec<SessionInfo>, String>>(
    discover: F,
    dir: Seq<char>,
    res: Result<Vec<SessionInfo>, String>,
) -> bool {
    exists|d: &str| d@ == dir && call_ensures(discover, (d,), res)
}

/// Discover sessions across several project directories with
/// `discover_project_sessions`: the sessions of every directory it could read,
/// newest first.
pub fn discover_all_project_sessions<F: Fn(&str) -> Result<Vec<SessionInfo>, String>>(
    project_dirs: &[String],
    discover_project_sessions: &F,
) -> (r: Result<Vec<SessionInfo>, String>)
    requires
        forall|d: &str| call_requires(*discover_project_sessions, (d,)),
    ensures
        exists|found: Seq<Result<Vec<SessionInfo>, String>>|
            discovered_by(*discover_project_sessions, project_dirs@, found)
            && (r matches Ok(v) && v@ == newest_first(gathered(found))),
{
    let mut all: Vec<SessionInfo> = Vec::new();
    let ghost mut found: Seq<Result<Vec<SessionInfo>, String>> = Seq::empty();
    let mut i: usize = 0;
    while i < project_dirs.len()
        invariant
            i <= project_dirs@.len(),
            forall|d: &str| call_requires(*discover_project_sessions, (d,)),
            discovered_by(*discover_project_sessions, project_dirs@.take(i as int), found),
            all@ == gathered(found),
        decreases project_dirs.len() - i,
    {
        let dir = project_dirs[i].as_str();
        let res = discover_project_sessions(dir);
        proof {
            let next = found.push(res);
            assert(next.drop_last() =~= found);
            assert(discovered_in(*discover_project_sessions, dir@, res));
            assert forall|k: int| 0 <= k < i + 1 implies
                #[trigger] discovered_in(*discover_project_sessions, project_dirs@.take(i + 1)[k]@, next[k]) by {
                if k < i {
                    assert(project_dirs@.take(i + 1)[k] == project_dirs@.take(i as int)[k]);
                } else {
                    assert(project_dirs@.take(i + 1)[k] == project_dirs@[i as int]);
                }
            }
            found = next;
        }
        match res {
            Ok(mut v) => {
                all.append(&mut v);
            },
            Err(_) => {},
        }
        i = i + 1;
    }
    assert(project_dirs@.take(project_dirs@.len() as int) =~= project_dirs@);
    Ok(sort_newest_first(all))
}

/// What a scan of one transcript yields.
pub struct SessionMetadata {
    pub first_msg: String,
    pub turn_count: i32,
    pub is_ongoing: bool,
    pub total_tokens: i64,
    pub input_tokens: i64,
    pub output_tokens: i64,
    pub cache_read_tokens: i64,
    pub cache_creation_tokens: i64,
    /// Context-window occupancy of the last complete main-context turn.
    pub context_tokens: i64,
    /// Estimated cost in US dollars, held as the bit pattern of its `f64` value.
    pub cost_usd_bits: u64,
    pub duration_ms: i64,
    pub model: String,
    pub cwd: String,
    pub git_branch: String,
    pub permission_mode: String,
    pub recap: Option<String>,
    /// Turn count at which `recap` was written.
    pub recap_turn: i32,
}

impl Default for SessionMetadata {
    fn default() -> (r: SessionMetadata)
        ensures
            r.first_msg@.len() == 0,
            r.turn_count == 0,
            !r.is_ongoing,
            r.total_tokens == 0,
            r.input_tokens == 0,
            r.output_tokens == 0,
            r.cache_read_tokens == 0,
            r.cache_creation_tokens == 0,
            r.context_tokens == 0,
            r.cost_usd_bits == 0,
            r.duration_ms == 0,
            r.model@.len() == 0,
            r.cwd@.len() == 0,
            r.git_branch@.len() == 0,
            r.permission_mode@.len() == 0,
            r.recap is None,
            r.recap_turn == 0,
    {
        SessionMetadata {
            first_msg: String::new(),
            turn_count: 0,
            is_ongoing: false,
            total_tokens: 0,
            input_tokens: 0,
            output_tokens: 0,
            cache_read_tokens: 0,
            cache_creation_tokens: 0,
            context_tokens: 0,
            cost_usd_bits: 0,
            duration_ms: 0,
            model: String::new(),
            cwd: String::new(),
            git_branch: String::new(),
            permission_mode: String::new(),
            recap: None,
            recap_turn: 0,
        }
    }
}

/// Whether `ongoing` is what the picker shows for a scan that found
/// `scanned` ongoing: true when `apply_staleness` keeps it so for the
/// modification time, otherwise what `has_recently_active_subagents` gives for
/// the path.
pub open spec fn ongoing_decided<S: FnOnce(bool, i64) -> bool, A: FnOnce(&str) -> bool>(
    apply_staleness: S,
    has_recently_active_subagents: A,
    scanned: bool,
    mod_time: i64,
    path: Seq<char>,
    ongoing: bool,
) -> bool {
    exists|still: bool|
        call_ensures(apply_staleness, (scanned, mod_time), still)
        && if still { ongoing } else { active_for(has_recently_active_subagents, path, ongoing) }
}

/// Whether `active` is what `has_recently_active_subagents` gave for the path.
pub open spec fn active_for<A: FnOnce(&str) -> bool>(has_recently_active_subagents: A, path: Seq<char>, active: bool) -> bool {
    exists|p: &str| p@ == path && call_ensures(has_recently_active_subagents, (p,), active)
}

/// The picker's record of the transcript at `path`, modified at `mod_time`
/// (nanoseconds since the Unix epoch), from its scan. The session is shown
/// ongoing when the scan says so and `apply_staleness` keeps it so for the
/// modification time, or else when `has_recently_active_subagents` finds a
/// recently active subagent of it; the session id is the file name without
/// `.jsonl`. Name and liveness are left empty.
pub fn session_info_from_metadata<S: FnOnce(bool, i64) -> bool, A: FnOnce(&str) -> bool>(
    path: &str,
    mod_time: i64,
    meta: SessionMetadata,
    apply_staleness: S,
    has_recently_active_subagents: A,
) -> (r: SessionInfo)
    requires
        call_requires(apply_staleness, (meta.is_ongoing, mod_time)),
        forall|p: &str| call_requires(has_recently_active_subagents, (p,)),
    ensures
        ongoing_decided(apply_staleness, has_recently_active_subagents, meta.is_ongoing, mod_time, path@, r.is_ongoing),
        r.path@ == path@,
        r.session_id@ == session_id_of(path@),
        r.mod_time == mod_time,
        r.first_message == meta.first_msg,
        r.recap == meta.recap,
        r.recap_turn == meta.recap_turn,
        r.name is None,
        r.liveness is None,
        r.turn_count == meta.turn_count,
        r.total_tokens == meta.total_tokens,
        r.input_tokens == meta.input_tokens,
        r.output_tokens == meta.output_tokens,
        r.cache_read_tokens == meta.cache_read_tokens,
        r.cache_creation_tokens == meta.cache_creation_tokens,
        r.context_tokens == meta.context_tokens,
        r.cost_usd_bits == meta.cost_usd_bits,
        r.duration_ms == meta.duration_ms,
        r.model == meta.model,
        r.cwd == meta.cwd,
        r.git_branch == meta.git_branch,
        r.permission_mode == meta.permission_mode,
{
    let still = apply_staleness(meta.is_ongoing, mod_time);
    let is_ongoing = if still {
        assert(ongoing_decided(apply_staleness, has_recently_active_subagents, meta.is_ongoing, mod_time, path@, true));
        true
    } else {
        let active = has_recently_active_subagents(path);
        assert(active_for(has_recently_active_subagents, path@, active));
        assert(ongoing_decided(apply_staleness, has_recently_active_subagents, meta.is_ongoing, mod_time, path@, active));
        active
    };
    let session_id = session_id_from_path(path);
    let SessionMetadata {
        first_msg,
        turn_count,
        is_ongoing: _,
        total_tokens,
        input_tokens,
        output_tokens,
        cache_read_tokens,
        cache_creation_tokens,
        context_tokens,
        cost_usd_bits,
        duration_ms,
        model,
        cwd,
        git_branch,
        permission_mode,
        recap,
        recap_turn,
    } = meta;
    SessionInfo {
        path: String::from_str(path),
        session_id,
        mod_time,
        first_message: first_msg,
        recap,
        recap_turn,
        name: None,
        liveness: None,
        turn_count,
        is_ongoing,
        total_tokens,
        input_tokens,
        output_tokens,
        cache_read_tokens,
        cache_creation_tokens,
        context_tokens,
        cost_usd_bits,
        duration_ms,
        model,
        cwd,
        git_branch,
        permission_mode,
    }
}

/// The directory that holds the per-project transcript directories: the
/// configured path when it exists, else the `CLAUDE_PROJECTS_DIR` path
/// (`env_dir`) when it exists, else `projects` in the agent's own directory
/// (`agent_dir`); an error when that directory is unknown. `path_exists` says
/// which paths exist.
pub fn claude_projects_dir<E: Fn(&str) -> bool>(
    configured: Option<&str>,
    env_dir: Option<&str>,
    agent_dir: Option<&str>,
    path_exists: &E,
) -> (r: Result<String, String>)
    requires
        forall|p: &str| call_requires(*path_exists, (p,)),
    ensures
        ({
            let configured_ok = configured matches Some(d) && answered(*path_exists, d@, true);
            let env_ok = env_dir matches Some(d) && answered(*path_exists, d@, true);
            let configured_missing = configured matches Some(d) ==> answered(*path_exists, d@, false);
            let env_missing = env_dir matches Some(d) ==> answered(*path_exists, d@, false);
            ||| (configured_ok && (r matches Ok(p) && p@ == configured->0@))
            ||| (configured_missing && env_ok && (r matches Ok(p) && p@ == env_dir->0@))
            ||| (configured_missing && env_missing && match agent_dir {
                Some(a) => r matches Ok(p) && p@ == path_joined(a@, "projects"@),
                None => r matches Err(e) && e@ == "no home directory"@,
            })
        }),
{
    if let Some(d) = configured {
        let there = path_exists(d);
        assert(answered(*path_exists, d@, there));
        if there {
            return Ok(String::from_str(d));
        }
    }
    if let Some(c) = env_dir {
        let there = path_exists(c);
        assert(answered(*path_exists, c@, there));
        if there {
            return Ok(String::from_str(c));
        }
    }
    match agent_dir {
        Some(a) => Ok(join_path(a, "projects")),
        None => Err(String::from_str("no home directory")),
    }
}

/// The transcript directory of the project at `resolved_path` (its
/// canonical form) under the projects directory `projects_dir`.
pub fn project_dir_for_path(projects_dir: &str, resolved_path: &str) -> (r: String)
    ensures
        exists|sep: char| (sep == '/' || sep == '\\') && r@ == path_joined(projects_dir@, encoded_path(resolved_path@, sep)),
{
    let encoded = encode_path(resolved_path);
    join_path(projects_dir, encoded.as_str())
}

/// A directory entry of a project directory, as the discovery reads it.
pub struct ProjectFile {
    /// The entry's file name.
    pub name: String,
    /// The entry's full path.
    pub path: String,
    /// Whether the entry is a directory (also when its type could not be read).
    pub is_dir: bool,
    /// Last modification time, in nanoseconds since the Unix epoch.
    pub mod_time: i64,
    /// Size in bytes.
    pub size: u64,
}

/// Whether the entry is a session transcript file.
pub open spec fn is_session_entry(f: ProjectFile) -> bool {
    is_session_file_name(f.name@) && !f.is_dir
}

/// Whether `found` is what `scan` gave for the entry.
pub open spec fn scanned<F: Fn(&str, i64, u64) -> Option<SessionInfo>>(scan: F, f: ProjectFile, found: Option<SessionInfo>) -> bool {
    exists|p: &str| p@ == f.path@ && call_ensures(scan, (p, f.mod_time, f.size), found)
}

/// The sessions that the scans found, in directory order; `found[i]` is the
/// scan of entry `i`, and entries that are not transcripts are left out.
pub open spec fn found_sessions(files: Seq<ProjectFile>, found: Seq<Option<SessionInfo>>) -> Seq<SessionInfo>
    decreases files.len(),
{
    if files.len() == 0 {
        Seq::empty()
    } else {
        let prev = found_sessions(files.drop_last(), found);
        if is_session_entry(files.last()) && found[files.len() - 1] is Some {
            prev.push(found[files.len() - 1]->0)
        } else {
            prev
        }
    }
}

proof fn lemma_found_sessions_prefix(files: Seq<ProjectFile>, a: Seq<Option<SessionInfo>>, b: Seq<Option<SessionInfo>>)
    requires
        a.len() >= files.len(),
        b.len() >= files.len(),
        forall|i: int| 0 <= i < files.len() ==> a[i] == b[i],
    ensures
        found_sessions(files, a) == found_sessions(files, b),
    decreases files.len(),
{
    if files.len() > 0 {
        lemma_found_sessions_prefix(files.drop_last(), a, b);
    }
}

/// The sessions of a project directory, given its entries: every transcript
/// file (`*.jsonl`, not `agent_*`, not a directory) is handed to `scan` with
/// its path, modification time and size, and the sessions it returns are
/// ordered newest first.
pub fn discover_project_sessions_with_scan<F: Fn(&str, i64, u64) -> Option<SessionInfo>>(
    files: &[ProjectFile],
    scan: &F,
) -> (r: Vec<SessionInfo>)
    requires
        forall|p: &str, t: i64, n: u64| call_requires(*scan, (p, t, n)),
    ensures
        exists|found: Seq<Option<SessionInfo>>|
            found.len() == files@.len()
            && (forall|i: int| 0 <= i < files@.len() && is_session_entry(#[trigger] files@[i]) ==> scanned(*scan, files@[i], found[i]))
            && r@ == newest_first(found_sessions(files@, found)),
{
    let mut sessions: Vec<SessionInfo> = Vec::new();
    let ghost mut found: Seq<Option<SessionInfo>> = Seq::empty();
    let mut i: usize = 0;
    while i < files.len()
        invariant
            i <= files@.len(),
            forall|p: &str, t: i64, n: u64| call_requires(*scan, (p, t, n)),
            found.len() == i,
            forall|k: int| 0 <= k < i && is_session_entry(#[trigger] files@[k]) ==> scanned(*scan, files@[k], found[k]),
            sessions@ == found_sessions(files@.take(i as int), found),
        decreases files.len() - i,
    {
        let f = &files[i];
        let ghost prefix = files@.take(i as int);
        assert(files@.take(i + 1).drop_last() =~= prefix);
        assert(files@.take(i + 1).last() == *f);
        let mut got: Option<SessionInfo> = None;
        if session_file_name(f.name.as_str()) && !f.is_dir {
            got = scan(f.path.as_str(), f.mod_time, f.size);
            assert(scanned(*scan, *f, got));
            match &got {
                Some(s) => sessions.push(s.duplicate()),
                None => {},
            }
        }
        proof {
            let next = found.push(got);
            lemma_found_sessions_prefix(prefix, found, next);
            found = next;
        }
        i = i + 1;
    }
    assert(files@.take(files@.len() as int) =~= files@);
    sort_newest_first(sessions)
}

} // verus!
