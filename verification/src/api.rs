use vstd::prelude::*;
use vstd::string::StringExecFns;
use crate::text::views;

verus! {

/// An error answer of the HTTP API: its status code and message.
#[derive(Debug)]
pub struct ApiError {
    pub status: u16,
    pub message: String,
}

/// An instant in UTC: whole seconds since the Unix epoch and the nanoseconds
/// within that second.
#[derive(Debug)]
pub struct UtcInstant {
    pub secs: i64,
    pub nanos: u32,
}

/// What a request for a session by id resolves to: the transcript to load and
/// the optional time window.
#[derive(Debug)]
pub struct SessionByIdRequest {
    pub path: String,
    pub since: Option<UtcInstant>,
    pub before: Option<UtcInstant>,
}

/// The instant, as `(seconds, nanoseconds)`, that
/// `str::parse::<chrono::DateTime<chrono::Utc>>` reads from `text`, or `None`
/// when the text is not such a timestamp.
pub uninterp spec fn parsed_utc(text: Seq<char>) -> Option<(i64, u32)>;

/// Calls `str::parse::<chrono::DateTime<chrono::Utc>>` and reads the instant
/// back with `timestamp` and `timestamp_subsec_nanos`. Claimed: the result is a
/// function of the text alone, named [`parsed_utc`]; which texts parse (the
/// RFC 3339 grammar that chrono accepts) is not stated.
#[verifier::external_body]
fn parse_utc(text: &str) -> (r: Option<(i64, u32)>)
    ensures
        r == parsed_utc(text@),
{
    match text.parse::<chrono::DateTime<chrono::Utc>>() {
        Ok(dt) => Some((dt.timestamp(), dt.timestamp_subsec_nanos())),
        Err(_) => None,
    }
}

/// The path that `std::path::Path::new(dir).join(name)` gives, as text.
pub uninterp spec fn path_joined(dir: Seq<char>, name: Seq<char>) -> Seq<char>;

/// Calls `std::path::Path::join` and reads the result back as text
/// (`to_string_lossy`). Claimed: the result is a function of the two texts
/// alone, named [`path_joined`]; how the parts are joined (separators,
/// absolute names) is not stated.
#[verifier::external_body]
pub(crate) fn join_path(dir: &str, name: &str) -> (r: String)
    ensures
        r@ == path_joined(dir@, name@),
{
    std::path::Path::new(dir).join(name).to_string_lossy().to_string()
}

/// A timestamp given in a request, read as a UTC instant.
pub fn parse_utc_instant(text: &str) -> (r: Option<UtcInstant>)
    ensures
        match parsed_utc(text@) {
            Some((s, n)) => r matches Some(i) && i.secs == s && i.nanos == n,
            None => r is None,
        },
{
    match parse_utc(text) {
        Some((secs, nanos)) => Some(UtcInstant { secs, nanos }),
        None => None,
    }
}

/// Whether `probe` answered `a` when asked about the path `path`.
pub open spec fn answered<F: Fn(&str) -> bool>(probe: F, path: Seq<char>, a: bool) -> bool {
    exists|p: &str| p@ == path && call_ensures(probe, (p,), a)
}

/// Whether searching `dirs` for the file `name` with `probe` found it first
/// in directory `found` (`None`: in none of them).
pub open spec fn search_outcome<F: Fn(&str) -> bool>(
    probe: F,
    dirs: Seq<Seq<char>>,
    name: Seq<char>,
    found: Option<int>,
) -> bool {
    match found {
        Some(k) => {
            &&& 0 <= k < dirs.len()
            &&& answered(probe, path_joined(dirs[k], name), true)
            &&& forall|j: int| 0 <= j < k ==> #[trigger] answered(probe, path_joined(dirs[j], name), false)
        },
        None => forall|j: int| 0 <= j < dirs.len() ==> #[trigger] answered(probe, path_joined(dirs[j], name), false),
    }
}

/// The file name of the transcript of session `id`.
pub open spec fn transcript_name(id: Seq<char>) -> Seq<char> {
    id + ".jsonl"@
}

/// The message of a malformed timestamp parameter.
pub open spec fn bad_timestamp_message(param: Seq<char>) -> Seq<char> {
    "invalid `"@ + param + "` timestamp — expected ISO 8601 UTC (e.g. 2025-01-15T10:00:00Z)"@
}

/// Whether an optional timestamp parameter reads as `r`: absent, or parsed.
pub open spec fn reads_as(text: Option<Seq<char>>, r: Option<UtcInstant>) -> bool {
    match text {
        None => r is None,
        Some(t) => parsed_utc(t) matches Some((s, n)) && r matches Some(i) && i.secs == s && i.nanos == n,
    }
}

/// The text of an optional string slice.
pub open spec fn opt_str(o: Option<&str>) -> Option<Seq<char>> {
    match o {
        Some(s) => Some(s@),
        None => None,
    }
}

fn bad_request(message: String) -> (r: ApiError)
    ensures
        r.status == 400,
        r.message == message,
{
    ApiError { status: 400, message }
}

fn bad_timestamp(param: &str) -> (r: ApiError)
    ensures
        r.status == 400,
        r.message@ == bad_timestamp_message(param@),
{
    let mut m = String::from_str("invalid `");
    m.append(param);
    m.append("` timestamp — expected ISO 8601 UTC (e.g. 2025-01-15T10:00:00Z)");
    bad_request(m)
}

/// Resolve a request for the transcript of session `id`: the first of the
/// `project_dirs` that holds `{id}.jsonl` (as `file_exists` reports), with the
/// optional `since`/`before` timestamps parsed as UTC. Errors: an empty id
/// (400), no directory holding the file (404), a timestamp that does not
/// parse (400, `since` checked first).
pub fn session_by_id_request<F: Fn(&str) -> bool>(
    id: &str,
    project_dirs: &[String],
    since: Option<&str>,
    before: Option<&str>,
    file_exists: &F,
) -> (r: Result<SessionByIdRequest, ApiError>)
    requires
        forall|p: &str| call_requires(*file_exists, (p,)),
    ensures
        id@.len() == 0 ==> (r matches Err(e) && e.status == 400 && e.message@ == "no session id provided"@),
        id@.len() > 0 ==> exists|found: Option<int>| {
            &&& #[trigger] search_outcome(*file_exists, views(project_dirs@), transcript_name(id@), found)
            &&& match found {
                None => r matches Err(e) && e.status == 404 && e.message@ == "session not found: "@ + id@,
                Some(k) => if opt_str(since) matches Some(t) && parsed_utc(t) is None {
                    r matches Err(e) && e.status == 400 && e.message@ == bad_timestamp_message("since"@)
                } else if opt_str(before) matches Some(t) && parsed_utc(t) is None {
                    r matches Err(e) && e.status == 400 && e.message@ == bad_timestamp_message("before"@)
                } else {
                    r matches Ok(q) && q.path@ == path_joined(project_dirs@[k]@, transcript_name(id@))
                        && reads_as(opt_str(since), q.since) && reads_as(opt_str(before), q.before)
                },
            }
        },
{
    if id.is_empty() {
        return Err(bad_request(String::from_str("no session id provided")));
    }
    let mut filename = String::from_str(id);
    filename.append(".jsonl");
    let ghost name = filename@;
    let ghost dirs = views(project_dirs@);
    let mut found: Option<String> = None;
    let ghost mut found_at: Option<int> = None;
    let mut i: usize = 0;
    while i < project_dirs.len() && found.is_none()
        invariant
            i <= project_dirs@.len(),
            forall|p: &str| call_requires(*file_exists, (p,)),
            name == filename@,
            dirs == views(project_dirs@),
            found is None ==> found_at is None,
            found is None ==> forall|j: int| 0 <= j < i ==> #[trigger] answered(*file_exists, path_joined(dirs[j], name), false),
            found matches Some(p) ==> (found_at matches Some(k) && search_outcome(*file_exists, dirs, name, found_at)
                && p@ == path_joined(dirs[k], name)),
        decreases project_dirs.len() - i,
    {
        let candidate = join_path(project_dirs[i].as_str(), filename.as_str());
        let here = file_exists(candidate.as_str());
        assert(dirs[i as int] == project_dirs@[i as int]@);
        assert(answered(*file_exists, path_joined(dirs[i as int], name), here));
        if here {
            found = Some(candidate);
            proof {
                found_at = Some(i as int);
            }
        }
        i = i + 1;
    }
    assert(name == transcript_name(id@));
    assert(search_outcome(*file_exists, views(project_dirs@), transcript_name(id@), found_at));
    let path = match found {
        Some(p) => p,
        None => {
            let mut m = String::from_str("session not found: ");
            m.append(id);
            return Err(ApiError { status: 404, message: m });
        },
    };
    let since_at = match since {
        Some(t) => match parse_utc_instant(t) {
            Some(x) => Some(x),
            None => return Err(bad_timestamp("since")),
        },
        None => None,
    };
    let before_at = match before {
        Some(t) => match parse_utc_instant(t) {
            Some(x) => Some(x),
            None => return Err(bad_timestamp("before")),
        },
        None => None,
    };
    Ok(SessionByIdRequest { path, since: since_at, before: before_at })
}

/// Check the session path of a load request: an empty path is answered with
/// 400 "no session path provided".
pub fn check_session_path(path: &str) -> (r: Result<(), ApiError>)
    ensures
        path@.len() == 0 <==> r is Err,
        r matches Err(e) ==> e.status == 400 && e.message@ == "no session path provided"@,
{
    if path.is_empty() {
        Err(bad_request(String::from_str("no session path provided")))
    } else {
        Ok(())
    }
}

/// Check the directory of a request that sets the projects directory: when
/// one is given it must exist (400 "path does not exist: {p}") and be a
/// directory (400 "path is not a directory: {p}"), as `path_exists` and
/// `is_dir` report. No directory (reset to the default) always passes.
pub fn check_projects_dir<E: Fn(&str) -> bool, D: Fn(&str) -> bool>(
    path: Option<&str>,
    path_exists: &E,
    is_dir: &D,
) -> (r: Result<(), ApiError>)
    requires
        forall|p: &str| call_requires(*path_exists, (p,)),
        forall|p: &str| call_requires(*is_dir, (p,)),
    ensures
        match path {
            None => r is Ok,
            Some(p) => {
                ||| (answered(*path_exists, p@, false) && (r matches Err(e) && e.status == 400
                    && e.message@ == "path does not exist: "@ + p@))
                ||| (answered(*path_exists, p@, true) && answered(*is_dir, p@, false) && (r matches Err(e)
                    && e.status == 400 && e.message@ == "path is not a directory: "@ + p@))
                ||| (answered(*path_exists, p@, true) && answered(*is_dir, p@, true) && r is Ok)
            },
        },
{
    match path {
        None => Ok(()),
        Some(p) => {
            let there = path_exists(p);
            assert(answered(*path_exists, p@, there));
            if !there {
                let mut m = String::from_str("path does not exist: ");
                m.append(p);
                return Err(bad_request(m));
            }
            let dir = is_dir(p);
            assert(answered(*is_dir, p@, dir));
            if !dir {
                let mut m = String::from_str("path is not a directory: ");
                m.append(p);
                return Err(bad_request(m));
            }
            Ok(())
        },
    }
}

} // verus!
