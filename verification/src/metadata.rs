use vstd::prelude::*;
use crate::json::{JsonValue, json_get, parsed_json, str_member};
use crate::ongoing::{member_or_empty, member_text};
use crate::meta::{
    chunks_given, count_turns, extract_session_meta, first_model, last_member_text, permission_mode_of, recap_after,
    scan_model, scan_recap, turn_state,
};
use crate::ongoing::{ongoing_of, scan_ongoing, transcript_approvals_given, transcript_state};
use crate::picker::SessionMetadata;
use crate::text::{chars_of, str_eq, string_from_chars, trim, trim_text, views};
use crate::tokens::{
    counts_of, meta_scan_answers_given, meta_scan_state, scan_answers_given, scan_metadata_tokens, scan_state, TokenSnapshot,
};

verus! {

/// The timestamp text of an entry that was not inherited from a parent
/// session (`forkedFrom`).
pub open spec fn own_timestamp(raw: JsonValue) -> Option<Seq<char>> {
    if json_get(raw, "forkedFrom"@) is Some {
        None
    } else {
        str_member(raw, "timestamp"@)
    }
}

/// Whether `v` is an instant that `parse_timestamp` can give for the text `t`.
pub open spec fn stamp_given<P: Fn(&str) -> i64>(parse_timestamp: P, t: Seq<char>, v: i64) -> bool {
    exists|s: &str| s@ == t && #[trigger] call_ensures(parse_timestamp, (s,), v)
}

/// Whether line `line` got an instant its timestamp parser can give, where it
/// carries an own timestamp.
pub open spec fn line_stamp_given<P: Fn(&str) -> i64>(parse_timestamp: P, line: Seq<char>, v: i64) -> bool {
    match parsed_json(line) {
        Some(raw) => match own_timestamp(raw) {
            Some(t) => stamp_given(parse_timestamp, t, v),
            None => true,
        },
        None => true,
    }
}

/// Whether every line got an instant its timestamp parser can give.
pub open spec fn stamps_given<P: Fn(&str) -> i64>(parse_timestamp: P, lines: Seq<Seq<char>>, stamps: Seq<i64>) -> bool
    decreases lines.len(),
{
    if lines.len() == 0 {
        true
    } else {
        stamps_given(parse_timestamp, lines.drop_last(), stamps) && line_stamp_given(
            parse_timestamp,
            lines.last(),
            stamps[lines.len() - 1],
        )
    }
}

/// The first and the last instant among the lines with an own timestamp;
/// line `k` has the instant `stamps[k]` (nanoseconds since the epoch).
pub open spec fn span_of(lines: Seq<Seq<char>>, stamps: Seq<i64>) -> (Option<i64>, Option<i64>)
    decreases lines.len(),
{
    if lines.len() == 0 {
        (None, None)
    } else {
        let p = span_of(lines.drop_last(), stamps);
        let v = stamps[lines.len() - 1];
        match parsed_json(lines.last()) {
            Some(raw) => if own_timestamp(raw) is Some {
                (if p.0 is None { Some(v) } else { p.0 }, Some(v))
            } else {
                p
            },
            None => p,
        }
    }
}

/// Whole milliseconds from `first` to `last` (nanoseconds), rounded toward zero.
pub open spec fn millis_between(first: i64, last: i64) -> int {
    if last >= first {
        (last - first) / 1_000_000
    } else {
        -((first - last) / 1_000_000)
    }
}

/// The duration of a span: from its first to its last instant, 0 when
/// there is none.
pub open spec fn duration_of(span: (Option<i64>, Option<i64>)) -> int {
    match span {
        (Some(f), Some(l)) => millis_between(f, l),
        _ => 0,
    }
}

proof fn lemma_stamps_prefix<P: Fn(&str) -> i64>(parse_timestamp: P, lines: Seq<Seq<char>>, a: Seq<i64>, b: Seq<i64>)
    requires
        a.len() >= lines.len(),
        b.len() >= lines.len(),
        forall|k: int| 0 <= k < lines.len() ==> a[k] == b[k],
    ensures
        span_of(lines, a) == span_of(lines, b),
        stamps_given(parse_timestamp, lines, a) == stamps_given(parse_timestamp, lines, b),
    decreases lines.len(),
{
    if lines.len() > 0 {
        lemma_stamps_prefix(parse_timestamp, lines.drop_last(), a, b);
    }
}

/// Milliseconds from `first` to `last`, both in nanoseconds since the epoch.
fn millis_from(first: i64, last: i64) -> (r: i64)
    ensures
        r as int == millis_between(first, last),
{
    let d: i128 = (last as i128) - (first as i128);
    if d >= 0 {
        let q: i128 = d / 1_000_000;
        assert(q <= 20_000_000_000_000) by (nonlinear_arith)
            requires
                q == d / 1_000_000,
                0 <= d < 0x1_0000_0000_0000_0000,
        ;
        q as i64
    } else {
        let e: i128 = -d;
        let q: i128 = e / 1_000_000;
        assert(q <= 20_000_000_000_000) by (nonlinear_arith)
            requires
                q == e / 1_000_000,
                0 < e < 0x1_0000_0000_0000_0000,
        ;
        -(q as i64)
    }
}

/// The duration of a session in milliseconds: from the first to the last
/// timestamp of the entries that were not inherited from a parent session,
/// 0 when there are none. `parse_timestamp` turns a timestamp text into
/// nanoseconds since the epoch. Lines that are not JSON are skipped.
pub fn session_duration_ms<P: Fn(&str) -> i64>(lines: &[String], parse_timestamp: &P) -> (r: i64)
    requires
        forall|s: &str| call_requires(*parse_timestamp, (s,)),
    ensures
        exists|stamps: Seq<i64>|
            stamps.len() == lines@.len() && stamps_given(*parse_timestamp, views(lines@), stamps) && r as int
                == duration_of(#[trigger] span_of(views(lines@), stamps)),
{
    let mut first: Option<i64> = None;
    let mut last: Option<i64> = None;
    let ghost mut stamps: Seq<i64> = Seq::empty();
    let mut i: usize = 0;
    while i < lines.len()
        invariant
            i <= lines@.len(),
            stamps.len() == i,
            forall|s: &str| call_requires(*parse_timestamp, (s,)),
            stamps_given(*parse_timestamp, views(lines@.take(i as int)), stamps),
            (first, last) == span_of(views(lines@.take(i as int)), stamps),
        decreases lines.len() - i,
    {
        let ghost prefix = views(lines@.take(i as int));
        assert(views(lines@.take(i + 1)).drop_last() =~= prefix);
        assert(views(lines@.take(i + 1)).last() == lines@[i as int]@);
        let mut v: i64 = 0;
        match JsonValue::parse(lines[i].as_str()) {
            Some(raw) => {
                if raw.get("forkedFrom").is_none() {
                    match raw.get("timestamp") {
                        Some(t) => match t.as_str() {
                            Some(ts) => {
                                v = parse_timestamp(ts.as_str());
                                assert(stamp_given(*parse_timestamp, ts@, v));
                                if first.is_none() {
                                    first = Some(v);
                                }
                                last = Some(v);
                            },
                            None => {},
                        },
                        None => {},
                    }
                }
            },
            None => {},
        }
        proof {
            let next = stamps.push(v);
            lemma_stamps_prefix(*parse_timestamp, prefix, stamps, next);
            stamps = next;
        }
        i = i + 1;
    }
    assert(lines@.take(lines@.len() as int) =~= lines@);
    match (first, last) {
        (Some(f), Some(l)) => millis_from(f, l),
        _ => 0,
    }
}

/// What the preview of a user entry offers, as the text helpers classify
/// its content: nothing, a slash command (with its name when one was
/// found), or the sanitized message text.
pub enum Preview {
    Skip,
    Command(Option<String>),
    Message(String),
}

/// The number of lines at the start of a transcript that the preview reads.
pub const MAX_PREVIEW_LINES: usize = 200;

/// The number of characters a preview keeps.
pub const MAX_PREVIEW_CHARS: usize = 500;

/// Whether an entry is read for the preview: a user entry with a `uuid`
/// that was not inherited from a parent session.
pub open spec fn previewable(raw: JsonValue) -> bool {
    &&& member_text(raw, "uuid"@).len() > 0
    &&& json_get(raw, "forkedFrom"@) is None
    &&& member_text(raw, "type"@) == "user"@
}

/// The fallback text of a slash command: `/` and its trimmed name, or
/// `/command` when no name was found.
pub open spec fn command_label(name: Option<String>) -> Seq<char> {
    match name {
        Some(n) => seq!['/'] + trim_text(n@),
        None => "/command"@,
    }
}

/// The first `n` characters of `t` (all of them when it is shorter).
pub open spec fn first_chars(t: Seq<char>, n: nat) -> Seq<char> {
    if t.len() <= n { t } else { t.take(n as int) }
}

/// The preview state after line `k` (text `line`) whose preview answer is
/// `p`: (the message found, the first command fallback). Once a message is
/// found, and from line [`MAX_PREVIEW_LINES`] on, nothing changes.
pub open spec fn preview_step(st: (Option<Seq<char>>, Option<Seq<char>>), k: int, line: Seq<char>, p: Preview) -> (Option<Seq<char>>, Option<Seq<char>>) {
    if st.0 is Some || k >= MAX_PREVIEW_LINES {
        st
    } else {
        match parsed_json(line) {
            Some(raw) => if !previewable(raw) {
                st
            } else {
                match p {
                    Preview::Skip => st,
                    Preview::Command(name) => if st.1 is None { (st.0, Some(command_label(name))) } else { st },
                    Preview::Message(m) => if m@.len() > 0 {
                        (Some(first_chars(m@, MAX_PREVIEW_CHARS as nat)), st.1)
                    } else {
                        st
                    },
                }
            },
            None => st,
        }
    }
}

/// Whether the preview answers were asked where [`preview_step`] reads them.
pub open spec fn preview_asked(st: (Option<Seq<char>>, Option<Seq<char>>), k: int, line: Seq<char>) -> bool {
    st.0 is None && k < MAX_PREVIEW_LINES && (parsed_json(line) matches Some(raw) && previewable(raw))
}

/// The preview state after the lines of a transcript.
pub open spec fn preview_state(lines: Seq<Seq<char>>, previews: Seq<Preview>) -> (Option<Seq<char>>, Option<Seq<char>>)
    decreases lines.len(),
{
    if lines.len() == 0 {
        (None, None)
    } else {
        preview_step(preview_state(lines.drop_last(), previews), lines.len() - 1, lines.last(), previews[lines.len() - 1])
    }
}

/// Whether every preview answer that was read is one `preview` can give.
pub open spec fn previews_given<F: Fn(&JsonValue) -> Preview>(preview: F, lines: Seq<Seq<char>>, previews: Seq<Preview>) -> bool
    decreases lines.len(),
{
    if lines.len() == 0 {
        true
    } else {
        &&& previews_given(preview, lines.drop_last(), previews)
        &&& (preview_asked(preview_state(lines.drop_last(), previews), lines.len() - 1, lines.last())
            ==> (parsed_json(lines.last()) matches Some(raw) && call_ensures(preview, (&raw,), previews[lines.len() - 1])))
    }
}

/// `t` with every newline replaced by a space.
pub open spec fn newlines_to_spaces(t: Seq<char>) -> Seq<char> {
    t.map_values(|c: char| if c == '\n' { ' ' } else { c })
}

/// The first message of a transcript: the message found, else the command
/// fallback, else empty; newlines become spaces.
pub open spec fn first_message_of(st: (Option<Seq<char>>, Option<Seq<char>>)) -> Seq<char> {
    newlines_to_spaces(
        match st.0 {
            Some(m) => m,
            None => match st.1 {
                Some(c) => c,
                None => Seq::empty(),
            },
        },
    )
}

proof fn lemma_previews_prefix<F: Fn(&JsonValue) -> Preview>(preview: F, lines: Seq<Seq<char>>, a: Seq<Preview>, b: Seq<Preview>)
    requires
        a.len() >= lines.len(),
        b.len() >= lines.len(),
        forall|k: int| 0 <= k < lines.len() ==> a[k] == b[k],
    ensures
        preview_state(lines, a) == preview_state(lines, b),
        previews_given(preview, lines, a) == previews_given(preview, lines, b),
    decreases lines.len(),
{
    if lines.len() > 0 {
        lemma_previews_prefix(preview, lines.drop_last(), a, b);
    }
}

/// `/` and the trimmed command name, or `/command`.
fn command_text(name: &Option<String>) -> (r: Vec<char>)
    ensures
        r@ == command_label(*name),
{
    match name {
        Some(n) => {
            let t = trim(n.as_str());
            let tc = chars_of(t.as_str());
            let mut v: Vec<char> = Vec::new();
            v.push('/');
            let mut i: usize = 0;
            while i < tc.len()
                invariant
                    i <= tc@.len(),
                    v@ == seq!['/'] + tc@.take(i as int),
                decreases tc.len() - i,
            {
                v.push(tc[i]);
                i = i + 1;
                assert(v@ =~= seq!['/'] + tc@.take(i as int));
            }
            assert(tc@.take(tc@.len() as int) =~= tc@);
            v
        },
        None => {
            proof {
                reveal_strlit("/command");
            }
            chars_of("/command")
        },
    }
}

/// The first [`MAX_PREVIEW_CHARS`] characters of `m`.
fn preview_chars(m: &String) -> (r: Vec<char>)
    ensures
        r@ == first_chars(m@, MAX_PREVIEW_CHARS as nat),
{
    let c = chars_of(m.as_str());
    let mut v: Vec<char> = Vec::new();
    let mut i: usize = 0;
    while i < c.len() && i < MAX_PREVIEW_CHARS
        invariant
            i <= c@.len(),
            i <= MAX_PREVIEW_CHARS,
            v@ == c@.take(i as int),
        decreases c.len() - i,
    {
        v.push(c[i]);
        i = i + 1;
        assert(v@ =~= c@.take(i as int));
    }
    assert(c@.len() <= MAX_PREVIEW_CHARS ==> c@.take(c@.len() as int) =~= c@);
    v
}

/// The first message of a transcript, from its lines: among the first
/// [`MAX_PREVIEW_LINES`] lines, the first user entry (with a `uuid`, not
/// inherited) whose `preview` is a non-empty message gives it, cut to
/// [`MAX_PREVIEW_CHARS`] characters; without one, the first slash command
/// gives its label; newlines become spaces. `preview` is asked for each
/// such entry until a message is found. Lines that are not JSON are skipped.
pub fn first_message<F: Fn(&JsonValue) -> Preview>(lines: &[String], preview: &F) -> (r: String)
    requires
        forall|v: &JsonValue| call_requires(*preview, (v,)),
    ensures
        exists|previews: Seq<Preview>|
            previews.len() == lines@.len() && previews_given(*preview, views(lines@), previews) && r@
                == first_message_of(#[trigger] preview_state(views(lines@), previews)),
{
    let mut found: Option<Vec<char>> = None;
    let mut fallback: Option<Vec<char>> = None;
    let ghost mut previews: Seq<Preview> = Seq::empty();
    let mut i: usize = 0;
    while i < lines.len()
        invariant
            i <= lines@.len(),
            previews.len() == i,
            forall|v: &JsonValue| call_requires(*preview, (v,)),
            previews_given(*preview, views(lines@.take(i as int)), previews),
            (match found {
                Some(f) => Some(f@),
                None => None,
            }, match fallback {
                Some(f) => Some(f@),
                None => None,
            }) == preview_state(views(lines@.take(i as int)), previews),
        decreases lines.len() - i,
    {
        let ghost prefix = views(lines@.take(i as int));
        let ghost before = preview_state(prefix, previews);
        assert(views(lines@.take(i + 1)).drop_last() =~= prefix);
        assert(views(lines@.take(i + 1)).last() == lines@[i as int]@);
        let mut p = Preview::Skip;
        if found.is_none() && i < MAX_PREVIEW_LINES {
            match JsonValue::parse(lines[i].as_str()) {
                Some(raw) => {
                    if !member_or_empty(&raw, "uuid").is_empty() && raw.get("forkedFrom").is_none()
                        && str_eq(member_or_empty(&raw, "type"), "user") {
                        p = preview(&raw);
                        match &p {
                            Preview::Skip => {},
                            Preview::Command(name) => {
                                if fallback.is_none() {
                                    fallback = Some(command_text(name));
                                }
                            },
                            Preview::Message(m) => {
                                if !m.as_str().is_empty() {
                                    found = Some(preview_chars(m));
                                }
                            },
                        }
                    }
                },
                None => {},
            }
        }
        proof {
            let next = previews.push(p);
            lemma_previews_prefix(*preview, prefix, previews, next);
            previews = next;
        }
        i = i + 1;
    }
    assert(lines@.take(lines@.len() as int) =~= lines@);
    let text: Vec<char> = match found {
        Some(f) => f,
        None => match fallback {
            Some(c) => c,
            None => Vec::new(),
        },
    };
    let mut out: Vec<char> = Vec::new();
    let mut j: usize = 0;
    while j < text.len()
        invariant
            j <= text@.len(),
            out@ == newlines_to_spaces(text@.take(j as int)),
        decreases text.len() - j,
    {
        let c = text[j];
        out.push(if c == '\n' { ' ' } else { c });
        j = j + 1;
        assert(out@ =~= newlines_to_spaces(text@.take(j as int)));
    }
    assert(text@.take(text@.len() as int) =~= text@);
    string_from_chars(out.as_slice())
}

/// The metadata of a session, from the lines of its transcript: each field
/// as the scan that computes it states. The working directory, branch and
/// permission mode are the last ones seen; the recap is the one the session
/// was parked on; the model is that of the first real main-chain assistant
/// entry; the turn count, the ongoing flag, the token totals and context
/// occupancy, the duration and the first message come from the scans of
/// [`count_turns`], [`scan_ongoing`], [`scan_metadata_tokens`],
/// [`session_duration_ms`] and [`first_message`], each with its helper; the
/// token totals also count the lines of the subagent transcripts,
/// `subagent_lines`, in the same request-id map. The
/// cost is left at 0 (its bit pattern), as is the recap turn.
pub fn session_metadata_from_lines<U, A, E, C, R, P, F>(
    lines: &[String],
    subagent_lines: &[String],
    is_user_chunk: &U,
    is_shutdown_approval: &A,
    estimate_output: &E,
    cache_creation: &C,
    replaces: &R,
    parse_timestamp: &P,
    preview: &F,
) -> (r: SessionMetadata) where
    U: Fn(&JsonValue, &str, bool, bool) -> bool,
    A: Fn(&str, Option<&JsonValue>) -> bool,
    E: Fn(&JsonValue) -> i64,
    C: Fn(&JsonValue) -> i64,
    R: Fn(&TokenSnapshot, &TokenSnapshot) -> bool,
    P: Fn(&str) -> i64,
    F: Fn(&JsonValue) -> Preview,
    requires
        lines@.len() <= i32::MAX,
        forall|raw: &JsonValue, t: &str, m: bool, s: bool| call_requires(*is_user_chunk, (raw, t, m, s)),
        forall|n: &str, input: Option<&JsonValue>| call_requires(*is_shutdown_approval, (n, input)),
        forall|v: &JsonValue| call_requires(*estimate_output, (v,)),
        forall|v: &JsonValue| call_requires(*cache_creation, (v,)),
        forall|a: &TokenSnapshot, b: &TokenSnapshot| call_requires(*replaces, (a, b)),
        forall|s: &str| call_requires(*parse_timestamp, (s,)),
        forall|v: &JsonValue| call_requires(*preview, (v,)),
    ensures
        r.cwd@ == last_member_text(views(lines@), "cwd"@),
        r.git_branch@ == last_member_text(views(lines@), "gitBranch"@),
        r.permission_mode@ == permission_mode_of(views(lines@)),
        match recap_after(views(lines@)) {
            Some(t) => r.recap matches Some(s) && s@ == t,
            None => r.recap is None,
        },
        r.model@ == first_model(views(lines@)),
        exists|chunks: Seq<bool>|
            chunks_given(*is_user_chunk, views(lines@), chunks) && r.turn_count as int == turn_state(views(lines@), chunks).0,
        exists|approvals: Seq<Seq<bool>>|
            transcript_approvals_given(*is_shutdown_approval, views(lines@), approvals)
            && r.is_ongoing == ongoing_of(transcript_state(views(lines@), approvals)),
        exists|answers: Seq<(i64, i64, bool)>, sub_answers: Seq<(i64, i64, bool)>|
            #![trigger meta_scan_state(views(lines@), answers), scan_state(meta_scan_state(views(lines@), answers).tokens, views(subagent_lines@), sub_answers)]
        {
            let st = meta_scan_state(views(lines@), answers);
            let all = scan_state(st.tokens, views(subagent_lines@), sub_answers);
            &&& answers.len() == lines@.len()
            &&& meta_scan_answers_given(*estimate_output, *cache_creation, *replaces, views(lines@), answers)
            &&& sub_answers.len() == subagent_lines@.len()
            &&& scan_answers_given(*estimate_output, *cache_creation, *replaces, st.tokens, views(subagent_lines@), sub_answers)
            &&& (r.total_tokens, r.input_tokens, r.output_tokens, r.cache_read_tokens, r.cache_creation_tokens) == counts_of(all)
            &&& r.context_tokens == (match st.context {
                Some(c) => c,
                None => 0,
            })
        },
        exists|stamps: Seq<i64>|
            stamps.len() == lines@.len() && stamps_given(*parse_timestamp, views(lines@), stamps) && r.duration_ms as int
                == duration_of(#[trigger] span_of(views(lines@), stamps)),
        exists|previews: Seq<Preview>|
            previews.len() == lines@.len() && previews_given(*preview, views(lines@), previews) && r.first_msg@
                == first_message_of(#[trigger] preview_state(views(lines@), previews)),
        r.cost_usd_bits == 0,
        r.recap_turn == 0,
{
    let meta = extract_session_meta(Some(lines));
    let tokens = scan_metadata_tokens(lines, subagent_lines, estimate_output, cache_creation, replaces);
    SessionMetadata {
        first_msg: first_message(lines, preview),
        turn_count: count_turns(lines, is_user_chunk),
        is_ongoing: scan_ongoing(lines, is_shutdown_approval),
        total_tokens: tokens.totals.total_tokens,
        input_tokens: tokens.totals.input_tokens,
        output_tokens: tokens.totals.output_tokens,
        cache_read_tokens: tokens.totals.cache_read_tokens,
        cache_creation_tokens: tokens.totals.cache_creation_tokens,
        context_tokens: tokens.context_tokens,
        cost_usd_bits: 0,
        duration_ms: session_duration_ms(lines, parse_timestamp),
        model: scan_model(lines),
        cwd: meta.cwd,
        git_branch: meta.git_branch,
        permission_mode: meta.permission_mode,
        recap: scan_recap(lines),
        recap_turn: 0,
    }
}

/// Once a preview message has been found it never changes: if the first `n`
/// lines of a transcript give a message, every longer read gives the same
/// one (and the same holds of the command fallback).
pub proof fn lemma_preview_found_stays(lines: Seq<Seq<char>>, previews: Seq<Preview>, n: int)
    requires
        0 <= n <= lines.len(),
    ensures
        preview_state(lines.take(n), previews).0 is Some ==> preview_state(lines, previews).0 == preview_state(
            lines.take(n),
            previews,
        ).0,
        preview_state(lines.take(n), previews).1 is Some ==> preview_state(lines, previews).1 == preview_state(
            lines.take(n),
            previews,
        ).1,
    decreases lines.len() - n,
{
    if n == lines.len() {
        assert(lines.take(n) =~= lines);
    } else {
        lemma_preview_found_stays(lines, previews, n + 1);
        assert(lines.take(n + 1).drop_last() =~= lines.take(n));
    }
}

/// Whether line `k` is a user entry with a uuid, not inherited, read within
/// the preview window, whose preview is a non-empty message.
pub open spec fn gives_message(lines: Seq<Seq<char>>, previews: Seq<Preview>, k: int) -> bool {
    &&& k < MAX_PREVIEW_LINES
    &&& parsed_json(lines[k]) matches Some(raw) && previewable(raw)
    &&& previews[k] matches Preview::Message(m) && m@.len() > 0
}

proof fn lemma_no_message_before(lines: Seq<Seq<char>>, previews: Seq<Preview>, n: int)
    requires
        0 <= n <= lines.len(),
        forall|i: int| 0 <= i < n ==> !#[trigger] gives_message(lines, previews, i),
    ensures
        preview_state(lines.take(n), previews).0 is None,
    decreases n,
{
    if n > 0 {
        lemma_no_message_before(lines, previews, n - 1);
        assert(lines.take(n).drop_last() =~= lines.take(n - 1));
        assert(lines.take(n).last() == lines[n - 1]);
        assert(!gives_message(lines, previews, n - 1));
    }
}

/// The first message of a transcript is that of its first user entry (with
/// a uuid, not inherited, within the preview window) whose preview is a
/// non-empty message, cut to [`MAX_PREVIEW_CHARS`] characters; later
/// messages never replace it.
pub proof fn lemma_first_message_is_first_found(lines: Seq<Seq<char>>, previews: Seq<Preview>, k: int)
    requires
        0 <= k < lines.len(),
        gives_message(lines, previews, k),
        forall|i: int| 0 <= i < k ==> !#[trigger] gives_message(lines, previews, i),
    ensures
        previews[k] matches Preview::Message(m) && preview_state(lines, previews).0 == Some(
            first_chars(m@, MAX_PREVIEW_CHARS as nat),
        ),
{
    lemma_no_message_before(lines, previews, k);
    assert(lines.take(k + 1).drop_last() =~= lines.take(k));
    assert(lines.take(k + 1).last() == lines[k]);
    lemma_preview_found_stays(lines, previews, k + 1);
}

} // verus!
