use vstd::prelude::*;
use vstd::string::StringExecFns;
use crate::json::{JsonValue, json_get, json_i64, json_str, parsed_json};
use crate::meta::model_of;
use crate::ongoing::{is_sidechain, member_or_empty, member_text};
use crate::lines::{decode_utf8, lemma_newline_bounds, lemma_newline_extends, lemma_newline_shift, newline_from, utf8_text};
use crate::strmap::StrMap;
use crate::text::{chars_end_with, chars_of, chars_start_with, ends_with, starts_with, str_eq, trim, trim_text, views};
use vstd::slice::slice_subrange;

verus! {

/// Token usage of one API request, as an assistant entry reports it.
pub struct TokenSnapshot {
    pub input: i64,
    pub output: i64,
    pub cache_read: i64,
    pub cache_create: i64,
    pub model: String,
    pub has_stop_reason: bool,
}

/// The value of a [`TokenSnapshot`], with the model as text.
pub struct SnapView {
    pub input: i64,
    pub output: i64,
    pub cache_read: i64,
    pub cache_create: i64,
    pub model: Seq<char>,
    pub has_stop_reason: bool,
}

impl View for TokenSnapshot {
    type V = SnapView;

    open spec fn view(&self) -> SnapView {
        SnapView {
            input: self.input,
            output: self.output,
            cache_read: self.cache_read,
            cache_create: self.cache_create,
            model: self.model@,
            has_stop_reason: self.has_stop_reason,
        }
    }
}

impl TokenSnapshot {
    /// A snapshot with no tokens, no model and no stop reason.
    pub fn zero() -> (r: TokenSnapshot)
        ensures
            r@ == zero_snap(),
    {
        TokenSnapshot { input: 0, output: 0, cache_read: 0, cache_create: 0, model: String::new(), has_stop_reason: false }
    }
}

/// `x + y` on `i64`, wrapping on overflow.
pub open spec fn wadd(x: i64, y: i64) -> i64 {
    vstd::wrapping::i64_specs::wrapping_add(x, y)
}

/// The empty snapshot.
pub open spec fn zero_snap() -> SnapView {
    SnapView { input: 0, output: 0, cache_read: 0, cache_create: 0, model: Seq::empty(), has_stop_reason: false }
}

/// The running state of the token accounting: the best snapshot of each
/// request id in the order the ids first appeared, the sum of the entries
/// that carry no request id, and the model of the first counted entry.
pub struct TokenState {
    pub requests: Seq<(Seq<char>, SnapView)>,
    pub fallback: SnapView,
    pub model: Seq<char>,
}

/// The state before any line.
pub open spec fn empty_tokens() -> TokenState {
    TokenState { requests: Seq::empty(), fallback: zero_snap(), model: Seq::empty() }
}

/// `v[key]` when `v` is present.
pub open spec fn opt_get(v: Option<JsonValue>, key: Seq<char>) -> Option<JsonValue> {
    match v {
        Some(x) => json_get(x, key),
        None => None,
    }
}

/// The integer at `v[key]`, or 0 when it is missing or not an `i64`.
pub open spec fn i64_or_zero(v: JsonValue, key: Seq<char>) -> i64 {
    match json_i64(json_get(v, key)) {
        Some(n) => n,
        None => 0,
    }
}

/// Whether the entry's `message.stop_reason` is a non-empty string.
pub open spec fn has_stop(raw: JsonValue) -> bool {
    match json_str(opt_get(json_get(raw, "message"@), "stop_reason"@)) {
        Some(s) => s.len() > 0,
        None => false,
    }
}

/// The `message.usage` of an entry whose tokens count: one that was not
/// inherited from a parent session (`forkedFrom`), is of type `assistant`
/// and does not name the `<synthetic>` model. `None` for every other entry.
pub open spec fn counted_usage(raw: JsonValue) -> Option<JsonValue> {
    if json_get(raw, "forkedFrom"@) is Some {
        None
    } else if member_text(raw, "type"@) != "assistant"@ {
        None
    } else if model_of(raw) == "<synthetic>"@ {
        None
    } else {
        opt_get(json_get(raw, "message"@), "usage"@)
    }
}

/// The snapshot of a counted entry with usage `usage`. The output is the
/// reported one when the entry has a stop reason, else the larger of the
/// reported one and the content estimate `est`; `cc` is the cache-creation
/// count read from the usage.
pub open spec fn snapshot_of(raw: JsonValue, usage: JsonValue, est: i64, cc: i64) -> SnapView {
    let reported = i64_or_zero(usage, "output_tokens"@);
    SnapView {
        input: i64_or_zero(usage, "input_tokens"@),
        output: if has_stop(raw) || est <= reported { reported } else { est },
        cache_read: i64_or_zero(usage, "cache_read_input_tokens"@),
        cache_create: cc,
        model: model_of(raw),
        has_stop_reason: has_stop(raw),
    }
}

/// The four counts of a snapshot added up, wrapping.
pub open spec fn snap_total(s: SnapView) -> i64 {
    wadd(wadd(wadd(s.input, s.output), s.cache_read), s.cache_create)
}

/// `acc` with the four counts of `s` added, wrapping.
pub open spec fn add_counts(acc: SnapView, s: SnapView) -> SnapView {
    SnapView {
        input: wadd(acc.input, s.input),
        output: wadd(acc.output, s.output),
        cache_read: wadd(acc.cache_read, s.cache_read),
        cache_create: wadd(acc.cache_create, s.cache_create),
        ..acc
    }
}

/// The last index whose request id is `id`.
pub open spec fn id_position(reqs: Seq<(Seq<char>, SnapView)>, id: Seq<char>) -> Option<int>
    decreases reqs.len(),
{
    if reqs.len() == 0 {
        None
    } else if reqs.last().0 == id {
        Some(reqs.len() - 1)
    } else {
        id_position(reqs.drop_last(), id)
    }
}

/// Record `snap` for request `id`: a new id is appended; for a known id the
/// new snapshot takes the place of the old one when `replace` says so, and
/// is dropped otherwise.
pub open spec fn put_best(reqs: Seq<(Seq<char>, SnapView)>, id: Seq<char>, snap: SnapView, replace: bool) -> Seq<(Seq<char>, SnapView)> {
    match id_position(reqs, id) {
        Some(i) => if replace { reqs.update(i, (id, snap)) } else { reqs },
        None => reqs.push((id, snap)),
    }
}

/// The state after one transcript line whose parse is `parsed`. A line that
/// is not JSON, or whose entry does not count, leaves the state as it is;
/// so does an entry whose four counts add up to 0. An entry with a
/// non-empty `requestId` goes through [`put_best`]; one without is added to
/// the fallback sum. The first counted entry that names a model sets the
/// model. `est`, `cc` and `replace` are the answers of the output estimate,
/// the cache-creation reader and the snapshot choice.
pub open spec fn token_step(st: TokenState, parsed: Option<JsonValue>, est: i64, cc: i64, replace: bool) -> TokenState {
    match parsed {
        None => st,
        Some(raw) => match counted_usage(raw) {
            None => st,
            Some(usage) => {
                let snap = snapshot_of(raw, usage, est, cc);
                if snap_total(snap) == 0 {
                    st
                } else {
                    let id = member_text(raw, "requestId"@);
                    let st2 = if id.len() > 0 {
                        TokenState { requests: put_best(st.requests, id, snap, replace), ..st }
                    } else {
                        TokenState { fallback: add_counts(st.fallback, snap), ..st }
                    };
                    if st2.model.len() == 0 && snap.model.len() > 0 {
                        TokenState { model: snap.model, ..st2 }
                    } else {
                        st2
                    }
                }
            },
        },
    }
}

/// Whether `replace` is an answer of `replaces` on snapshots with the values
/// `older` and `newer`.
pub open spec fn replace_given<R: Fn(&TokenSnapshot, &TokenSnapshot) -> bool>(
    replaces: R,
    older: SnapView,
    newer: SnapView,
    replace: bool,
) -> bool {
    exists|o: TokenSnapshot, n: TokenSnapshot|
        o@ == older && n@ == newer && #[trigger] call_ensures(replaces, (&o, &n), replace)
}

/// Whether `est`, `cc` and `replace` are answers that the three helpers can
/// give for the line with parse `parsed` read in state `st`: each is tied to
/// its helper exactly where [`token_step`] reads it (the snapshot choice only
/// for an entry that is recorded under a request id already known).
pub open spec fn answers_given<E, C, R>(
    estimate_output: E,
    cache_creation: C,
    replaces: R,
    st: TokenState,
    parsed: Option<JsonValue>,
    est: i64,
    cc: i64,
    replace: bool,
) -> bool where
    E: Fn(&JsonValue) -> i64,
    C: Fn(&JsonValue) -> i64,
    R: Fn(&TokenSnapshot, &TokenSnapshot) -> bool,
 {
    match parsed {
        None => true,
        Some(raw) => match counted_usage(raw) {
            None => true,
            Some(usage) => {
                &&& call_ensures(cache_creation, (&usage,), cc)
                &&& !has_stop(raw) ==> call_ensures(estimate_output, (&raw,), est)
                &&& snap_total(snapshot_of(raw, usage, est, cc)) != 0 ==> (match id_position(st.requests, member_text(raw, "requestId"@)) {
                    Some(i) => member_text(raw, "requestId"@).len() > 0 ==> replace_given(
                        replaces,
                        st.requests[i].1,
                        snapshot_of(raw, usage, est, cc),
                        replace,
                    ),
                    None => true,
                })
            },
        },
    }
}

/// The state after the lines `lines`, each trimmed of surrounding white
/// space, read from `st`; line `k` gets the helper answers `answers[k]`.
pub open spec fn scan_state(st: TokenState, lines: Seq<Seq<char>>, answers: Seq<(i64, i64, bool)>) -> TokenState
    decreases lines.len(),
{
    if lines.len() == 0 {
        st
    } else {
        line_step(scan_state(st, lines.drop_last(), answers), lines.last(), answers[lines.len() - 1])
    }
}

/// [`token_step`] on the trimmed line `line` with the answers `a`.
#[verifier::opaque]
pub open spec fn line_step(st: TokenState, line: Seq<char>, a: (i64, i64, bool)) -> TokenState {
    token_step(st, parsed_json(trim_text(line)), a.0, a.1, a.2)
}

/// [`answers_given`] on the trimmed line `line` with the answers `a`.
#[verifier::opaque]
pub open spec fn line_answers_given<E, C, R>(
    estimate_output: E,
    cache_creation: C,
    replaces: R,
    st: TokenState,
    line: Seq<char>,
    a: (i64, i64, bool),
) -> bool where
    E: Fn(&JsonValue) -> i64,
    C: Fn(&JsonValue) -> i64,
    R: Fn(&TokenSnapshot, &TokenSnapshot) -> bool,
 {
    answers_given(estimate_output, cache_creation, replaces, st, parsed_json(trim_text(line)), a.0, a.1, a.2)
}

/// Whether every line of a scan from `st` got answers its helpers can give.
pub open spec fn scan_answers_given<E, C, R>(
    estimate_output: E,
    cache_creation: C,
    replaces: R,
    st: TokenState,
    lines: Seq<Seq<char>>,
    answers: Seq<(i64, i64, bool)>,
) -> bool where
    E: Fn(&JsonValue) -> i64,
    C: Fn(&JsonValue) -> i64,
    R: Fn(&TokenSnapshot, &TokenSnapshot) -> bool,
    decreases lines.len(),
{
    if lines.len() == 0 {
        true
    } else {
        &&& scan_answers_given(estimate_output, cache_creation, replaces, st, lines.drop_last(), answers)
        &&& line_answers_given(
            estimate_output,
            cache_creation,
            replaces,
            scan_state(st, lines.drop_last(), answers),
            lines.last(),
            answers[lines.len() - 1],
        )
    }
}

/// A scan reads only the answers of its own lines.
proof fn lemma_scan_answers_prefix<E, C, R>(
    estimate_output: E,
    cache_creation: C,
    replaces: R,
    st: TokenState,
    lines: Seq<Seq<char>>,
    a1: Seq<(i64, i64, bool)>,
    a2: Seq<(i64, i64, bool)>,
) where
    E: Fn(&JsonValue) -> i64,
    C: Fn(&JsonValue) -> i64,
    R: Fn(&TokenSnapshot, &TokenSnapshot) -> bool,
    requires
        a1.len() >= lines.len(),
        a2.len() >= lines.len(),
        forall|k: int| 0 <= k < lines.len() ==> a1[k] == a2[k],
    ensures
        scan_state(st, lines, a1) == scan_state(st, lines, a2),
        scan_answers_given(estimate_output, cache_creation, replaces, st, lines, a1)
            == scan_answers_given(estimate_output, cache_creation, replaces, st, lines, a2),
    decreases lines.len(),
{
    if lines.len() > 0 {
        lemma_scan_answers_prefix(estimate_output, cache_creation, replaces, st, lines.drop_last(), a1, a2);
    }
}

/// Reading a transcript in appended pieces is reading it whole: scanning
/// `l1` and then, from the state reached, `l2` gives the state (and so the
/// totals) of scanning `l1 + l2`; and answers that the helpers can give for
/// the whole read are answers they can give for the two pieces, and back.
pub proof fn lemma_token_scan_in_pieces<E, C, R>(
    estimate_output: E,
    cache_creation: C,
    replaces: R,
    st: TokenState,
    l1: Seq<Seq<char>>,
    l2: Seq<Seq<char>>,
    answers: Seq<(i64, i64, bool)>,
) where
    E: Fn(&JsonValue) -> i64,
    C: Fn(&JsonValue) -> i64,
    R: Fn(&TokenSnapshot, &TokenSnapshot) -> bool,
    requires
        answers.len() == l1.len() + l2.len(),
    ensures
        scan_state(st, l1 + l2, answers) == scan_state(scan_state(st, l1, answers), l2, answers.skip(l1.len() as int)),
        counts_of(scan_state(st, l1 + l2, answers)) == counts_of(
            scan_state(scan_state(st, l1, answers), l2, answers.skip(l1.len() as int)),
        ),
        scan_answers_given(estimate_output, cache_creation, replaces, st, l1 + l2, answers) == (
            scan_answers_given(estimate_output, cache_creation, replaces, st, l1, answers)
            && scan_answers_given(
                estimate_output,
                cache_creation,
                replaces,
                scan_state(st, l1, answers),
                l2,
                answers.skip(l1.len() as int),
            )),
    decreases l2.len(),
{
    if l2.len() == 0 {
        assert(l1 + l2 =~= l1);
    } else {
        let l2p = l2.drop_last();
        assert((l1 + l2).drop_last() =~= l1 + l2p);
        assert((l1 + l2).last() == l2.last());
        lemma_scan_answers_prefix(estimate_output, cache_creation, replaces, st, l1, answers, answers.take((l1.len() + l2p.len()) as int));
        lemma_scan_answers_prefix(estimate_output, cache_creation, replaces, st, l1 + l2p, answers, answers.take((l1.len() + l2p.len()) as int));
        lemma_token_scan_in_pieces(
            estimate_output,
            cache_creation,
            replaces,
            st,
            l1,
            l2p,
            answers.take((l1.len() + l2p.len()) as int),
        );
        let mid = scan_state(st, l1, answers);
        assert(answers.take((l1.len() + l2p.len()) as int).skip(l1.len() as int) =~= answers.skip(l1.len() as int).take(l2p.len() as int));
        lemma_scan_answers_prefix(
            estimate_output,
            cache_creation,
            replaces,
            mid,
            l2p,
            answers.skip(l1.len() as int),
            answers.skip(l1.len() as int).take(l2p.len() as int),
        );
        assert(answers.skip(l1.len() as int)[l2.len() - 1] == answers[(l1 + l2).len() - 1]);
    }
}

/// No request id occurs twice.
pub open spec fn ids_distinct(reqs: Seq<(Seq<char>, SnapView)>) -> bool {
    forall|i: int, j: int| 0 <= i < reqs.len() && 0 <= j < reqs.len() && i != j ==> #[trigger] reqs[i].0 != #[trigger] reqs[j].0
}

/// [`id_position`] finds an index that holds `id`, and finds none only when
/// no index holds it.
pub proof fn lemma_id_position(reqs: Seq<(Seq<char>, SnapView)>, id: Seq<char>)
    ensures
        match id_position(reqs, id) {
            Some(i) => 0 <= i < reqs.len() && reqs[i].0 == id,
            None => forall|k: int| 0 <= k < reqs.len() ==> #[trigger] reqs[k].0 != id,
        },
    decreases reqs.len(),
{
    if reqs.len() > 0 {
        lemma_id_position(reqs.drop_last(), id);
        if reqs.last().0 != id {
            assert forall|k: int| 0 <= k < reqs.len() - 1 implies #[trigger] reqs[k].0 == reqs.drop_last()[k].0 by {}
        }
    }
}

/// One snapshot per request id: a step keeps the request ids distinct.
pub proof fn lemma_step_keeps_ids_distinct(st: TokenState, parsed: Option<JsonValue>, est: i64, cc: i64, replace: bool)
    requires
        ids_distinct(st.requests),
    ensures
        ids_distinct(token_step(st, parsed, est, cc, replace).requests),
{
    if let Some(raw) = parsed {
        if let Some(usage) = counted_usage(raw) {
            let snap = snapshot_of(raw, usage, est, cc);
            let id = member_text(raw, "requestId"@);
            lemma_id_position(st.requests, id);
            let r = put_best(st.requests, id, snap, replace);
            assert forall|i: int, j: int| 0 <= i < r.len() && 0 <= j < r.len() && i != j implies #[trigger] r[i].0 != #[trigger] r[j].0 by {
                if i < st.requests.len() && j < st.requests.len() {
                    assert(st.requests[i].0 != st.requests[j].0);
                }
            }
        }
    }
}

/// One snapshot per request id: a scan from a state with distinct request
/// ids (such as the empty one) ends with distinct request ids.
pub proof fn lemma_scan_keeps_ids_distinct(st: TokenState, lines: Seq<Seq<char>>, answers: Seq<(i64, i64, bool)>)
    requires
        ids_distinct(st.requests),
    ensures
        ids_distinct(scan_state(st, lines, answers).requests),
    decreases lines.len(),
{
    if lines.len() > 0 {
        lemma_scan_keeps_ids_distinct(st, lines.drop_last(), answers);
        let a = answers[lines.len() - 1];
        reveal(line_step);
        lemma_step_keeps_ids_distinct(scan_state(st, lines.drop_last(), answers), parsed_json(trim_text(lines.last())), a.0, a.1, a.2);
    }
}

/// The token accounting of the metadata scan: the requests and fallback
/// sum (its `model` is unused), and the context-window occupancy of the
/// latest main-chain turn.
pub struct MetaTokenState {
    pub tokens: TokenState,
    pub context: Option<i64>,
}

/// The metadata scan before any line.
pub open spec fn empty_meta_tokens() -> MetaTokenState {
    MetaTokenState { tokens: empty_tokens(), context: None }
}

/// The state of the metadata scan after one line. An entry counts when it
/// has a `uuid` and [`counted_usage`] gives its usage; unlike
/// [`token_step`], an entry whose counts add up to 0 is still recorded and
/// the model is not read here. A main-chain entry with a stop reason, or the
/// first main-chain entry at all, sets the context occupancy to its input +
/// cache read + cache creation (wrapping).
pub open spec fn meta_token_step(st: MetaTokenState, parsed: Option<JsonValue>, est: i64, cc: i64, replace: bool) -> MetaTokenState {
    match parsed {
        None => st,
        Some(raw) => if member_text(raw, "uuid"@).len() == 0 {
            st
        } else {
            match counted_usage(raw) {
                None => st,
                Some(usage) => {
                    let snap = snapshot_of(raw, usage, est, cc);
                    let context = if !is_sidechain(raw) && (snap.has_stop_reason || st.context is None) {
                        Some(wadd(wadd(snap.input, snap.cache_read), snap.cache_create))
                    } else {
                        st.context
                    };
                    let id = member_text(raw, "requestId"@);
                    let tokens = if id.len() > 0 {
                        TokenState { requests: put_best(st.tokens.requests, id, snap, replace), ..st.tokens }
                    } else {
                        TokenState { fallback: add_counts(st.tokens.fallback, snap), ..st.tokens }
                    };
                    MetaTokenState { tokens, context }
                },
            }
        },
    }
}

/// Whether `est`, `cc` and `replace` are answers the helpers can give for a
/// line of the metadata scan read in state `st`.
pub open spec fn meta_answers_given<E, C, R>(
    estimate_output: E,
    cache_creation: C,
    replaces: R,
    st: MetaTokenState,
    parsed: Option<JsonValue>,
    est: i64,
    cc: i64,
    replace: bool,
) -> bool where
    E: Fn(&JsonValue) -> i64,
    C: Fn(&JsonValue) -> i64,
    R: Fn(&TokenSnapshot, &TokenSnapshot) -> bool,
 {
    match parsed {
        None => true,
        Some(raw) => if member_text(raw, "uuid"@).len() == 0 {
            true
        } else {
            match counted_usage(raw) {
                None => true,
                Some(usage) => {
                    &&& call_ensures(cache_creation, (&usage,), cc)
                    &&& !has_stop(raw) ==> call_ensures(estimate_output, (&raw,), est)
                    &&& (match id_position(st.tokens.requests, member_text(raw, "requestId"@)) {
                        Some(i) => member_text(raw, "requestId"@).len() > 0 ==> replace_given(
                            replaces,
                            st.tokens.requests[i].1,
                            snapshot_of(raw, usage, est, cc),
                            replace,
                        ),
                        None => true,
                    })
                },
            }
        },
    }
}

/// [`meta_token_step`] on line `line` with the answers `a`.
#[verifier::opaque]
pub open spec fn meta_line_step(st: MetaTokenState, line: Seq<char>, a: (i64, i64, bool)) -> MetaTokenState {
    meta_token_step(st, parsed_json(line), a.0, a.1, a.2)
}

/// [`meta_answers_given`] on line `line` with the answers `a`.
#[verifier::opaque]
pub open spec fn meta_line_answers_given<E, C, R>(
    estimate_output: E,
    cache_creation: C,
    replaces: R,
    st: MetaTokenState,
    line: Seq<char>,
    a: (i64, i64, bool),
) -> bool where
    E: Fn(&JsonValue) -> i64,
    C: Fn(&JsonValue) -> i64,
    R: Fn(&TokenSnapshot, &TokenSnapshot) -> bool,
 {
    meta_answers_given(estimate_output, cache_creation, replaces, st, parsed_json(line), a.0, a.1, a.2)
}

/// The metadata scan's token state after the lines of a transcript.
pub open spec fn meta_scan_state(lines: Seq<Seq<char>>, answers: Seq<(i64, i64, bool)>) -> MetaTokenState
    decreases lines.len(),
{
    if lines.len() == 0 {
        empty_meta_tokens()
    } else {
        meta_line_step(meta_scan_state(lines.drop_last(), answers), lines.last(), answers[lines.len() - 1])
    }
}

/// Whether every line of the metadata scan got answers its helpers can give.
pub open spec fn meta_scan_answers_given<E, C, R>(
    estimate_output: E,
    cache_creation: C,
    replaces: R,
    lines: Seq<Seq<char>>,
    answers: Seq<(i64, i64, bool)>,
) -> bool where
    E: Fn(&JsonValue) -> i64,
    C: Fn(&JsonValue) -> i64,
    R: Fn(&TokenSnapshot, &TokenSnapshot) -> bool,
    decreases lines.len(),
{
    if lines.len() == 0 {
        true
    } else {
        &&& meta_scan_answers_given(estimate_output, cache_creation, replaces, lines.drop_last(), answers)
        &&& meta_line_answers_given(
            estimate_output,
            cache_creation,
            replaces,
            meta_scan_state(lines.drop_last(), answers),
            lines.last(),
            answers[lines.len() - 1],
        )
    }
}

proof fn lemma_meta_scan_answers_prefix<E, C, R>(
    estimate_output: E,
    cache_creation: C,
    replaces: R,
    lines: Seq<Seq<char>>,
    a1: Seq<(i64, i64, bool)>,
    a2: Seq<(i64, i64, bool)>,
) where
    E: Fn(&JsonValue) -> i64,
    C: Fn(&JsonValue) -> i64,
    R: Fn(&TokenSnapshot, &TokenSnapshot) -> bool,
    requires
        a1.len() >= lines.len(),
        a2.len() >= lines.len(),
        forall|k: int| 0 <= k < lines.len() ==> a1[k] == a2[k],
    ensures
        meta_scan_state(lines, a1) == meta_scan_state(lines, a2),
        meta_scan_answers_given(estimate_output, cache_creation, replaces, lines, a1)
            == meta_scan_answers_given(estimate_output, cache_creation, replaces, lines, a2),
    decreases lines.len(),
{
    if lines.len() > 0 {
        lemma_meta_scan_answers_prefix(estimate_output, cache_creation, replaces, lines.drop_last(), a1, a2);
    }
}

/// The context occupancy is that of the last complete turn, not a running
/// sum: after a main-chain entry with a stop reason it is that entry's input
/// + cache read + cache creation, whatever came before.
pub proof fn lemma_context_is_last_turn(st: MetaTokenState, raw: JsonValue, usage: JsonValue, est: i64, cc: i64, replace: bool)
    requires
        member_text(raw, "uuid"@).len() > 0,
        counted_usage(raw) == Some(usage),
        !is_sidechain(raw),
        has_stop(raw),
    ensures
        meta_token_step(st, Some(raw), est, cc, replace).context == Some(
            wadd(wadd(i64_or_zero(usage, "input_tokens"@), i64_or_zero(usage, "cache_read_input_tokens"@)), cc),
        ),
{
}

/// The token totals and context occupancy that the metadata scan reports.
pub struct MetaTokens {
    pub totals: TokenTotals,
    pub context_tokens: i64,
}

/// The lines of `data` read from byte `from` on: each runs through the next
/// newline; reading stops before an unterminated last line (a write still in
/// progress, read again once it is complete) and before a line that is not
/// UTF-8. Also gives the number of bytes read.
pub open spec fn read_lines_from(data: Seq<u8>, from: int) -> (Seq<Seq<char>>, int)
    decreases data.len() - from,
{
    if from < 0 || from >= data.len() {
        (Seq::empty(), 0)
    } else {
        match newline_from(data, from) {
            None => (Seq::empty(), 0),
            Some(k) => match utf8_text(data.subrange(from, k + 1)) {
                None => (Seq::empty(), 0),
                Some(t) => {
                    proof {
                        lemma_newline_bounds(data, from);
                    }
                    let rest = read_lines_from(data, k + 1);
                    (seq![t] + rest.0, (k + 1 - from) + rest.1)
                },
            },
        }
    }
}

proof fn lemma_read_lines_bounds(data: Seq<u8>, from: int)
    requires
        0 <= from <= data.len(),
    ensures
        0 <= read_lines_from(data, from).1 <= data.len() - from,
    decreases data.len() - from,
{
    if from < data.len() {
        lemma_newline_bounds(data, from);
        if let Some(k) = newline_from(data, from) {
            lemma_read_lines_bounds(data, k + 1);
        }
    }
}

proof fn lemma_newline_skip(data: Seq<u8>, from: int)
    requires
        0 <= from < data.len(),
        data[from] != 10u8,
    ensures
        newline_from(data, from) == newline_from(data, from + 1),
{
}

proof fn lemma_read_lines_extends(a: Seq<u8>, b: Seq<u8>, from: int)
    requires
        0 <= from <= a.len(),
    ensures
        read_lines_from(a + b, from).0 == read_lines_from(a, from).0 + read_lines_from(a + b, from + read_lines_from(a, from).1).0,
        read_lines_from(a + b, from).1 == read_lines_from(a, from).1 + read_lines_from(a + b, from + read_lines_from(a, from).1).1,
    decreases a.len() - from,
{
    lemma_newline_bounds(a, from);
    if from == a.len() || newline_from(a, from) is None {
        assert(read_lines_from(a, from).0 + read_lines_from(a + b, from).0 =~= read_lines_from(a + b, from).0);
    } else {
        lemma_newline_extends(a, b, from);
        let k = newline_from(a, from)->0;
        assert((a + b).subrange(from, k + 1) =~= a.subrange(from, k + 1));
        match utf8_text(a.subrange(from, k + 1)) {
            None => {
                assert(read_lines_from(a, from).0 + read_lines_from(a + b, from).0 =~= read_lines_from(a + b, from).0);
            },
            Some(t) => {
                lemma_read_lines_extends(a, b, k + 1);
                lemma_read_lines_bounds(a, k + 1);
                let rest_a = read_lines_from(a, k + 1);
                let rest_ab = read_lines_from(a + b, k + 1 + rest_a.1);
                assert(seq![t] + (rest_a.0 + rest_ab.0) =~= (seq![t] + rest_a.0) + rest_ab.0);
            },
        }
    }
}

proof fn lemma_read_lines_shift(d: Seq<u8>, from: int, j: int)
    requires
        0 <= from <= d.len(),
        0 <= j,
    ensures
        read_lines_from(d, from + j) == read_lines_from(d.skip(from), j),
    decreases d.len() - from - j,
{
    if from + j < d.len() {
        lemma_newline_shift(d, from, j);
        lemma_newline_bounds(d.skip(from), j);
        if let Some(k) = newline_from(d.skip(from), j) {
            assert(d.subrange(from + j, k + from + 1) =~= d.skip(from).subrange(j, k + 1));
            lemma_read_lines_shift(d, from, k + 1);
        }
    }
}

/// Reading a session file that grows by appends, in the steps the scanner
/// takes: after a read of `a` (which may end in the middle of a line),
/// reading `a + b` from the offset that read reached gives the rest of the
/// lines that one read of `a + b` gives, and the bytes read add up.
pub proof fn lemma_bytes_read_in_pieces(a: Seq<u8>, b: Seq<u8>)
    ensures
        read_lines_from(a + b, 0).0 == read_lines_from(a, 0).0 + read_lines_from((a + b).skip(read_lines_from(a, 0).1), 0).0,
        read_lines_from(a + b, 0).1 == read_lines_from(a, 0).1 + read_lines_from((a + b).skip(read_lines_from(a, 0).1), 0).1,
{
    lemma_read_lines_extends(a, b, 0);
    lemma_read_lines_bounds(a, 0);
    lemma_read_lines_shift(a + b, read_lines_from(a, 0).1, 0);
}

/// The scanner holds the current totals of the whole file: for any file
/// `a` that later grows to `a + b` (the first read may end in the middle of
/// a line), scanning what `a` gives and then the bytes from the offset
/// reached gives the state of scanning `a + b` at once, line by line with
/// the same helper answers; and answers the helpers can give for the one
/// read are answers they can give for the two reads, and back.
pub proof fn lemma_scanner_reads_appends<E, C, R>(
    estimate_output: E,
    cache_creation: C,
    replaces: R,
    st: TokenState,
    a: Seq<u8>,
    b: Seq<u8>,
    answers: Seq<(i64, i64, bool)>,
) where
    E: Fn(&JsonValue) -> i64,
    C: Fn(&JsonValue) -> i64,
    R: Fn(&TokenSnapshot, &TokenSnapshot) -> bool,
    requires
        answers.len() == read_lines_from(a + b, 0).0.len(),
    ensures
        ({
            let first = read_lines_from(a, 0);
            let second = read_lines_from((a + b).skip(first.1), 0);
            let whole = read_lines_from(a + b, 0).0;
            &&& scan_state(st, whole, answers) == scan_state(
                scan_state(st, first.0, answers),
                second.0,
                answers.skip(first.0.len() as int),
            )
            &&& scan_answers_given(estimate_output, cache_creation, replaces, st, whole, answers) == (
                scan_answers_given(estimate_output, cache_creation, replaces, st, first.0, answers)
                && scan_answers_given(
                    estimate_output,
                    cache_creation,
                    replaces,
                    scan_state(st, first.0, answers),
                    second.0,
                    answers.skip(first.0.len() as int),
                ))
        }),
{
    lemma_bytes_read_in_pieces(a, b);
    let first = read_lines_from(a, 0);
    let second = read_lines_from((a + b).skip(first.1), 0);
    lemma_token_scan_in_pieces(estimate_output, cache_creation, replaces, st, first.0, second.0, answers);
}

/// The `i64` that `x` wraps to: the one congruent to `x` modulo 2^64.
#[verifier::opaque]
pub open spec fn wrap64(x: int) -> int {
    ((x + 0x8000_0000_0000_0000) % 0x1_0000_0000_0000_0000) - 0x8000_0000_0000_0000
}

proof fn lemma_wrap64_small(x: int)
    requires
        i64::MIN <= x <= i64::MAX,
    ensures
        wrap64(x) == x,
{
    reveal(wrap64);
    vstd::arithmetic::div_mod::lemma_small_mod((x + 0x8000_0000_0000_0000) as nat, 0x1_0000_0000_0000_0000);
}

proof fn lemma_wadd_wraps(x: i64, y: i64)
    ensures
        wadd(x, y) as int == wrap64(x + y),
{
    reveal(wrap64);
    let m: int = 0x1_0000_0000_0000_0000;
    let h: int = 0x8000_0000_0000_0000;
    if x + y > i64::MAX {
        lemma_wrap64_small(x + y - m);
        vstd::arithmetic::div_mod::lemma_mod_add_multiples_vanish(x + y - m + h, m);
    } else if x + y < i64::MIN {
        lemma_wrap64_small(x + y + m);
        vstd::arithmetic::div_mod::lemma_mod_sub_multiples_vanish(x + y + m + h, m);
    } else {
        lemma_wrap64_small(x + y);
    }
}

proof fn lemma_wrap64_add(a: int, b: int)
    ensures
        wrap64(wrap64(a) + b) == wrap64(a + b),
        wrap64(b + wrap64(a)) == wrap64(a + b),
{
    reveal(wrap64);
    let m: int = 0x1_0000_0000_0000_0000;
    let h: int = 0x8000_0000_0000_0000;
    vstd::arithmetic::div_mod::lemma_add_mod_noop_right(b, a + h, m);
    assert(wrap64(a) + b + h == b + (a + h) % m);
    assert(a + b + h == b + (a + h));
}

/// The wrapping sum of the four counts.
pub open spec fn wsum4(a: i64, b: i64, c: i64, d: i64) -> i64 {
    wadd(wadd(wadd(a, b), c), d)
}

proof fn lemma_wsum4_wraps(a: i64, b: i64, c: i64, d: i64)
    ensures
        wsum4(a, b, c, d) as int == wrap64(a + b + c + d),
{
    lemma_wadd_wraps(a, b);
    lemma_wadd_wraps(wadd(a, b), c);
    lemma_wadd_wraps(wadd(wadd(a, b), c), d);
    lemma_wrap64_add(a + b, c as int);
    lemma_wrap64_add(a + b + c, d as int);
}

/// The reported total is the sum of its parts: in every state the total
/// count is input + output + cache read + cache creation (wrapping, as all
/// the counts are).
pub proof fn lemma_total_is_sum_of_parts(st: TokenState)
    ensures
        ({
            let c = counts_of(st);
            c.0 == wsum4(c.1, c.2, c.3, c.4)
        }),
{
    lemma_counts_over_sum(st.fallback, st.requests);
}

proof fn lemma_counts_over_sum(fallback: SnapView, reqs: Seq<(Seq<char>, SnapView)>)
    ensures
        ({
            let c = counts_over(fallback, reqs);
            c.0 == wsum4(c.1, c.2, c.3, c.4)
        }),
    decreases reqs.len(),
{
    if reqs.len() > 0 {
        lemma_counts_over_sum(fallback, reqs.drop_last());
        let p = counts_over(fallback, reqs.drop_last());
        let s = reqs.last().1;
        let c = counts_over(fallback, reqs);
        lemma_wsum4_wraps(p.1, p.2, p.3, p.4);
        lemma_wsum4_wraps(s.input, s.output, s.cache_read, s.cache_create);
        lemma_wsum4_wraps(c.1, c.2, c.3, c.4);
        lemma_wadd_wraps(p.0, snap_total(s));
        lemma_wadd_wraps(p.1, s.input);
        lemma_wadd_wraps(p.2, s.output);
        lemma_wadd_wraps(p.3, s.cache_read);
        lemma_wadd_wraps(p.4, s.cache_create);
        let ps = p.1 + p.2 + p.3 + p.4;
        let ss = s.input + s.output + s.cache_read + s.cache_create;
        let x1 = p.1 + s.input;
        let x2 = p.2 + s.output;
        let x3 = p.3 + s.cache_read;
        let x4 = p.4 + s.cache_create;
        assert(ps + ss == x1 + x2 + x3 + x4);
        // The total: wrap(wrap(ps) + wrap(ss)) == wrap(ps + ss).
        assert(c.0 as int == wrap64(wrap64(ps) + wrap64(ss)));
        lemma_wrap64_add(ps, wrap64(ss));
        lemma_wrap64_add(ss, ps);
        assert(c.0 as int == wrap64(ps + ss));
        // The parts: replace each wrapped part by its sum, one at a time.
        let w1 = wrap64(x1);
        let w2 = wrap64(x2);
        let w3 = wrap64(x3);
        let w4 = wrap64(x4);
        assert(wsum4(c.1, c.2, c.3, c.4) as int == wrap64(w1 + w2 + w3 + w4));
        lemma_wrap64_add(x1, w2 + w3 + w4);
        assert(w1 + w2 + w3 + w4 == w1 + (w2 + w3 + w4));
        assert(wrap64(w1 + w2 + w3 + w4) == wrap64(x1 + (w2 + w3 + w4)));
        lemma_wrap64_add(x2, x1 + w3 + w4);
        assert(x1 + (w2 + w3 + w4) == w2 + (x1 + w3 + w4));
        assert(wrap64(x1 + (w2 + w3 + w4)) == wrap64(x2 + (x1 + w3 + w4)));
        lemma_wrap64_add(x3, x1 + x2 + w4);
        assert(x2 + (x1 + w3 + w4) == w3 + (x1 + x2 + w4));
        assert(wrap64(x2 + (x1 + w3 + w4)) == wrap64(x3 + (x1 + x2 + w4)));
        lemma_wrap64_add(x4, x1 + x2 + x3);
        assert(x3 + (x1 + x2 + w4) == w4 + (x1 + x2 + x3));
        assert(wrap64(x3 + (x1 + x2 + w4)) == wrap64(x4 + (x1 + x2 + x3)));
        assert(x4 + (x1 + x2 + x3) == ps + ss);
    }
}

/// The running totals of a token scan.
pub struct TokenTotals {
    pub total_tokens: i64,
    pub input_tokens: i64,
    pub output_tokens: i64,
    pub cache_read_tokens: i64,
    pub cache_creation_tokens: i64,
    pub model: String,
}

/// The counts summed over the fallback and the first `reqs.len()` request
/// snapshots: (total, input, output, cache read, cache creation), wrapping.
pub open spec fn counts_over(fallback: SnapView, reqs: Seq<(Seq<char>, SnapView)>) -> (i64, i64, i64, i64, i64)
    decreases reqs.len(),
{
    if reqs.len() == 0 {
        (snap_total(fallback), fallback.input, fallback.output, fallback.cache_read, fallback.cache_create)
    } else {
        let p = counts_over(fallback, reqs.drop_last());
        let s = reqs.last().1;
        (wadd(p.0, snap_total(s)), wadd(p.1, s.input), wadd(p.2, s.output), wadd(p.3, s.cache_read), wadd(p.4, s.cache_create))
    }
}

/// The counts of a state.
pub open spec fn counts_of(st: TokenState) -> (i64, i64, i64, i64, i64) {
    counts_over(st.fallback, st.requests)
}

/// An incremental token scanner: it reads transcript lines one at a time and
/// keeps one best snapshot per request id, shared by the main session file
/// and its subagent transcripts. It records how far each file was read (and
/// each subagent file's size, so that one is read again only when it grew),
/// so that reading a file in appended pieces gives the totals of reading it
/// whole.
pub struct IncrementalTokenScanner {
    requests: Vec<(String, TokenSnapshot)>,
    fallback: TokenSnapshot,
    model: String,
    offset: u64,
    subagent_sizes: StrMap<u64>,
    subagent_offsets: StrMap<u64>,
}

/// The value of a list of (request id, snapshot) pairs.
pub open spec fn request_views(v: Seq<(String, TokenSnapshot)>) -> Seq<(Seq<char>, SnapView)> {
    v.map_values(|p: (String, TokenSnapshot)| (p.0@, p.1@))
}

impl IncrementalTokenScanner {
    /// The number of bytes of the main session file read so far.
    pub closed spec fn bytes_read(self) -> u64 {
        self.offset
    }

    /// The size of each subagent file when it was last read, by file name.
    pub closed spec fn subagent_sizes(self) -> Map<Seq<char>, u64> {
        self.subagent_sizes@
    }

    /// The number of bytes read of each subagent file, by file name.
    pub closed spec fn subagent_offsets(self) -> Map<Seq<char>, u64> {
        self.subagent_offsets@
    }

    /// How far every file has been read.
    pub open spec fn read_progress(self) -> (u64, Map<Seq<char>, u64>, Map<Seq<char>, u64>) {
        (self.bytes_read(), self.subagent_sizes(), self.subagent_offsets())
    }
}

/// The value recorded under `k`, or 0.
pub open spec fn recorded(m: Map<Seq<char>, u64>, k: Seq<char>) -> u64 {
    if m.dom().contains(k) { m[k] } else { 0 }
}

/// Whether a file name is that of a subagent transcript: `agent-*.jsonl`.
pub open spec fn is_subagent_name(n: Seq<char>) -> bool {
    starts_with(n, "agent-"@) && ends_with(n, ".jsonl"@)
}

/// Whether `name` is the file name of a subagent transcript: `agent-*.jsonl`.
pub fn is_subagent_file_name(name: &str) -> (r: bool)
    ensures
        r == is_subagent_name(name@),
{
    let nc = chars_of(name);
    chars_start_with(&nc, "agent-") && chars_end_with(&nc, ".jsonl")
}

/// The subagent files to read, in the order listed: each listed file
/// (name, current size) with a subagent name whose size grew past the one
/// recorded, paired with the offset to read it from (0 for a new file).
pub open spec fn due_reads(files: Seq<(Seq<char>, u64)>, sizes: Map<Seq<char>, u64>, offsets: Map<Seq<char>, u64>) -> Seq<(Seq<char>, u64)>
    decreases files.len(),
{
    if files.len() == 0 {
        Seq::empty()
    } else {
        let p = due_reads(files.drop_last(), sizes, offsets);
        let f = files.last();
        if is_subagent_name(f.0) && f.1 > recorded(sizes, f.0) {
            p.push((f.0, recorded(offsets, f.0)))
        } else {
            p
        }
    }
}

/// The value of a list of (name, number) pairs.
pub open spec fn named_numbers(v: Seq<(String, u64)>) -> Seq<(Seq<char>, u64)> {
    v.map_values(|p: (String, u64)| (p.0@, p.1))
}

impl View for IncrementalTokenScanner {
    type V = TokenState;

    closed spec fn view(&self) -> TokenState {
        TokenState { requests: request_views(self.requests@), fallback: self.fallback@, model: self.model@ }
    }
}

impl Default for IncrementalTokenScanner {
    /// The same as [`IncrementalTokenScanner::new`].
    fn default() -> (r: IncrementalTokenScanner)
        ensures
            r@ == empty_tokens(),
            r.bytes_read() == 0,
            r.subagent_sizes() == Map::<Seq<char>, u64>::empty(),
            r.subagent_offsets() == Map::<Seq<char>, u64>::empty(),
    {
        IncrementalTokenScanner::new()
    }
}

/// The `i64` at `v[key]`, or 0.
fn i64_member_or_zero(v: &JsonValue, key: &str) -> (r: i64)
    ensures
        r == i64_or_zero(*v, key@),
{
    match v.get(key) {
        Some(x) => match x.as_i64() {
            Some(n) => n,
            None => 0,
        },
        None => 0,
    }
}

/// `v[key]` of an optional value.
fn opt_member<'a>(v: Option<&'a JsonValue>, key: &str) -> (r: Option<&'a JsonValue>)
    ensures
        match v {
            Some(x) => match r {
                Some(y) => json_get(*x, key@) == Some(*y),
                None => json_get(*x, key@) is None,
            },
            None => r is None,
        },
{
    match v {
        Some(x) => x.get(key),
        None => None,
    }
}

impl IncrementalTokenScanner {
    /// A scanner that has read nothing.
    pub fn new() -> (r: IncrementalTokenScanner)
        ensures
            r@ == empty_tokens(),
            r.bytes_read() == 0,
            r.subagent_sizes() == Map::<Seq<char>, u64>::empty(),
            r.subagent_offsets() == Map::<Seq<char>, u64>::empty(),
    {
        let r = IncrementalTokenScanner {
            requests: Vec::new(),
            fallback: TokenSnapshot::zero(),
            model: String::new(),
            offset: 0,
            subagent_sizes: StrMap::new(),
            subagent_offsets: StrMap::new(),
        };
        assert(request_views(r.requests@) =~= Seq::<(Seq<char>, SnapView)>::empty());
        r
    }

    /// Record `snap` for request `id`, asking `replaces` (older, newer) only
    /// when `id` is already known; returns the answer used (`false` when
    /// nothing was asked).
    fn put_best<R: Fn(&TokenSnapshot, &TokenSnapshot) -> bool>(&mut self, id: &str, snap: TokenSnapshot, replaces: &R) -> (r: bool)
        requires
            forall|a: &TokenSnapshot, b: &TokenSnapshot| call_requires(*replaces, (a, b)),
        ensures
            final(self)@ == (TokenState { requests: put_best(old(self)@.requests, id@, snap@, r), ..old(self)@ }),
            final(self).read_progress() == old(self).read_progress(),
            id_position(old(self)@.requests, id@) matches Some(i) ==> replace_given(*replaces, old(self)@.requests[i].1, snap@, r),
    {
        let ghost reqs = self@.requests;
        let mut i: usize = self.requests.len();
        assert(reqs.take(reqs.len() as int) =~= reqs);
        while i > 0
            invariant
                i <= self.requests@.len(),
                self@ == old(self)@,
                self.read_progress() == old(self).read_progress(),
                reqs.len() == self.requests@.len(),
                forall|a: &TokenSnapshot, b: &TokenSnapshot| call_requires(*replaces, (a, b)),
                reqs == request_views(self.requests@),
                id_position(reqs, id@) == id_position(reqs.take(i as int), id@),
            decreases i,
        {
            assert(reqs.take(i as int).drop_last() =~= reqs.take(i - 1));
            assert(reqs.take(i as int).last() == reqs[i - 1]);
            if str_eq(self.requests[i - 1].0.as_str(), id) {
                let k = i - 1;
                assert(id_position(reqs, id@) == Some(k as int));
                let replace = replaces(&self.requests[k].1, &snap);
                assert(replace_given(*replaces, reqs[k as int].1, snap@, replace)) by {
                    assert(self.requests@[k as int].1@ == reqs[k as int].1);
                }
                if replace {
                    let ghost old_v = self.requests@;
                    self.requests.set(k, (String::from_str(id), snap));
                    assert(request_views(self.requests@) =~= reqs.update(k as int, (id@, snap@)));
                }
                return replace;
            }
            i = i - 1;
        }
        assert(reqs.take(0) =~= Seq::<(Seq<char>, SnapView)>::empty());
        let ghost sv = snap@;
        self.requests.push((String::from_str(id), snap));
        assert(request_views(self.requests@) =~= reqs.push((id@, sv)));
        false
    }

    /// Read one parsed transcript entry, as [`token_step`] describes.
    pub fn process_entry<E, C, R>(&mut self, raw: &JsonValue, estimate_output: &E, cache_creation: &C, replaces: &R)
        where
            E: Fn(&JsonValue) -> i64,
            C: Fn(&JsonValue) -> i64,
            R: Fn(&TokenSnapshot, &TokenSnapshot) -> bool,
        requires
            forall|v: &JsonValue| call_requires(*estimate_output, (v,)),
            forall|v: &JsonValue| call_requires(*cache_creation, (v,)),
            forall|a: &TokenSnapshot, b: &TokenSnapshot| call_requires(*replaces, (a, b)),
        ensures
            exists|est: i64, cc: i64, replace: bool|
                answers_given(*estimate_output, *cache_creation, *replaces, old(self)@, Some(*raw), est, cc, replace)
                && final(self)@ == token_step(old(self)@, Some(*raw), est, cc, replace),
            final(self).read_progress() == old(self).read_progress(),
    {
        let ghost st = self@;
        if raw.get("forkedFrom").is_some() {
            assert(answers_given(*estimate_output, *cache_creation, *replaces, st, Some(*raw), 0, 0, false)
                && self@ == token_step(st, Some(*raw), 0, 0, false));
            return;
        }
        if !str_eq(member_or_empty(raw, "type"), "assistant") {
            assert(answers_given(*estimate_output, *cache_creation, *replaces, st, Some(*raw), 0, 0, false)
                && self@ == token_step(st, Some(*raw), 0, 0, false));
            return;
        }
        let message = raw.get("message");
        let model_str: &str = match message {
            Some(m) => member_or_empty(m, "model"),
            None => {
                proof {
                    reveal_strlit("");
                }
                ""
            },
        };
        assert(model_str@ == model_of(*raw));
        if str_eq(model_str, "<synthetic>") {
            assert(answers_given(*estimate_output, *cache_creation, *replaces, st, Some(*raw), 0, 0, false)
                && self@ == token_step(st, Some(*raw), 0, 0, false));
            return;
        }
        let usage = match opt_member(message, "usage") {
            Some(u) => u,
            None => {
                assert(answers_given(*estimate_output, *cache_creation, *replaces, st, Some(*raw), 0, 0, false)
                    && self@ == token_step(st, Some(*raw), 0, 0, false));
                return;
            },
        };
        assert(counted_usage(*raw) == Some(*usage));
        let stop = match opt_member(message, "stop_reason") {
            Some(v) => match v.as_str() {
                Some(s) => !s.as_str().is_empty(),
                None => false,
            },
            None => false,
        };
        assert(stop == has_stop(*raw));
        let reported = i64_member_or_zero(usage, "output_tokens");
        let mut est: i64 = 0;
        if !stop {
            est = estimate_output(raw);
        }
        let output = if stop || est <= reported { reported } else { est };
        let inp = i64_member_or_zero(usage, "input_tokens");
        let cr = i64_member_or_zero(usage, "cache_read_input_tokens");
        let cc = cache_creation(usage);
        let snap = TokenSnapshot {
            input: inp,
            output,
            cache_read: cr,
            cache_create: cc,
            model: String::from_str(model_str),
            has_stop_reason: stop,
        };
        let ghost sv = snap@;
        assert(sv == snapshot_of(*raw, *usage, est, cc));
        let total = inp.wrapping_add(output).wrapping_add(cr).wrapping_add(cc);
        if total == 0 {
            assert(answers_given(*estimate_output, *cache_creation, *replaces, st, Some(*raw), est, cc, false)
                && self@ == token_step(st, Some(*raw), est, cc, false));
            return;
        }
        let id = member_or_empty(raw, "requestId");
        let mut replace = false;
        if !id.is_empty() {
            replace = self.put_best(id, snap, replaces);
        } else {
            self.fallback.input = self.fallback.input.wrapping_add(inp);
            self.fallback.output = self.fallback.output.wrapping_add(output);
            self.fallback.cache_read = self.fallback.cache_read.wrapping_add(cr);
            self.fallback.cache_create = self.fallback.cache_create.wrapping_add(cc);
        }
        if self.model.as_str().is_empty() && !model_str.is_empty() {
            self.model = String::from_str(model_str);
        }
        assert(answers_given(*estimate_output, *cache_creation, *replaces, st, Some(*raw), est, cc, replace));
        assert(self@ == token_step(st, Some(*raw), est, cc, replace));
    }

    /// Read one transcript line: a line that is not JSON is skipped, and an
    /// entry is read as [`IncrementalTokenScanner::process_entry`] describes.
    pub fn process_line<E, C, R>(&mut self, line: &str, estimate_output: &E, cache_creation: &C, replaces: &R)
        where
            E: Fn(&JsonValue) -> i64,
            C: Fn(&JsonValue) -> i64,
            R: Fn(&TokenSnapshot, &TokenSnapshot) -> bool,
        requires
            forall|v: &JsonValue| call_requires(*estimate_output, (v,)),
            forall|v: &JsonValue| call_requires(*cache_creation, (v,)),
            forall|a: &TokenSnapshot, b: &TokenSnapshot| call_requires(*replaces, (a, b)),
        ensures
            exists|est: i64, cc: i64, replace: bool|
                answers_given(*estimate_output, *cache_creation, *replaces, old(self)@, parsed_json(line@), est, cc, replace)
                && final(self)@ == token_step(old(self)@, parsed_json(line@), est, cc, replace),
            final(self).read_progress() == old(self).read_progress(),
    {
        match JsonValue::parse(line) {
            Some(raw) => self.process_entry(&raw, estimate_output, cache_creation, replaces),
            None => {
                assert(answers_given(*estimate_output, *cache_creation, *replaces, self@, parsed_json(line@), 0, 0, false)
                    && self@ == token_step(self@, parsed_json(line@), 0, 0, false));
            },
        }
    }

    /// The totals of what was read: the fallback sum and every request's
    /// best snapshot added up, and the model.
    pub fn compute_totals(&self) -> (r: TokenTotals)
        ensures
            (r.total_tokens, r.input_tokens, r.output_tokens, r.cache_read_tokens, r.cache_creation_tokens) == counts_of(self@),
            r.model@ == self@.model,
    {
        let f = &self.fallback;
        let mut total = f.input.wrapping_add(f.output).wrapping_add(f.cache_read).wrapping_add(f.cache_create);
        let mut input = f.input;
        let mut output = f.output;
        let mut cache_read = f.cache_read;
        let mut cache_create = f.cache_create;
        let ghost reqs = self@.requests;
        let mut i: usize = 0;
        assert(reqs.take(0) =~= Seq::<(Seq<char>, SnapView)>::empty());
        while i < self.requests.len()
            invariant
                i <= self.requests@.len(),
                reqs == request_views(self.requests@),
                (total, input, output, cache_read, cache_create) == counts_over(self@.fallback, reqs.take(i as int)),
            decreases self.requests.len() - i,
        {
            assert(reqs.take(i + 1).drop_last() =~= reqs.take(i as int));
            assert(reqs.take(i + 1).last() == reqs[i as int]);
            let s = &self.requests[i].1;
            total = total.wrapping_add(s.input.wrapping_add(s.output).wrapping_add(s.cache_read).wrapping_add(s.cache_create));
            input = input.wrapping_add(s.input);
            output = output.wrapping_add(s.output);
            cache_read = cache_read.wrapping_add(s.cache_read);
            cache_create = cache_create.wrapping_add(s.cache_create);
            i = i + 1;
        }
        assert(reqs.take(reqs.len() as int) =~= reqs);
        TokenTotals {
            total_tokens: total,
            input_tokens: input,
            output_tokens: output,
            cache_read_tokens: cache_read,
            cache_creation_tokens: cache_create,
            model: self.model.clone(),
        }
    }

    /// Read transcript lines in order, each with surrounding white space
    /// trimmed, as [`IncrementalTokenScanner::process_line`] describes; returns the
    /// totals afterwards.
    pub fn scan_lines<E, C, R>(&mut self, lines: &[String], estimate_output: &E, cache_creation: &C, replaces: &R) -> (r: TokenTotals)
        where
            E: Fn(&JsonValue) -> i64,
            C: Fn(&JsonValue) -> i64,
            R: Fn(&TokenSnapshot, &TokenSnapshot) -> bool,
        requires
            forall|v: &JsonValue| call_requires(*estimate_output, (v,)),
            forall|v: &JsonValue| call_requires(*cache_creation, (v,)),
            forall|a: &TokenSnapshot, b: &TokenSnapshot| call_requires(*replaces, (a, b)),
        ensures
            exists|answers: Seq<(i64, i64, bool)>|
                answers.len() == lines@.len()
                && scan_answers_given(*estimate_output, *cache_creation, *replaces, old(self)@, views(lines@), answers)
                && final(self)@ == scan_state(old(self)@, views(lines@), answers),
            final(self).read_progress() == old(self).read_progress(),
            (r.total_tokens, r.input_tokens, r.output_tokens, r.cache_read_tokens, r.cache_creation_tokens) == counts_of(final(self)@),
            r.model@ == final(self)@.model,
    {
        let ghost st0 = self@;
        let ghost mut answers: Seq<(i64, i64, bool)> = Seq::empty();
        let mut i: usize = 0;
        while i < lines.len()
            invariant
                i <= lines@.len(),
                answers.len() == i,
                forall|v: &JsonValue| call_requires(*estimate_output, (v,)),
                forall|v: &JsonValue| call_requires(*cache_creation, (v,)),
                forall|a: &TokenSnapshot, b: &TokenSnapshot| call_requires(*replaces, (a, b)),
                scan_answers_given(*estimate_output, *cache_creation, *replaces, st0, views(lines@.take(i as int)), answers),
                self@ == scan_state(st0, views(lines@.take(i as int)), answers),
                self.read_progress() == old(self).read_progress(),
            decreases lines.len() - i,
        {
            let ghost prefix = views(lines@.take(i as int));
            let ghost before = self@;
            assert(views(lines@.take(i + 1)).drop_last() =~= prefix);
            assert(views(lines@.take(i + 1)).last() == lines@[i as int]@);
            let t = trim(lines[i].as_str());
            self.process_line(t.as_str(), estimate_output, cache_creation, replaces);
            proof {
                let (e, c, b) = choose|e: i64, c: i64, b: bool|
                    answers_given(*estimate_output, *cache_creation, *replaces, before, parsed_json(t@), e, c, b)
                    && self@ == token_step(before, parsed_json(t@), e, c, b);
                let next = answers.push((e, c, b));
                reveal(line_step);
                reveal(line_answers_given);
                lemma_scan_answers_prefix(*estimate_output, *cache_creation, *replaces, st0, prefix, answers, next);
                answers = next;
            }
            i = i + 1;
        }
        assert(lines@.take(lines@.len() as int) =~= lines@);
        self.compute_totals()
    }

    /// The number of bytes of the main session file read so far.
    pub fn offset(&self) -> (r: u64)
        ensures
            r == self.bytes_read(),
    {
        self.offset
    }

    /// Read the complete lines of `data` as [`read_lines_from`] frames them,
    /// each as [`IncrementalTokenScanner::scan_lines`] describes; returns the
    /// number of bytes read. The offsets are left as they are.
    fn read_framed<E, C, R>(&mut self, data: &[u8], estimate_output: &E, cache_creation: &C, replaces: &R) -> (n: usize)
        where
            E: Fn(&JsonValue) -> i64,
            C: Fn(&JsonValue) -> i64,
            R: Fn(&TokenSnapshot, &TokenSnapshot) -> bool,
        requires
            forall|v: &JsonValue| call_requires(*estimate_output, (v,)),
            forall|v: &JsonValue| call_requires(*cache_creation, (v,)),
            forall|a: &TokenSnapshot, b: &TokenSnapshot| call_requires(*replaces, (a, b)),
        ensures
            n as int == read_lines_from(data@, 0).1,
            n <= data@.len(),
            final(self).read_progress() == old(self).read_progress(),
            exists|answers: Seq<(i64, i64, bool)>|
                answers.len() == read_lines_from(data@, 0).0.len()
                && scan_answers_given(*estimate_output, *cache_creation, *replaces, old(self)@, read_lines_from(data@, 0).0, answers)
                && final(self)@ == scan_state(old(self)@, read_lines_from(data@, 0).0, answers),
    {
        let ghost d = data@;
        let ghost st0 = self@;
        let ghost mut done: Seq<Seq<char>> = Seq::empty();
        let ghost mut answers: Seq<(i64, i64, bool)> = Seq::empty();
        let mut i: usize = 0;
        let mut stopped = false;
        proof {
            lemma_read_lines_bounds(d, 0);
        }
        while i < data.len() && !stopped
            invariant
                d == data@,
                i <= d.len(),
                self.read_progress() == old(self).read_progress(),
                answers.len() == done.len(),
                read_lines_from(d, 0).0 == done + read_lines_from(d, i as int).0,
                read_lines_from(d, 0).1 == i + read_lines_from(d, i as int).1,
                stopped ==> read_lines_from(d, i as int) == (Seq::<Seq<char>>::empty(), 0int),
                forall|v: &JsonValue| call_requires(*estimate_output, (v,)),
                forall|v: &JsonValue| call_requires(*cache_creation, (v,)),
                forall|a: &TokenSnapshot, b: &TokenSnapshot| call_requires(*replaces, (a, b)),
                scan_answers_given(*estimate_output, *cache_creation, *replaces, st0, done, answers),
                self@ == scan_state(st0, done, answers),
            decreases d.len() - i + (if stopped { 0int } else { 1int }),
        {
            let mut j: usize = i;
            while j < data.len() && data[j] != 10u8
                invariant
                    d == data@,
                    i <= j <= d.len(),
                    i < d.len(),
                    newline_from(d, i as int) == newline_from(d, j as int),
                decreases d.len() - j,
            {
                proof {
                    lemma_newline_skip(d, j as int);
                }
                j = j + 1;
            }
            if j == data.len() {
                stopped = true;
            } else {
                let end: usize = j + 1;
                assert(newline_from(d, i as int) == Some(j as int));
                let piece = slice_subrange(data, i, end);
                match decode_utf8(piece) {
                    None => {
                        stopped = true;
                    },
                    Some(text) => {
                        let ghost prefix = done;
                        let ghost before = self@;
                        let ghost rest = read_lines_from(d, end as int);
                        assert(read_lines_from(d, i as int).0 == seq![text@] + rest.0);
                        assert(done + read_lines_from(d, i as int).0 =~= done.push(text@) + rest.0);
                        proof {
                            lemma_read_lines_bounds(d, end as int);
                        }
                        let t = trim(text.as_str());
                        self.process_line(t.as_str(), estimate_output, cache_creation, replaces);
                        proof {
                            let (e, c, b) = choose|e: i64, c: i64, b: bool|
                                answers_given(*estimate_output, *cache_creation, *replaces, before, parsed_json(t@), e, c, b)
                                && self@ == token_step(before, parsed_json(t@), e, c, b);
                            let next = answers.push((e, c, b));
                            reveal(line_step);
                            reveal(line_answers_given);
                            let nd = done.push(text@);
                            assert(nd.drop_last() =~= prefix);
                            lemma_scan_answers_prefix(*estimate_output, *cache_creation, *replaces, st0, prefix, answers, next);
                            done = nd;
                            answers = next;
                        }
                        i = end;
                    },
                }
            }
        }
        assert(done + Seq::<Seq<char>>::empty() =~= done);
        i
    }

    /// Read the bytes appended to the main session file since the last
    /// call (`data` starts at [`IncrementalTokenScanner::offset`]): its
    /// complete lines as [`read_lines_from`] frames them, each read as
    /// [`IncrementalTokenScanner::scan_lines`] describes, advancing the
    /// offset by the bytes read (an unterminated last line is left for the
    /// next call); returns the totals afterwards.
    pub fn scan_new_bytes<E, C, R>(&mut self, data: &[u8], estimate_output: &E, cache_creation: &C, replaces: &R) -> (r: TokenTotals)
        where
            E: Fn(&JsonValue) -> i64,
            C: Fn(&JsonValue) -> i64,
            R: Fn(&TokenSnapshot, &TokenSnapshot) -> bool,
        requires
            old(self).bytes_read() + data@.len() <= u64::MAX,
            forall|v: &JsonValue| call_requires(*estimate_output, (v,)),
            forall|v: &JsonValue| call_requires(*cache_creation, (v,)),
            forall|a: &TokenSnapshot, b: &TokenSnapshot| call_requires(*replaces, (a, b)),
        ensures
            final(self).bytes_read() == old(self).bytes_read() + read_lines_from(data@, 0).1,
            final(self).subagent_sizes() == old(self).subagent_sizes(),
            final(self).subagent_offsets() == old(self).subagent_offsets(),
            exists|answers: Seq<(i64, i64, bool)>|
                answers.len() == read_lines_from(data@, 0).0.len()
                && scan_answers_given(*estimate_output, *cache_creation, *replaces, old(self)@, read_lines_from(data@, 0).0, answers)
                && final(self)@ == scan_state(old(self)@, read_lines_from(data@, 0).0, answers),
            (r.total_tokens, r.input_tokens, r.output_tokens, r.cache_read_tokens, r.cache_creation_tokens) == counts_of(final(self)@),
            r.model@ == final(self)@.model,
    {
        let n = self.read_framed(data, estimate_output, cache_creation, replaces);
        self.offset = self.offset + (n as u64);
        self.compute_totals()
    }

    /// The subagent files due for a read, from the listing `files` of
    /// (file name, current size): exactly the `agent-*.jsonl` names whose
    /// size grew past the one recorded (0 for a file not seen yet), each
    /// with its recorded offset (0 for a new file), in the order listed.
    pub fn subagent_reads(&self, files: &[(String, u64)]) -> (r: Vec<(String, u64)>)
        ensures
            named_numbers(r@) == due_reads(named_numbers(files@), self.subagent_sizes(), self.subagent_offsets()),
    {
        let ghost fv = named_numbers(files@);
        let mut r: Vec<(String, u64)> = Vec::new();
        let mut i: usize = 0;
        while i < files.len()
            invariant
                i <= files@.len(),
                fv == named_numbers(files@),
                named_numbers(r@) == due_reads(fv.take(i as int), self.subagent_sizes(), self.subagent_offsets()),
            decreases files.len() - i,
        {
            assert(fv.take(i + 1).drop_last() =~= fv.take(i as int));
            assert(fv.take(i + 1).last() == fv[i as int]);
            let name = &files[i].0;
            let size = files[i].1;
            let prev = match self.subagent_sizes.get(name.as_str()) {
                Some(v) => *v,
                None => 0,
            };
            if is_subagent_file_name(name.as_str()) && size > prev {
                let off = match self.subagent_offsets.get(name.as_str()) {
                    Some(v) => *v,
                    None => 0,
                };
                let ghost before = r@;
                r.push((name.clone(), off));
                assert(named_numbers(r@) =~= named_numbers(before).push((name@, off)));
            }
            i = i + 1;
        }
        assert(fv.take(files@.len() as int) =~= fv);
        r
    }

    /// Read the bytes appended to subagent file `key` since its recorded
    /// offset (`data` starts there; `size` is the file's current size): its
    /// complete lines, as [`read_lines_from`] frames them, go through the
    /// same request-id map as the main file's, read as
    /// [`IncrementalTokenScanner::scan_lines`] describes. The recorded size
    /// becomes `size` and the offset advances by the bytes read.
    pub fn scan_subagent_bytes<E, C, R>(
        &mut self,
        key: &str,
        size: u64,
        data: &[u8],
        estimate_output: &E,
        cache_creation: &C,
        replaces: &R,
    ) where
        E: Fn(&JsonValue) -> i64,
        C: Fn(&JsonValue) -> i64,
        R: Fn(&TokenSnapshot, &TokenSnapshot) -> bool,
        requires
            recorded(old(self).subagent_offsets(), key@) + data@.len() <= u64::MAX,
            forall|v: &JsonValue| call_requires(*estimate_output, (v,)),
            forall|v: &JsonValue| call_requires(*cache_creation, (v,)),
            forall|a: &TokenSnapshot, b: &TokenSnapshot| call_requires(*replaces, (a, b)),
        ensures
            final(self).bytes_read() == old(self).bytes_read(),
            final(self).subagent_sizes() == old(self).subagent_sizes().insert(key@, size),
            final(self).subagent_offsets() == old(self).subagent_offsets().insert(
                key@,
                (recorded(old(self).subagent_offsets(), key@) + read_lines_from(data@, 0).1) as u64,
            ),
            exists|answers: Seq<(i64, i64, bool)>|
                answers.len() == read_lines_from(data@, 0).0.len()
                && scan_answers_given(*estimate_output, *cache_creation, *replaces, old(self)@, read_lines_from(data@, 0).0, answers)
                && final(self)@ == scan_state(old(self)@, read_lines_from(data@, 0).0, answers),
    {
        let prev_off = match self.subagent_offsets.get(key) {
            Some(v) => *v,
            None => 0,
        };
        self.subagent_sizes.insert(String::from_str(key), size);
        assert(self@ == old(self)@);
        let n = self.read_framed(data, estimate_output, cache_creation, replaces);
        let ghost mid = self@;
        self.subagent_offsets.insert(String::from_str(key), prev_off + (n as u64));
        assert(self@ == mid);
    }

    /// Read one entry of the metadata scan, as [`meta_token_step`]
    /// describes; `context` is the context occupancy so far.
    fn process_meta_entry<E, C, R>(
        &mut self,
        context: &mut Option<i64>,
        raw: &JsonValue,
        estimate_output: &E,
        cache_creation: &C,
        replaces: &R,
    ) where
        E: Fn(&JsonValue) -> i64,
        C: Fn(&JsonValue) -> i64,
        R: Fn(&TokenSnapshot, &TokenSnapshot) -> bool,
        requires
            forall|v: &JsonValue| call_requires(*estimate_output, (v,)),
            forall|v: &JsonValue| call_requires(*cache_creation, (v,)),
            forall|a: &TokenSnapshot, b: &TokenSnapshot| call_requires(*replaces, (a, b)),
        ensures
            exists|est: i64, cc: i64, replace: bool|
                meta_answers_given(
                    *estimate_output,
                    *cache_creation,
                    *replaces,
                    MetaTokenState { tokens: old(self)@, context: *old(context) },
                    Some(*raw),
                    est,
                    cc,
                    replace,
                ) && (MetaTokenState { tokens: final(self)@, context: *final(context) }) == meta_token_step(
                    MetaTokenState { tokens: old(self)@, context: *old(context) },
                    Some(*raw),
                    est,
                    cc,
                    replace,
                ),
    {
        let ghost st = MetaTokenState { tokens: self@, context: *context };
        if member_or_empty(raw, "uuid").is_empty() || raw.get("forkedFrom").is_some()
            || !str_eq(member_or_empty(raw, "type"), "assistant") {
            assert(meta_answers_given(*estimate_output, *cache_creation, *replaces, st, Some(*raw), 0, 0, false)
                && (MetaTokenState { tokens: self@, context: *context }) == meta_token_step(st, Some(*raw), 0, 0, false));
            return;
        }
        let message = raw.get("message");
        let model_str: &str = match message {
            Some(m) => member_or_empty(m, "model"),
            None => {
                proof {
                    reveal_strlit("");
                }
                ""
            },
        };
        assert(model_str@ == model_of(*raw));
        let usage = match opt_member(message, "usage") {
            Some(u) => u,
            None => {
                assert(meta_answers_given(*estimate_output, *cache_creation, *replaces, st, Some(*raw), 0, 0, false)
                    && (MetaTokenState { tokens: self@, context: *context }) == meta_token_step(st, Some(*raw), 0, 0, false));
                return;
            },
        };
        if str_eq(model_str, "<synthetic>") {
            assert(meta_answers_given(*estimate_output, *cache_creation, *replaces, st, Some(*raw), 0, 0, false)
                && (MetaTokenState { tokens: self@, context: *context }) == meta_token_step(st, Some(*raw), 0, 0, false));
            return;
        }
        assert(counted_usage(*raw) == Some(*usage));
        let stop = match opt_member(message, "stop_reason") {
            Some(v) => match v.as_str() {
                Some(s) => !s.as_str().is_empty(),
                None => false,
            },
            None => false,
        };
        assert(stop == has_stop(*raw));
        let reported = i64_member_or_zero(usage, "output_tokens");
        let mut est: i64 = 0;
        if !stop {
            est = estimate_output(raw);
        }
        let output = if stop || est <= reported { reported } else { est };
        let inp = i64_member_or_zero(usage, "input_tokens");
        let cr = i64_member_or_zero(usage, "cache_read_input_tokens");
        let cc = cache_creation(usage);
        let snap = TokenSnapshot {
            input: inp,
            output,
            cache_read: cr,
            cache_create: cc,
            model: String::from_str(model_str),
            has_stop_reason: stop,
        };
        assert(snap@ == snapshot_of(*raw, *usage, est, cc));
        let sidechain = match raw.get("isSidechain") {
            Some(v) => match v.as_bool() {
                Some(b) => b,
                None => false,
            },
            None => false,
        };
        assert(sidechain == is_sidechain(*raw));
        if !sidechain && (stop || context.is_none()) {
            *context = Some(inp.wrapping_add(cr).wrapping_add(cc));
        }
        let id = member_or_empty(raw, "requestId");
        let mut replace = false;
        if !id.is_empty() {
            replace = self.put_best(id, snap, replaces);
        } else {
            self.fallback.input = self.fallback.input.wrapping_add(inp);
            self.fallback.output = self.fallback.output.wrapping_add(output);
            self.fallback.cache_read = self.fallback.cache_read.wrapping_add(cr);
            self.fallback.cache_create = self.fallback.cache_create.wrapping_add(cc);
        }
        assert(meta_answers_given(*estimate_output, *cache_creation, *replaces, st, Some(*raw), est, cc, replace)
            && (MetaTokenState { tokens: self@, context: *context }) == meta_token_step(st, Some(*raw), est, cc, replace));
    }
}

/// The token totals and context occupancy of a transcript, by the rules of
/// the metadata scan ([`meta_token_step`]): every entry with a request id is
/// de-duplicated through `replaces`, the others are summed, and the context
/// occupancy is that of the last main-chain turn with a stop reason (or of
/// the first main-chain turn while none has one), 0 when there is none.
/// Lines that are not JSON are skipped. The lines of the subagent
/// transcripts, `subagent_lines`, are then read into the same request-id
/// map, as the incremental scanner reads them ([`scan_state`]); they leave
/// the context occupancy alone.
pub fn scan_metadata_tokens<E, C, R>(
    lines: &[String],
    subagent_lines: &[String],
    estimate_output: &E,
    cache_creation: &C,
    replaces: &R,
) -> (r: MetaTokens)
    where
        E: Fn(&JsonValue) -> i64,
        C: Fn(&JsonValue) -> i64,
        R: Fn(&TokenSnapshot, &TokenSnapshot) -> bool,
    requires
        forall|v: &JsonValue| call_requires(*estimate_output, (v,)),
        forall|v: &JsonValue| call_requires(*cache_creation, (v,)),
        forall|a: &TokenSnapshot, b: &TokenSnapshot| call_requires(*replaces, (a, b)),
    ensures
        exists|answers: Seq<(i64, i64, bool)>, sub_answers: Seq<(i64, i64, bool)>|
            #![trigger meta_scan_state(views(lines@), answers), scan_state(meta_scan_state(views(lines@), answers).tokens, views(subagent_lines@), sub_answers)]
        {
            let st = meta_scan_state(views(lines@), answers);
            let all = scan_state(st.tokens, views(subagent_lines@), sub_answers);
            &&& answers.len() == lines@.len()
            &&& meta_scan_answers_given(*estimate_output, *cache_creation, *replaces, views(lines@), answers)
            &&& sub_answers.len() == subagent_lines@.len()
            &&& scan_answers_given(*estimate_output, *cache_creation, *replaces, st.tokens, views(subagent_lines@), sub_answers)
            &&& (r.totals.total_tokens, r.totals.input_tokens, r.totals.output_tokens, r.totals.cache_read_tokens,
                r.totals.cache_creation_tokens) == counts_of(all)
            &&& r.totals.model@ == all.model
            &&& r.context_tokens == (match st.context {
                Some(c) => c,
                None => 0,
            })
        },
{
    let mut scanner = IncrementalTokenScanner::new();
    let mut context: Option<i64> = None;
    let ghost mut answers: Seq<(i64, i64, bool)> = Seq::empty();
    let mut i: usize = 0;
    while i < lines.len()
        invariant
            i <= lines@.len(),
            answers.len() == i,
            forall|v: &JsonValue| call_requires(*estimate_output, (v,)),
            forall|v: &JsonValue| call_requires(*cache_creation, (v,)),
            forall|a: &TokenSnapshot, b: &TokenSnapshot| call_requires(*replaces, (a, b)),
            meta_scan_answers_given(*estimate_output, *cache_creation, *replaces, views(lines@.take(i as int)), answers),
            (MetaTokenState { tokens: scanner@, context }) == meta_scan_state(views(lines@.take(i as int)), answers),
        decreases lines.len() - i,
    {
        let ghost prefix = views(lines@.take(i as int));
        let ghost before = MetaTokenState { tokens: scanner@, context };
        assert(views(lines@.take(i + 1)).drop_last() =~= prefix);
        assert(views(lines@.take(i + 1)).last() == lines@[i as int]@);
        let ghost mut a: (i64, i64, bool) = (0, 0, false);
        match JsonValue::parse(lines[i].as_str()) {
            Some(raw) => {
                scanner.process_meta_entry(&mut context, &raw, estimate_output, cache_creation, replaces);
                proof {
                    let (e, c, b) = choose|e: i64, c: i64, b: bool|
                        meta_answers_given(*estimate_output, *cache_creation, *replaces, before, Some(raw), e, c, b)
                        && (MetaTokenState { tokens: scanner@, context }) == meta_token_step(before, Some(raw), e, c, b);
                    a = (e, c, b);
                }
            },
            None => {},
        }
        proof {
            let next = answers.push(a);
            reveal(meta_line_step);
            reveal(meta_line_answers_given);
            lemma_meta_scan_answers_prefix(*estimate_output, *cache_creation, *replaces, prefix, answers, next);
            answers = next;
        }
        i = i + 1;
    }
    assert(lines@.take(lines@.len() as int) =~= lines@);
    let ghost main_answers = answers;
    let totals = scanner.scan_lines(subagent_lines, estimate_output, cache_creation, replaces);
    proof {
        let sub = choose|a: Seq<(i64, i64, bool)>|
            a.len() == subagent_lines@.len()
            && scan_answers_given(*estimate_output, *cache_creation, *replaces, meta_scan_state(views(lines@), main_answers).tokens, views(subagent_lines@), a)
            && scanner@ == scan_state(meta_scan_state(views(lines@), main_answers).tokens, views(subagent_lines@), a);
        assert(scanner@ == scan_state(meta_scan_state(views(lines@), main_answers).tokens, views(subagent_lines@), sub));
    }
    MetaTokens { totals, context_tokens: match context {
        Some(c) => c,
        None => 0,
    } }
}

} // verus!
