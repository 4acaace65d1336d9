use vstd::prelude::*;
use vstd::string::StringExecFns;
use crate::json::{get_str, json_bool, json_get, parsed_json, str_member, JsonValue};
use crate::ongoing::{counts_as, is_main_assistant_entry, is_sidechain, member_or_empty, member_text};
use crate::text::{
    chars_of, chars_start_with, starts_with, str_eq, string_from_chars, trim_start_text, trim_start_vec,
    trim_text, trim_vec, views,
};

verus! {

/// Session-level metadata of a transcript.
pub struct SessionMeta {
    pub cwd: String,
    pub git_branch: String,
    pub permission_mode: String,
}

/// The text at `v[key]` when it is a non-empty JSON string.
pub open spec fn nonempty_member(v: JsonValue, key: Seq<char>) -> Option<Seq<char>> {
    match str_member(v, key) {
        Some(s) => if s.len() > 0 { Some(s) } else { None },
        None => None,
    }
}

/// The last non-empty string that the JSON lines record under `key`, or the
/// empty text. Lines that are not JSON are skipped.
pub open spec fn last_member_text(lines: Seq<Seq<char>>, key: Seq<char>) -> Seq<char>
    decreases lines.len(),
{
    if lines.len() == 0 {
        Seq::empty()
    } else {
        match parsed_json(lines.last()) {
            Some(v) => match nonempty_member(v, key) {
                Some(s) => s,
                None => last_member_text(lines.drop_last(), key),
            },
            None => last_member_text(lines.drop_last(), key),
        }
    }
}

/// The permission mode a transcript reports: the last one recorded, or
/// `"manual"` when none is.
pub open spec fn permission_mode_of(lines: Seq<Seq<char>>) -> Seq<char> {
    let m = last_member_text(lines, "permissionMode"@);
    if m.len() == 0 { "manual"@ } else { m }
}

/// Extract the session metadata (working directory, git branch, permission
/// mode) from the lines of a JSONL transcript, `None` when the file could not
/// be opened. Each field is the last non-empty value seen, so a mid-session
/// `/cd` is reflected; the permission mode defaults to `"manual"`. An
/// unopenable file gives empty fields.
pub fn extract_session_meta(lines: Option<&[String]>) -> (r: SessionMeta)
    ensures
        match lines {
            None => r.cwd@.len() == 0 && r.git_branch@.len() == 0 && r.permission_mode@.len() == 0,
            Some(ls) => {
                &&& r.cwd@ == last_member_text(views(ls@), "cwd"@)
                &&& r.git_branch@ == last_member_text(views(ls@), "gitBranch"@)
                &&& r.permission_mode@ == permission_mode_of(views(ls@))
            },
        },
{
    let ls = match lines {
        Some(ls) => ls,
        None => {
            return SessionMeta { cwd: String::new(), git_branch: String::new(), permission_mode: String::new() };
        },
    };
    let ghost lv = views(ls@);
    let mut cwd = String::new();
    let mut branch = String::new();
    let mut mode = String::new();
    let mut i: usize = 0;
    while i < ls.len()
        invariant
            lv == views(ls@),
            i <= ls@.len(),
            cwd@ == last_member_text(lv.take(i as int), "cwd"@),
            branch@ == last_member_text(lv.take(i as int), "gitBranch"@),
            mode@ == last_member_text(lv.take(i as int), "permissionMode"@),
        decreases ls.len() - i,
    {
        assert(lv.take(i + 1).drop_last() =~= lv.take(i as int));
        assert(lv.take(i + 1).last() == ls@[i as int]@);
        match JsonValue::parse(ls[i].as_str()) {
            Some(v) => {
                match get_str(&v, "cwd") {
                    Some(s) => if !s.as_str().is_empty() {
                        cwd = s.clone();
                    },
                    None => {},
                }
                match get_str(&v, "gitBranch") {
                    Some(s) => if !s.as_str().is_empty() {
                        branch = s.clone();
                    },
                    None => {},
                }
                match get_str(&v, "permissionMode") {
                    Some(s) => if !s.as_str().is_empty() {
                        mode = s.clone();
                    },
                    None => {},
                }
            },
            None => {},
        }
        i = i + 1;
    }
    assert(lv.take(ls@.len() as int) =~= lv);
    if mode.as_str().is_empty() {
        mode = String::from_str("manual");
    }
    SessionMeta { cwd, git_branch: branch, permission_mode: mode }
}

/// The `text` strings of content blocks, in order; blocks without one are
/// skipped.
pub open spec fn block_texts(blocks: Seq<JsonValue>) -> Seq<Seq<char>>
    decreases blocks.len(),
{
    if blocks.len() == 0 {
        Seq::empty()
    } else {
        match str_member(blocks.last(), "text"@) {
            Some(t) => block_texts(blocks.drop_last()).push(t),
            None => block_texts(blocks.drop_last()),
        }
    }
}

/// The parts joined with single spaces.
pub open spec fn join_space(parts: Seq<Seq<char>>) -> Seq<char>
    decreases parts.len(),
{
    if parts.len() == 0 {
        Seq::empty()
    } else if parts.len() == 1 {
        parts[0]
    } else {
        join_space(parts.drop_last()) + " "@ + parts.last()
    }
}

/// The text, when it is not empty.
pub open spec fn nonempty(t: Seq<char>) -> Option<Seq<char>> {
    if t.len() > 0 { Some(t) } else { None }
}

/// The recap text of an entry: for a `system` entry of subtype
/// `away_summary`, its `content` trimmed (a string, or the `text` of its
/// blocks joined with spaces), when that is not empty.
pub open spec fn recap_of(v: JsonValue) -> Option<Seq<char>> {
    if str_member(v, "type"@) != Some("system"@) {
        None
    } else if str_member(v, "subtype"@) != Some("away_summary"@) {
        None
    } else {
        match json_get(v, "content"@) {
            Some(JsonValue::Str(s)) => nonempty(trim_text(s@)),
            Some(JsonValue::Array(blocks)) => nonempty(trim_text(join_space(block_texts(blocks@)))),
            _ => None,
        }
    }
}

/// The recap text iff this parsed transcript entry is an `away_summary`
/// session recap, else `None`.
pub fn recap_from_entry(raw: &JsonValue) -> (r: Option<String>)
    ensures
        match recap_of(*raw) {
            Some(t) => r matches Some(s) && s@ == t,
            None => r is None,
        },
{
    match get_str(raw, "type") {
        Some(t) => if !str_eq(t.as_str(), "system") {
            return None;
        },
        None => return None,
    }
    match get_str(raw, "subtype") {
        Some(t) => if !str_eq(t.as_str(), "away_summary") {
            return None;
        },
        None => return None,
    }
    let text: Vec<char> = match raw.get("content") {
        Some(JsonValue::Str(s)) => {
            let v = chars_of(s.as_str());
            trim_vec(&v)
        },
        Some(JsonValue::Array(blocks)) => {
            let joined = join_block_texts(blocks);
            trim_vec(&joined)
        },
        _ => return None,
    };
    if text.len() == 0 {
        None
    } else {
        Some(string_from_chars(text.as_slice()))
    }
}

/// The `text` strings of `blocks`, joined with single spaces.
fn join_block_texts(blocks: &Vec<JsonValue>) -> (r: Vec<char>)
    ensures
        r@ == join_space(block_texts(blocks@)),
{
    let mut out: Vec<char> = Vec::new();
    let mut count: usize = 0;
    let mut i: usize = 0;
    while i < blocks.len()
        invariant
            i <= blocks@.len(),
            count as int == block_texts(blocks@.take(i as int)).len(),
            count <= i,
            out@ == join_space(block_texts(blocks@.take(i as int))),
        decreases blocks.len() - i,
    {
        assert(blocks@.take(i + 1).drop_last() =~= blocks@.take(i as int));
        assert(blocks@.take(i + 1).last() == blocks@[i as int]);
        let ghost parts = block_texts(blocks@.take(i as int));
        match get_str(&blocks[i], "text") {
            Some(t) => {
                let tv = chars_of(t.as_str());
                assert(parts.push(t@).drop_last() =~= parts);
                let ghost before_space = out@;
                if count > 0 {
                    out.push(' ');
                }
                let ghost base = out@;
                let mut j: usize = 0;
                while j < tv.len()
                    invariant
                        j <= tv@.len(),
                        out@ == base + tv@.take(j as int),
                    decreases tv.len() - j,
                {
                    out.push(tv[j]);
                    j = j + 1;
                    assert(out@ =~= base + tv@.take(j as int));
                }
                assert(tv@.take(tv@.len() as int) =~= tv@);
                if count > 0 {
                    proof {
                        reveal_strlit(" ");
                    }
                    assert(before_space == join_space(parts));
                    assert(base =~= join_space(parts) + " "@);
                    assert(parts.push(t@).len() > 1);
                    assert(join_space(parts.push(t@)) == join_space(parts.push(t@).drop_last()) + " "@ + parts.push(t@).last());
                    assert(out@ =~= join_space(parts.push(t@)));
                } else {
                    assert(parts.len() == 0);
                    assert(base =~= Seq::<char>::empty());
                    assert(parts.push(t@).len() == 1);
                    assert(join_space(parts.push(t@)) == parts.push(t@)[0]);
                    assert(out@ =~= join_space(parts.push(t@)));
                }
                count = count + 1;
            },
            None => {},
        }
        i = i + 1;
    }
    assert(blocks@.take(blocks@.len() as int) =~= blocks@);
    out
}


/// The `text` of the first content block that has one, or the empty text.
pub open spec fn first_block_text(blocks: Seq<JsonValue>) -> Seq<char>
    decreases blocks.len(),
{
    if blocks.len() == 0 {
        Seq::empty()
    } else {
        match str_member(blocks[0], "text"@) {
            Some(t) => t,
            None => first_block_text(blocks.drop_first()),
        }
    }
}

/// The text of a user entry's `message.content`: the string itself, or the
/// first block text of an array, or the empty text.
pub open spec fn user_text_of(v: JsonValue) -> Seq<char> {
    match json_get(v, "message"@) {
        Some(m) => match json_get(m, "content"@) {
            Some(JsonValue::Str(s)) => s@,
            Some(JsonValue::Array(blocks)) => first_block_text(blocks@),
            _ => Seq::empty(),
        },
        None => Seq::empty(),
    }
}

/// A genuine user turn that resumes the session: a `user` entry whose text,
/// after leading whitespace, does not open a `<channel` tag (channel events are
/// pushed into the session, not typed by the user).
pub open spec fn is_resuming(v: JsonValue) -> bool {
    &&& str_member(v, "type"@) == Some("user"@)
    &&& !starts_with(trim_start_text(user_text_of(v)), "<channel"@)
}

/// True for a genuine user turn that resumes the session, and only that; a
/// recap before anything else (assistant replies, channel events, bookkeeping
/// entries) stays current.
pub fn is_resuming_user_turn(raw: &JsonValue) -> (r: bool)
    ensures
        r == is_resuming(*raw),
{
    match get_str(raw, "type") {
        Some(t) => if !str_eq(t.as_str(), "user") {
            return false;
        },
        None => return false,
    }
    let text: Vec<char> = match raw.get("message") {
        Some(m) => match m.get("content") {
            Some(JsonValue::Str(s)) => chars_of(s.as_str()),
            Some(JsonValue::Array(blocks)) => first_text_of_blocks(blocks),
            _ => Vec::new(),
        },
        None => Vec::new(),
    };
    let trimmed = trim_start_vec(&text);
    !chars_start_with(&trimmed, "<channel")
}

/// The characters of the first block text of `blocks`.
fn first_text_of_blocks(blocks: &Vec<JsonValue>) -> (r: Vec<char>)
    ensures
        r@ == first_block_text(blocks@),
{
    let mut i: usize = 0;
    assert(blocks@.skip(0) =~= blocks@);
    while i < blocks.len()
        invariant
            i <= blocks@.len(),
            first_block_text(blocks@) == first_block_text(blocks@.skip(i as int)),
        decreases blocks.len() - i,
    {
        assert(blocks@.skip(i as int).drop_first() =~= blocks@.skip(i + 1));
        assert(blocks@.skip(i as int)[0] == blocks@[i as int]);
        match get_str(&blocks[i], "text") {
            Some(t) => {
                return chars_of(t.as_str());
            },
            None => {},
        }
        i = i + 1;
    }
    Vec::new()
}

/// The recap that a transcript is parked on after these lines: set by every
/// recap entry, cleared by a genuine resuming user turn, untouched by anything
/// else. Lines that are not JSON are skipped.
pub open spec fn recap_after(lines: Seq<Seq<char>>) -> Option<Seq<char>>
    decreases lines.len(),
{
    if lines.len() == 0 {
        None
    } else {
        let prev = recap_after(lines.drop_last());
        match parsed_json(lines.last()) {
            Some(v) => match recap_of(v) {
                Some(t) => Some(t),
                None => if is_resuming(v) { None } else { prev },
            },
            None => prev,
        }
    }
}

/// The recap preview of a transcript, from its lines: the recap the session
/// was parked on, `None` when the user resumed after the last recap.
pub fn scan_recap(lines: &[String]) -> (r: Option<String>)
    ensures
        match recap_after(views(lines@)) {
            Some(t) => r matches Some(s) && s@ == t,
            None => r is None,
        },
{
    let ghost lv = views(lines@);
    let mut recap: Option<String> = None;
    let mut i: usize = 0;
    while i < lines.len()
        invariant
            lv == views(lines@),
            i <= lines@.len(),
            match recap_after(lv.take(i as int)) {
                Some(t) => recap matches Some(s) && s@ == t,
                None => recap is None,
            },
        decreases lines.len() - i,
    {
        assert(lv.take(i + 1).drop_last() =~= lv.take(i as int));
        assert(lv.take(i + 1).last() == lines@[i as int]@);
        match JsonValue::parse(lines[i].as_str()) {
            Some(v) => {
                match recap_from_entry(&v) {
                    Some(t) => {
                        recap = Some(t);
                    },
                    None => {
                        if is_resuming_user_turn(&v) {
                            recap = None;
                        }
                    },
                }
            },
            None => {},
        }
        i = i + 1;
    }
    assert(lv.take(lines@.len() as int) =~= lv);
    recap
}

/// The model an assistant entry names (`message.model`), or the empty text.
pub open spec fn model_of(raw: JsonValue) -> Seq<char> {
    match json_get(raw, "message"@) {
        Some(m) => member_text(m, "model"@),
        None => Seq::empty(),
    }
}

/// The model of a transcript: that of the first main-chain assistant entry
/// that names a real model (not `<synthetic>`), or the empty text. Lines that
/// are not JSON are skipped.
pub open spec fn first_model(lines: Seq<Seq<char>>) -> Seq<char>
    decreases lines.len(),
{
    if lines.len() == 0 {
        Seq::empty()
    } else {
        let prev = first_model(lines.drop_last());
        if prev.len() > 0 {
            prev
        } else {
            match parsed_json(lines.last()) {
                Some(raw) => if counts_as(raw, "assistant"@) && !is_sidechain(raw) && model_of(raw) != "<synthetic>"@ {
                    model_of(raw)
                } else {
                    prev
                },
                None => prev,
            }
        }
    }
}

/// The model of a transcript, from its lines.
pub fn scan_model(lines: &[String]) -> (r: String)
    ensures
        r@ == first_model(views(lines@)),
{
    let ghost lv = views(lines@);
    let mut i: usize = 0;
    while i < lines.len()
        invariant
            lv == views(lines@),
            i <= lines@.len(),
            first_model(lv.take(i as int)).len() == 0,
        decreases lines.len() - i,
    {
        assert(lv.take(i + 1).drop_last() =~= lv.take(i as int));
        assert(lv.take(i + 1).last() == lines@[i as int]@);
        match JsonValue::parse(lines[i].as_str()) {
            Some(raw) => {
                if is_main_assistant_entry(&raw) {
                    let model = match raw.get("message") {
                        Some(m) => member_or_empty(m, "model"),
                        None => {
                            proof {
                                reveal_strlit("");
                            }
                            ""
                        },
                    };
                    if !model.is_empty() && !str_eq(model, "<synthetic>") {
                        let found = String::from_str(model);
                        proof {
                            lemma_first_model_settles(lv, i as int + 1);
                        }
                        return found;
                    }
                }
            },
            None => {},
        }
        i = i + 1;
    }
    assert(lv.take(lines@.len() as int) =~= lv);
    String::new()
}

/// Once a prefix of the lines names the model, longer prefixes name the same.
proof fn lemma_first_model_settles(lines: Seq<Seq<char>>, n: int)
    requires
        0 <= n <= lines.len(),
    ensures
        first_model(lines.take(n)).len() > 0 ==> first_model(lines) == first_model(lines.take(n)),
    decreases lines.len() - n,
{
    if n < lines.len() {
        lemma_first_model_settles(lines, n + 1);
        assert(lines.take(n + 1).drop_last() =~= lines.take(n));
    } else {
        assert(lines.take(n) =~= lines);
    }
}

/// Whether the entry takes part in turn counting: it has a `uuid` and was
/// not inherited from a parent session.
pub open spec fn counts_for_turns(raw: JsonValue) -> bool {
    member_text(raw, "uuid"@).len() > 0 && json_get(raw, "forkedFrom"@) is None
}

/// Whether the entry is marked as a meta entry.
pub open spec fn is_meta_entry(raw: JsonValue) -> bool {
    json_bool(json_get(raw, "isMeta"@)) == Some(true)
}

/// The number of turns after the lines, and whether a user turn still waits
/// for its reply: a user chunk (line `i` is one when `chunks[i]`) counts a
/// turn, and the first real main-chain assistant entry after it counts the
/// reply. Lines that are not JSON and entries that do not take part are
/// skipped.
pub open spec fn turn_state(lines: Seq<Seq<char>>, chunks: Seq<bool>) -> (int, bool)
    decreases lines.len(),
{
    if lines.len() == 0 {
        (0, false)
    } else {
        turn_step(turn_state(lines.drop_last(), chunks), lines.last(), chunks[lines.len() - 1])
    }
}

/// The turn count and waiting flag after one more line (`chunk`: whether it
/// is a user chunk).
pub open spec fn turn_step(prev: (int, bool), line: Seq<char>, chunk: bool) -> (int, bool) {
    match parsed_json(line) {
        Some(raw) => if !counts_for_turns(raw) {
            prev
        } else if chunk {
            (prev.0 + 1, true)
        } else if prev.1 && member_text(raw, "type"@) == "assistant"@ && !is_sidechain(raw)
            && model_of(raw) != "<synthetic>"@ {
            (prev.0 + 1, false)
        } else {
            prev
        },
        None => prev,
    }
}

/// Whether `chunk` is what `is_user_chunk` gave for the entry, asked with the
/// entry, its type, and its meta and sidechain flags.
pub open spec fn chunk_given<F: Fn(&JsonValue, &str, bool, bool) -> bool>(is_user_chunk: F, raw: JsonValue, chunk: bool) -> bool {
    exists|r: &JsonValue, t: &str|
        *r == raw && t@ == member_text(raw, "type"@) && call_ensures(
            is_user_chunk,
            (r, t, is_meta_entry(raw), is_sidechain(raw)),
            chunk,
        )
}

/// Whether `chunks` holds, line by line, what `is_user_chunk` gave for the
/// entries that take part.
pub open spec fn chunks_given<F: Fn(&JsonValue, &str, bool, bool) -> bool>(
    is_user_chunk: F,
    lines: Seq<Seq<char>>,
    chunks: Seq<bool>,
) -> bool {
    &&& chunks.len() == lines.len()
    &&& forall|i: int| 0 <= i < lines.len() ==> (#[trigger] parsed_json(lines[i]) matches Some(raw)
        ==> (counts_for_turns(raw) ==> chunk_given(is_user_chunk, raw, chunks[i])))
}

proof fn lemma_turn_state_prefix(lines: Seq<Seq<char>>, a: Seq<bool>, b: Seq<bool>)
    requires
        a.len() >= lines.len(),
        b.len() >= lines.len(),
        forall|i: int| 0 <= i < lines.len() ==> a[i] == b[i],
    ensures
        turn_state(lines, a) == turn_state(lines, b),
    decreases lines.len(),
{
    if lines.len() > 0 {
        lemma_turn_state_prefix(lines.drop_last(), a, b);
    }
}

proof fn lemma_turn_state_bound(lines: Seq<Seq<char>>, chunks: Seq<bool>)
    ensures
        0 <= turn_state(lines, chunks).0 <= lines.len(),
    decreases lines.len(),
{
    if lines.len() > 0 {
        lemma_turn_state_bound(lines.drop_last(), chunks);
    }
}

/// The number of turns of a transcript, from its lines: each user chunk
/// (as `is_user_chunk` decides, asked for every entry with a `uuid` that was
/// not inherited) and the first real main-chain assistant reply after it.
pub fn count_turns<F: Fn(&JsonValue, &str, bool, bool) -> bool>(lines: &[String], is_user_chunk: &F) -> (r: i32)
    requires
        lines@.len() <= i32::MAX,
        forall|raw: &JsonValue, t: &str, m: bool, s: bool| call_requires(*is_user_chunk, (raw, t, m, s)),
    ensures
        exists|chunks: Seq<bool>|
            chunks_given(*is_user_chunk, views(lines@), chunks) && r as int == turn_state(views(lines@), chunks).0,
{
    let ghost lv = views(lines@);
    let ghost mut chunks: Seq<bool> = Seq::empty();
    let mut turns: i32 = 0;
    let mut awaiting = false;
    let mut i: usize = 0;
    while i < lines.len()
        invariant
            lv == views(lines@),
            lines@.len() <= i32::MAX,
            i <= lines@.len(),
            forall|raw: &JsonValue, t: &str, m: bool, s: bool| call_requires(*is_user_chunk, (raw, t, m, s)),
            chunks_given(*is_user_chunk, lv.take(i as int), chunks),
            (turns as int, awaiting) == turn_state(lv.take(i as int), chunks),
        decreases lines.len() - i,
    {
        let ghost prefix = lv.take(i as int);
        assert(lv.take(i + 1).drop_last() =~= prefix);
        assert(lv.take(i + 1).last() == lines@[i as int]@);
        proof {
            lemma_turn_state_bound(prefix, chunks);
        }
        let mut chunk = false;
        let ghost before = (turns as int, awaiting);
        match JsonValue::parse(lines[i].as_str()) {
            Some(raw) => {
                let uuid = member_or_empty(&raw, "uuid");
                let inherited = raw.get("forkedFrom").is_some();
                if !uuid.is_empty() && !inherited {
                    let entry_type = member_or_empty(&raw, "type");
                    let is_meta = match raw.get("isMeta") {
                        Some(v) => match v.as_bool() {
                            Some(b) => b,
                            None => false,
                        },
                        None => false,
                    };
                    let sidechain = match raw.get("isSidechain") {
                        Some(v) => match v.as_bool() {
                            Some(b) => b,
                            None => false,
                        },
                        None => false,
                    };
                    assert(is_meta == is_meta_entry(raw));
                    assert(sidechain == is_sidechain(raw));
                    assert(counts_for_turns(raw));
                    chunk = is_user_chunk(&raw, entry_type, is_meta, sidechain);
                    assert(chunk_given(*is_user_chunk, raw, chunk));
                    if chunk {
                        turns = turns + 1;
                        awaiting = true;
                    } else if awaiting && str_eq(entry_type, "assistant") && !sidechain {
                        let model = match raw.get("message") {
                            Some(m) => member_or_empty(m, "model"),
                            None => {
                                proof {
                                    reveal_strlit("");
                                    reveal_strlit("<synthetic>");
                                }
                                ""
                            },
                        };
                        assert(model@ == model_of(raw));
                        if !str_eq(model, "<synthetic>") {
                            turns = turns + 1;
                            awaiting = false;
                        }
                    } else {
                        assert(!(before.1 && member_text(raw, "type"@) == "assistant"@ && !is_sidechain(raw)));
                    }
                }
            },
            None => {},
        }
        proof {
            let next = chunks.push(chunk);
            lemma_turn_state_prefix(prefix, chunks, next);
            assert(next[i as int] == chunk);
            assert(turn_state(lv.take(i + 1).drop_last(), next) == turn_state(prefix, chunks));
            assert((turns as int, awaiting) == turn_step(before, lines@[i as int]@, chunk));
            let lines_next = lv.take(i + 1);
            assert forall|k: int| 0 <= k < lines_next.len() implies (#[trigger] parsed_json(lines_next[k]) matches Some(raw)
                ==> (counts_for_turns(raw) ==> chunk_given(*is_user_chunk, raw, next[k]))) by {
                if k < i {
                    assert(lines_next[k] == prefix[k]);
                    assert(parsed_json(prefix[k]) matches Some(raw) ==> (counts_for_turns(raw) ==> chunk_given(*is_user_chunk, raw, chunks[k])));
                }
            }
            chunks = next;
        }
        i = i + 1;
    }
    assert(lv.take(lines@.len() as int) =~= lv);
    turns
}

} // verus!
