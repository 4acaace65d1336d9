use vstd::prelude::*;
use vstd::string::StringExecFns;
use crate::json::{get_str, json_bool, json_get, parsed_json, str_member, JsonValue};
use crate::strset::StrSet;
use crate::text::{chars_of, chars_start_with, starts_with, str_eq, trim_chars, trim_text, views};

verus! {

/// The state of the one-pass ongoing detection over a transcript.
pub struct OngoingView {
    /// Number of activity and ending events seen (saturating at `usize::MAX`).
    pub activity: nat,
    /// Position of the last ending event.
    pub last_ending: Option<nat>,
    /// Whether any ongoing activity was seen.
    pub has_any: bool,
    /// Whether ongoing activity was seen after the last ending event.
    pub has_after: bool,
    /// Ids of tool calls that approve a shutdown.
    pub shutdown: Set<Seq<char>>,
    /// Ids of tool calls still waiting for their result.
    pub pending: Set<Seq<char>>,
}

/// The state before any entry.
pub open spec fn initial_ongoing() -> OngoingView {
    OngoingView {
        activity: 0,
        last_ending: None,
        has_any: false,
        has_after: false,
        shutdown: Set::empty(),
        pending: Set::empty(),
    }
}

/// The position after `a`, saturating at `usize::MAX`.
pub open spec fn next_position(a: nat) -> nat {
    if a < usize::MAX { a + 1 } else { a }
}

/// The state after an ongoing-activity event.
pub open spec fn after_activity(st: OngoingView) -> OngoingView {
    OngoingView {
        has_any: true,
        has_after: st.has_after || st.last_ending is Some,
        activity: next_position(st.activity),
        ..st
    }
}

/// The state after an ending event (a final answer, a plan exit, an approved
/// shutdown, a rejection or an interruption).
pub open spec fn after_ending(st: OngoingView) -> OngoingView {
    OngoingView { last_ending: Some(st.activity), has_after: false, activity: next_position(st.activity), ..st }
}

/// The state with no pending tool call.
pub open spec fn without_pending(st: OngoingView) -> OngoingView {
    OngoingView { pending: Set::empty(), ..st }
}

/// The text, or the empty text for `None`.
pub open spec fn text_or_empty(o: Option<Seq<char>>) -> Seq<char> {
    match o {
        Some(t) => t,
        None => Seq::empty(),
    }
}

/// Whether the text is empty once trimmed.
pub open spec fn is_blank(t: Seq<char>) -> bool {
    trim_text(t).len() == 0
}

/// The string member `key` of `v`, or the empty text.
pub open spec fn member_text(v: JsonValue, key: Seq<char>) -> Seq<char> {
    text_or_empty(str_member(v, key))
}

/// Whether an assistant content block is a tool call whose shutdown-approval
/// status the detection asks for.
pub open spec fn asks_approval(b: JsonValue) -> bool {
    &&& member_text(b, "type"@) == "tool_use"@
    &&& member_text(b, "id"@).len() > 0
    &&& member_text(b, "name"@) != "ExitPlanMode"@
}

/// One assistant content block; `approved` tells whether a tool call
/// approves a shutdown.
pub open spec fn assistant_block_step(st: OngoingView, b: JsonValue, approved: bool) -> OngoingView {
    let bt = member_text(b, "type"@);
    if bt == "thinking"@ {
        if !is_blank(member_text(b, "thinking"@)) { after_activity(st) } else { st }
    } else if bt == "tool_use"@ {
        let id = member_text(b, "id"@);
        if id.len() == 0 {
            st
        } else if member_text(b, "name"@) == "ExitPlanMode"@ {
            after_ending(st)
        } else if approved {
            after_ending(OngoingView { shutdown: st.shutdown.insert(id), ..st })
        } else {
            after_activity(OngoingView { pending: st.pending.insert(id), ..st })
        }
    } else if bt == "text"@ {
        if !is_blank(member_text(b, "text"@)) { after_ending(st) } else { st }
    } else {
        st
    }
}

/// The assistant content blocks in order; block `i` reads `approvals[i]`.
pub open spec fn assistant_blocks_step(st: OngoingView, blocks: Seq<JsonValue>, approvals: Seq<bool>) -> OngoingView
    decreases blocks.len(),
{
    if blocks.len() == 0 {
        st
    } else {
        assistant_block_step(
            assistant_blocks_step(st, blocks.drop_last(), approvals),
            blocks.last(),
            approvals[blocks.len() - 1],
        )
    }
}

/// `raw.message.content`.
pub open spec fn message_content(raw: JsonValue) -> Option<JsonValue> {
    match json_get(raw, "message"@) {
        Some(m) => json_get(m, "content"@),
        None => None,
    }
}

/// The content blocks of an entry whose `message.content` is an array.
pub open spec fn content_blocks(raw: JsonValue) -> Option<Seq<JsonValue>> {
    match message_content(raw) {
        Some(JsonValue::Array(bs)) => Some(bs@),
        _ => None,
    }
}

/// An assistant entry.
pub open spec fn assistant_step(st: OngoingView, raw: JsonValue, approvals: Seq<bool>) -> OngoingView {
    match content_blocks(raw) {
        Some(bs) => assistant_blocks_step(st, bs, approvals),
        None => st,
    }
}

/// Whether a user entry records that the user rejected a tool call.
pub open spec fn is_rejection(raw: JsonValue) -> bool {
    str_member(raw, "toolUseResult"@) == Some("User rejected tool use"@)
}

/// The marker that the coding agent writes when the user interrupts a turn.
pub open spec fn interrupt_marker() -> Seq<char> {
    "[Request interrupted by user"@
}

/// One user content block; `rejection` tells whether the entry rejects a
/// tool call.
pub open spec fn user_block_step(st: OngoingView, b: JsonValue, rejection: bool) -> OngoingView {
    let bt = member_text(b, "type"@);
    if bt == "tool_result"@ {
        let id = member_text(b, "tool_use_id"@);
        if id.len() == 0 {
            st
        } else {
            let st1 = OngoingView { pending: st.pending.remove(id), ..st };
            if st.shutdown.contains(id) || rejection { after_ending(st1) } else { after_activity(st1) }
        }
    } else if bt == "text"@ {
        if starts_with(member_text(b, "text"@), interrupt_marker()) {
            after_ending(without_pending(st))
        } else {
            st
        }
    } else {
        st
    }
}

/// The user content blocks in order.
pub open spec fn user_blocks_step(st: OngoingView, blocks: Seq<JsonValue>, rejection: bool) -> OngoingView
    decreases blocks.len(),
{
    if blocks.len() == 0 {
        st
    } else {
        user_block_step(user_blocks_step(st, blocks.drop_last(), rejection), blocks.last(), rejection)
    }
}

/// Whether a user content block carries conversation that continues past
/// pending tool calls.
pub open spec fn continues_conversation(b: JsonValue) -> bool {
    let bt = member_text(b, "type"@);
    bt == "text"@ || bt == "image"@ || bt == "document"@
}

/// A user entry.
pub open spec fn user_step(st: OngoingView, raw: JsonValue) -> OngoingView {
    match message_content(raw) {
        Some(JsonValue::Str(t)) => if starts_with(t@, interrupt_marker()) {
            after_ending(without_pending(st))
        } else if !is_blank(t@) {
            without_pending(st)
        } else {
            st
        },
        Some(JsonValue::Array(bs)) => {
            let st1 = user_blocks_step(st, bs@, is_rejection(raw));
            if exists|i: int| 0 <= i < bs@.len() && continues_conversation(#[trigger] bs@[i]) {
                without_pending(st1)
            } else {
                st1
            }
        },
        _ => st,
    }
}

/// Whether a transcript entry counts for the detection as the given kind:
/// it has a `uuid` and was not inherited from a parent session.
pub open spec fn counts_as(raw: JsonValue, kind: Seq<char>) -> bool {
    &&& member_text(raw, "uuid"@).len() > 0
    &&& json_get(raw, "forkedFrom"@) is None
    &&& member_text(raw, "type"@) == kind
}

/// Whether the entry is marked as a sidechain (subagent) entry.
pub open spec fn is_sidechain(raw: JsonValue) -> bool {
    json_bool(json_get(raw, "isSidechain"@)) == Some(true)
}

/// A transcript entry: main-chain assistant entries and user entries take
/// part, all others are skipped.
pub open spec fn entry_step(st: OngoingView, raw: JsonValue, approvals: Seq<bool>) -> OngoingView {
    if counts_as(raw, "assistant"@) && !is_sidechain(raw) {
        assistant_step(st, raw, approvals)
    } else if counts_as(raw, "user"@) {
        user_step(st, raw)
    } else {
        st
    }
}

/// The state after the lines of a transcript; lines that are not JSON are
/// skipped, and line `i` reads the approvals `approvals[i]`.
pub open spec fn transcript_state(lines: Seq<Seq<char>>, approvals: Seq<Seq<bool>>) -> OngoingView
    decreases lines.len(),
{
    if lines.len() == 0 {
        initial_ongoing()
    } else {
        let st = transcript_state(lines.drop_last(), approvals);
        match parsed_json(lines.last()) {
            Some(raw) => entry_step(st, raw, approvals[lines.len() - 1]),
            None => st,
        }
    }
}

/// Whether the session is still working: with no ending event, any activity
/// or any tool call still waiting for its result; otherwise activity after the
/// last ending event.
pub open spec fn ongoing_of(st: OngoingView) -> bool {
    if st.last_ending is None {
        st.has_any || st.pending != Set::<Seq<char>>::empty()
    } else {
        st.has_after
    }
}

/// The value an optional reference points to.
pub open spec fn deref_opt(o: Option<&JsonValue>) -> Option<JsonValue> {
    match o {
        Some(v) => Some(*v),
        None => None,
    }
}

/// Whether `approved` is what the approval check `f` gave for the tool call
/// `b`, asked with the call's name and `input`.
pub open spec fn approval_given<F: Fn(&str, Option<&JsonValue>) -> bool>(f: F, b: JsonValue, approved: bool) -> bool {
    exists|n: &str, input: Option<&JsonValue>|
        n@ == member_text(b, "name"@) && deref_opt(input) == json_get(b, "input"@) && call_ensures(
            f,
            (n, input),
            approved,
        )
}

/// Whether `approvals` holds, for every block that asks for it, what `f` gave.
pub open spec fn approvals_given<F: Fn(&str, Option<&JsonValue>) -> bool>(
    f: F,
    blocks: Seq<JsonValue>,
    approvals: Seq<bool>,
) -> bool {
    &&& approvals.len() == blocks.len()
    &&& forall|i: int| 0 <= i < blocks.len() && asks_approval(#[trigger] blocks[i]) ==> approval_given(f, blocks[i], approvals[i])
}

/// Whether `approvals` holds, line by line, what `f` gave for the entries of
/// a transcript.
pub open spec fn transcript_approvals_given<F: Fn(&str, Option<&JsonValue>) -> bool>(
    f: F,
    lines: Seq<Seq<char>>,
    approvals: Seq<Seq<bool>>,
) -> bool {
    &&& approvals.len() == lines.len()
    &&& forall|i: int| 0 <= i < lines.len() ==> (#[trigger] parsed_json(lines[i]) matches Some(raw) ==> entry_approvals_given(f, raw, approvals[i]))
}

proof fn lemma_transcript_prefix(lines: Seq<Seq<char>>, a: Seq<Seq<bool>>, b: Seq<Seq<bool>>)
    requires
        a.len() >= lines.len(),
        b.len() >= lines.len(),
        forall|i: int| 0 <= i < lines.len() ==> a[i] == b[i],
    ensures
        transcript_state(lines, a) == transcript_state(lines, b),
    decreases lines.len(),
{
    if lines.len() > 0 {
        lemma_transcript_prefix(lines.drop_last(), a, b);
    }
}

proof fn lemma_assistant_blocks_prefix(st: OngoingView, blocks: Seq<JsonValue>, a: Seq<bool>, b: Seq<bool>)
    requires
        a.len() >= blocks.len(),
        b.len() >= blocks.len(),
        forall|i: int| 0 <= i < blocks.len() ==> a[i] == b[i],
    ensures
        assistant_blocks_step(st, blocks, a) == assistant_blocks_step(st, blocks, b),
    decreases blocks.len(),
{
    if blocks.len() > 0 {
        lemma_assistant_blocks_prefix(st, blocks.drop_last(), a, b);
    }
}

/// Whether `approvals` holds what `f` gave for an entry that the detection
/// reads as an assistant entry.
pub open spec fn entry_approvals_given<F: Fn(&str, Option<&JsonValue>) -> bool>(
    f: F,
    raw: JsonValue,
    approvals: Seq<bool>,
) -> bool {
    counts_as(raw, "assistant"@) && !is_sidechain(raw) ==> (content_blocks(raw) matches Some(bs) ==> approvals_given(f, bs, approvals))
}

/// Ongoing detection over the entries of one transcript.
pub struct OngoingTracker {
    activity_index: usize,
    last_ending_index: Option<usize>,
    has_any: bool,
    has_after: bool,
    shutdown_ids: StrSet,
    pending_tool_ids: StrSet,
}

impl View for OngoingTracker {
    type V = OngoingView;

    closed spec fn view(&self) -> OngoingView {
        OngoingView {
            activity: self.activity_index as nat,
            last_ending: match self.last_ending_index {
                Some(i) => Some(i as nat),
                None => None,
            },
            has_any: self.has_any,
            has_after: self.has_after,
            shutdown: self.shutdown_ids@,
            pending: self.pending_tool_ids@,
        }
    }
}

/// Whether the text is empty once trimmed.
pub fn blank(s: &str) -> (r: bool)
    ensures
        r == is_blank(s@),
{
    trim_chars(s).len() == 0
}

/// The string member `key` of `v`, or the empty text.
pub(crate) fn member_or_empty<'a>(v: &'a JsonValue, key: &str) -> (r: &'a str)
    ensures
        r@ == member_text(*v, key@),
{
    match get_str(v, key) {
        Some(s) => s.as_str(),
        None => {
            proof {
                reveal_strlit("");
            }
            ""
        },
    }
}

/// Whether the entry is a main-chain assistant entry that counts: it has a
/// `uuid`, was not inherited and is not a sidechain entry.
pub fn is_main_assistant_entry(raw: &JsonValue) -> (r: bool)
    ensures
        r == (counts_as(*raw, "assistant"@) && !is_sidechain(*raw)),
{
    let uuid = member_or_empty(raw, "uuid");
    let inherited = raw.get("forkedFrom").is_some();
    let sidechain = match raw.get("isSidechain") {
        Some(v) => match v.as_bool() {
            Some(b) => b,
            None => false,
        },
        None => false,
    };
    !uuid.is_empty() && !inherited && !sidechain && str_eq(member_or_empty(raw, "type"), "assistant")
}

/// Whether `t` starts with the interruption marker.
fn is_interruption(t: &str) -> (r: bool)
    ensures
        r == starts_with(t@, interrupt_marker()),
{
    let v = chars_of(t);
    chars_start_with(&v, "[Request interrupted by user")
}

/// `raw.message.content`.
fn message_content_of(raw: &JsonValue) -> (r: Option<&JsonValue>)
    ensures
        deref_opt(r) == message_content(*raw),
{
    match raw.get("message") {
        Some(m) => m.get("content"),
        None => None,
    }
}

/// Whether a user entry records that the user rejected a tool call.
pub fn is_tool_use_rejection(raw: &JsonValue) -> (r: bool)
    ensures
        r == is_rejection(*raw),
{
    match get_str(raw, "toolUseResult") {
        Some(s) => str_eq(s.as_str(), "User rejected tool use"),
        None => false,
    }
}

impl OngoingTracker {
    /// The state before any entry.
    pub fn new() -> (r: OngoingTracker)
        ensures
            r@ == initial_ongoing(),
    {
        OngoingTracker {
            activity_index: 0,
            last_ending_index: None,
            has_any: false,
            has_after: false,
            shutdown_ids: StrSet::new(),
            pending_tool_ids: StrSet::new(),
        }
    }

    fn advance(&mut self)
        ensures
            final(self).activity_index as nat == next_position(old(self).activity_index as nat),
            final(self).last_ending_index == old(self).last_ending_index,
            final(self).has_any == old(self).has_any,
            final(self).has_after == old(self).has_after,
            final(self).shutdown_ids == old(self).shutdown_ids,
            final(self).pending_tool_ids == old(self).pending_tool_ids,
    {
        if self.activity_index < usize::MAX {
            self.activity_index = self.activity_index + 1;
        }
    }

    fn record_activity(&mut self)
        ensures
            final(self)@ == after_activity(old(self)@),
    {
        self.has_any = true;
        if self.last_ending_index.is_some() {
            self.has_after = true;
        }
        self.advance();
    }

    fn record_ending(&mut self)
        ensures
            final(self)@ == after_ending(old(self)@),
    {
        self.last_ending_index = Some(self.activity_index);
        self.has_after = false;
        self.advance();
    }

    fn clear_pending(&mut self)
        ensures
            final(self)@ == without_pending(old(self)@),
    {
        self.pending_tool_ids.clear();
    }

    fn assistant_block(&mut self, b: &JsonValue, approved: bool)
        ensures
            final(self)@ == assistant_block_step(old(self)@, *b, approved),
    {
        let bt = member_or_empty(b, "type");
        if str_eq(bt, "thinking") {
            if !blank(member_or_empty(b, "thinking")) {
                self.record_activity();
            }
        } else if str_eq(bt, "tool_use") {
            let id = member_or_empty(b, "id");
            if id.is_empty() {
                return;
            }
            if str_eq(member_or_empty(b, "name"), "ExitPlanMode") {
                self.record_ending();
            } else if approved {
                self.shutdown_ids.insert(String::from_str(id));
                self.record_ending();
            } else {
                self.pending_tool_ids.insert(String::from_str(id));
                self.record_activity();
            }
        } else if str_eq(bt, "text") {
            if !blank(member_or_empty(b, "text")) {
                self.record_ending();
            }
        }
    }

    /// Process an assistant entry: its thinking, tool calls and text blocks.
    /// `is_shutdown_approval` is asked, with the tool's name and input, for
    /// every tool call that has an id and is not a plan exit.
    pub fn scan_ongoing_assistant<F: Fn(&str, Option<&JsonValue>) -> bool>(
        &mut self,
        raw: &JsonValue,
        is_shutdown_approval: &F,
    )
        requires
            forall|n: &str, input: Option<&JsonValue>| call_requires(*is_shutdown_approval, (n, input)),
        ensures
            exists|approvals: Seq<bool>|
                (content_blocks(*raw) matches Some(bs) ==> approvals_given(*is_shutdown_approval, bs, approvals))
                && final(self)@ == assistant_step(old(self)@, *raw, approvals),
    {
        let blocks = match message_content_of(raw) {
            Some(JsonValue::Array(bs)) => bs,
            _ => {
                assert(final(self)@ == assistant_step(old(self)@, *raw, Seq::<bool>::empty()));
                return;
            },
        };
        let ghost mut approvals: Seq<bool> = Seq::empty();
        let ghost start = self@;
        let mut i: usize = 0;
        while i < blocks.len()
            invariant
                i <= blocks@.len(),
                forall|n: &str, input: Option<&JsonValue>| call_requires(*is_shutdown_approval, (n, input)),
                approvals_given(*is_shutdown_approval, blocks@.take(i as int), approvals),
                self@ == assistant_blocks_step(start, blocks@.take(i as int), approvals),
            decreases blocks.len() - i,
        {
            let b = &blocks[i];
            let ghost prefix = blocks@.take(i as int);
            assert(blocks@.take(i + 1).drop_last() =~= prefix);
            assert(blocks@.take(i + 1).last() == *b);
            let id = member_or_empty(b, "id");
            let name = member_or_empty(b, "name");
            let asked = str_eq(member_or_empty(b, "type"), "tool_use") && !id.is_empty()
                && !str_eq(name, "ExitPlanMode");
            let approved = if asked {
                let input = b.get("input");
                let a = is_shutdown_approval(name, input);
                assert(approval_given(*is_shutdown_approval, *b, a));
                a
            } else {
                false
            };
            let ghost next = approvals.push(approved);
            assert(assistant_blocks_step(start, prefix, next) == assistant_blocks_step(start, prefix, approvals)) by {
                lemma_assistant_blocks_prefix(start, prefix, approvals, next);
            }
            self.assistant_block(b, approved);
            proof {
                approvals = next;
                assert forall|k: int| 0 <= k < i + 1 && asks_approval(#[trigger] blocks@.take(i + 1)[k])
                    implies approval_given(*is_shutdown_approval, blocks@.take(i + 1)[k], approvals[k]) by {
                    if k < i {
                        assert(blocks@.take(i + 1)[k] == prefix[k]);
                    }
                }
            }
            i = i + 1;
        }
        assert(blocks@.take(blocks@.len() as int) =~= blocks@);
        assert(content_blocks(*raw) == Some(blocks@));
        assert((content_blocks(*raw) matches Some(bs) ==> approvals_given(*is_shutdown_approval, bs, approvals))
            && self@ == assistant_step(start, *raw, approvals));
    }

    fn user_block(&mut self, b: &JsonValue, rejection: bool)
        ensures
            final(self)@ == user_block_step(old(self)@, *b, rejection),
    {
        let bt = member_or_empty(b, "type");
        if str_eq(bt, "tool_result") {
            let id = member_or_empty(b, "tool_use_id");
            if id.is_empty() {
                return;
            }
            let was_shutdown = self.shutdown_ids.contains(id);
            self.pending_tool_ids.remove(id);
            if was_shutdown || rejection {
                self.record_ending();
            } else {
                self.record_activity();
            }
        } else if str_eq(bt, "text") {
            if is_interruption(member_or_empty(b, "text")) {
                self.clear_pending();
                self.record_ending();
            }
        }
    }

    /// Process a user entry: an interruption ends the turn, a tool result
    /// settles its pending call (an ending when the call approved a shutdown or
    /// the user rejected it), and content that continues the conversation
    /// drops the calls still pending.
    pub fn scan_ongoing_user(&mut self, raw: &JsonValue)
        ensures
            final(self)@ == user_step(old(self)@, *raw),
    {
        let rejection = is_tool_use_rejection(raw);
        match message_content_of(raw) {
            Some(JsonValue::Str(text)) => {
                if is_interruption(text.as_str()) {
                    self.clear_pending();
                    self.record_ending();
                } else if !blank(text.as_str()) {
                    self.clear_pending();
                }
            },
            Some(JsonValue::Array(blocks)) => {
                let ghost start = self@;
                let mut continues = false;
                let mut i: usize = 0;
                while i < blocks.len()
                    invariant
                        i <= blocks@.len(),
                        rejection == is_rejection(*raw),
                        self@ == user_blocks_step(start, blocks@.take(i as int), rejection),
                        continues <==> exists|k: int| 0 <= k < i && continues_conversation(#[trigger] blocks@[k]),
                    decreases blocks.len() - i,
                {
                    let b = &blocks[i];
                    assert(blocks@.take(i + 1).drop_last() =~= blocks@.take(i as int));
                    assert(blocks@.take(i + 1).last() == *b);
                    self.user_block(b, rejection);
                    let bt = member_or_empty(b, "type");
                    if str_eq(bt, "text") || str_eq(bt, "image") || str_eq(bt, "document") {
                        continues = true;
                    }
                    assert(continues_conversation(blocks@[i as int]) ==> continues);
                    i = i + 1;
                }
                assert(blocks@.take(blocks@.len() as int) =~= blocks@);
                if continues {
                    self.clear_pending();
                }
            },
            _ => {},
        }
    }

    /// Process one parsed transcript entry: main-chain assistant entries and
    /// user entries take part, provided that they have a `uuid` and were not
    /// inherited from a parent session.
    pub fn observe_entry<F: Fn(&str, Option<&JsonValue>) -> bool>(&mut self, raw: &JsonValue, is_shutdown_approval: &F)
        requires
            forall|n: &str, input: Option<&JsonValue>| call_requires(*is_shutdown_approval, (n, input)),
        ensures
            exists|approvals: Seq<bool>|
                entry_approvals_given(*is_shutdown_approval, *raw, approvals)
                && final(self)@ == entry_step(old(self)@, *raw, approvals),
    {
        let uuid = member_or_empty(raw, "uuid");
        let inherited = raw.get("forkedFrom").is_some();
        let entry_type = member_or_empty(raw, "type");
        let sidechain = match raw.get("isSidechain") {
            Some(v) => match v.as_bool() {
                Some(b) => b,
                None => false,
            },
            None => false,
        };
        if uuid.is_empty() || inherited {
            assert(entry_approvals_given(*is_shutdown_approval, *raw, Seq::<bool>::empty()));
            return;
        }
        let ghost before = self@;
        if str_eq(entry_type, "assistant") && !sidechain {
            self.scan_ongoing_assistant(raw, is_shutdown_approval);
            proof {
                let a = choose|a: Seq<bool>|
                    (content_blocks(*raw) matches Some(bs) ==> approvals_given(*is_shutdown_approval, bs, a))
                    && self@ == assistant_step(before, *raw, a);
                assert(counts_as(*raw, "assistant"@) && !is_sidechain(*raw));
                assert(entry_approvals_given(*is_shutdown_approval, *raw, a) && self@ == entry_step(before, *raw, a));
            }
        } else if str_eq(entry_type, "user") {
            self.scan_ongoing_user(raw);
            proof {
                let a = Seq::<bool>::empty();
                assert(counts_as(*raw, "user"@));
                assert(entry_approvals_given(*is_shutdown_approval, *raw, a) && self@ == entry_step(before, *raw, a));
            }
        } else {
            proof {
                let a = Seq::<bool>::empty();
                assert(entry_approvals_given(*is_shutdown_approval, *raw, a) && self@ == entry_step(before, *raw, a));
            }
        }
    }

    /// Whether the entries seen so far leave the session working.
    pub fn is_ongoing(&self) -> (r: bool)
        ensures
            r == ongoing_of(self@),
    {
        let mut ongoing = if self.last_ending_index.is_none() {
            self.has_any
        } else {
            self.has_after
        };
        if !ongoing && !self.pending_tool_ids.is_empty() && self.last_ending_index.is_none() {
            ongoing = true;
        }
        ongoing
    }
}

/// Whether the transcript given by its lines shows a session that is still
/// working, by the one-pass ongoing detection. Lines that are not JSON are
/// skipped; `is_shutdown_approval` is asked as [`OngoingTracker::scan_ongoing_assistant`]
/// describes.
pub fn scan_ongoing<F: Fn(&str, Option<&JsonValue>) -> bool>(lines: &[String], is_shutdown_approval: &F) -> (r: bool)
    requires
        forall|n: &str, input: Option<&JsonValue>| call_requires(*is_shutdown_approval, (n, input)),
    ensures
        exists|approvals: Seq<Seq<bool>>|
            transcript_approvals_given(*is_shutdown_approval, views(lines@), approvals)
            && r == ongoing_of(transcript_state(views(lines@), approvals)),
{
    let mut tracker = OngoingTracker::new();
    let ghost mut approvals: Seq<Seq<bool>> = Seq::empty();
    let mut i: usize = 0;
    while i < lines.len()
        invariant
            i <= lines@.len(),
            forall|n: &str, input: Option<&JsonValue>| call_requires(*is_shutdown_approval, (n, input)),
            transcript_approvals_given(*is_shutdown_approval, views(lines@.take(i as int)), approvals),
            tracker@ == transcript_state(views(lines@.take(i as int)), approvals),
        decreases lines.len() - i,
    {
        let ghost prefix = views(lines@.take(i as int));
        assert(views(lines@.take(i + 1)).drop_last() =~= prefix);
        assert(views(lines@.take(i + 1)).last() == lines@[i as int]@);
        let ghost before = tracker@;
        let ghost mut step: Seq<bool> = Seq::empty();
        match JsonValue::parse(lines[i].as_str()) {
            Some(raw) => {
                tracker.observe_entry(&raw, is_shutdown_approval);
                proof {
                    step = choose|a: Seq<bool>|
                        entry_approvals_given(*is_shutdown_approval, raw, a)
                        && tracker@ == entry_step(before, raw, a);
                }
            },
            None => {},
        }
        proof {
            let next = approvals.push(step);
            lemma_transcript_prefix(prefix, approvals, next);
            let lines_next = views(lines@.take(i + 1));
            assert forall|k: int| 0 <= k < lines_next.len() implies
                (#[trigger] parsed_json(lines_next[k]) matches Some(raw) ==> entry_approvals_given(*is_shutdown_approval, raw, next[k])) by {
                if k < i {
                    assert(lines_next[k] == prefix[k]);
                    assert(parsed_json(prefix[k]) matches Some(raw) ==> entry_approvals_given(*is_shutdown_approval, raw, approvals[k]));
                }
            }
            approvals = next;
        }
        i = i + 1;
    }
    assert(lines@.take(lines@.len() as int) =~= lines@);
    tracker.is_ongoing()
}

/// Whether a user message's content carries something the user wrote: a
/// string content with a non-blank text `text_content`, or an array with a
/// `text` or `image` block.
pub open spec fn has_user_content(content: Option<JsonValue>, text_content: Seq<char>) -> bool {
    match content {
        Some(JsonValue::Str(_)) => !is_blank(text_content),
        Some(JsonValue::Array(bs)) => has_text_or_image(bs@),
        _ => false,
    }
}

/// Whether one of the blocks is a `text` or an `image` block.
pub open spec fn has_text_or_image(bs: Seq<JsonValue>) -> bool {
    exists|i: int| 0 <= i < bs.len() && is_text_or_image(#[trigger] bs[i])
}

/// Whether the block is a `text` or an `image` block.
pub open spec fn is_text_or_image(b: JsonValue) -> bool {
    member_text(b, "type"@) == "text"@ || member_text(b, "type"@) == "image"@
}

/// Whether a user message's content carries something the user wrote;
/// `str_content` is the text extracted from it.
pub fn has_user_content_raw(raw: Option<&JsonValue>, str_content: &str) -> (r: bool)
    ensures
        r == has_user_content(deref_opt(raw), str_content@),
{
    match raw {
        Some(JsonValue::Str(_)) => !blank(str_content),
        Some(JsonValue::Array(blocks)) => {
            let mut i: usize = 0;
            while i < blocks.len()
                invariant
                    i <= blocks@.len(),
                    deref_opt(raw) == Some(JsonValue::Array(*blocks)),
                    forall|k: int| 0 <= k < i ==> !is_text_or_image(#[trigger] blocks@[k]),
                decreases blocks.len() - i,
            {
                let bt = member_or_empty(&blocks[i], "type");
                if str_eq(bt, "text") || str_eq(bt, "image") {
                    assert(is_text_or_image(blocks@[i as int]));
                    return true;
                }
                i = i + 1;
            }
            false
        },
        _ => false,
    }
}

/// An ending event always leaves the session not working.
pub proof fn lemma_ending_settles(st: OngoingView)
    ensures
        !ongoing_of(after_ending(st)),
{
}

/// An activity event always leaves the session working.
pub proof fn lemma_activity_keeps_working(st: OngoingView)
    ensures
        ongoing_of(after_activity(st)),
{
}

/// A transcript with no entry is not working.
pub proof fn lemma_empty_transcript_settled(approvals: Seq<Seq<bool>>)
    ensures
        !ongoing_of(transcript_state(Seq::empty(), approvals)),
{
}

/// A user entry that continues the conversation (a non-blank text, or a
/// text, image or document block) leaves no tool call pending: calls still
/// pending before it are orphans of a rewound timeline.
pub proof fn lemma_user_continuation_drops_pending(st: OngoingView, raw: JsonValue)
    requires
        match message_content(raw) {
            Some(JsonValue::Str(t)) => !is_blank(t@),
            Some(JsonValue::Array(bs)) => exists|i: int| 0 <= i < bs@.len() && continues_conversation(#[trigger] bs@[i]),
            _ => false,
        },
    ensures
        user_step(st, raw).pending == Set::<Seq<char>>::empty(),
{
}

/// A user interruption always leaves the session not working and no tool
/// call pending.
pub proof fn lemma_interruption_settles(st: OngoingView, raw: JsonValue)
    requires
        message_content(raw) matches Some(JsonValue::Str(t)) && starts_with(t@, interrupt_marker()),
    ensures
        !ongoing_of(user_step(st, raw)),
        user_step(st, raw).pending == Set::<Seq<char>>::empty(),
{
}

/// The last ending lies before the current position.
pub open spec fn ending_before_activity(st: OngoingView) -> bool {
    st.last_ending matches Some(i) ==> i < st.activity
}

/// The number of content blocks of an entry whose content is an array, else 0.
pub open spec fn block_count(raw: JsonValue) -> nat {
    match message_content(raw) {
        Some(JsonValue::Array(bs)) => bs@.len(),
        _ => 0,
    }
}

proof fn lemma_assistant_blocks_monotone(st: OngoingView, blocks: Seq<JsonValue>, approvals: Seq<bool>)
    ensures
        ({
            let r = assistant_blocks_step(st, blocks, approvals);
            &&& st.activity <= r.activity <= st.activity + blocks.len()
            &&& st.pending.subset_of(r.pending)
            &&& st.shutdown.subset_of(r.shutdown)
            &&& (ending_before_activity(st) && st.activity + blocks.len() <= usize::MAX) ==> ending_before_activity(r)
        }),
    decreases blocks.len(),
{
    if blocks.len() > 0 {
        lemma_assistant_blocks_monotone(st, blocks.drop_last(), approvals);
    }
}

/// What an assistant entry does to the detection state: the position never
/// moves back and moves by at most one per content block, tool calls are
/// only added to the pending and shutdown sets (an assistant entry resolves
/// none), and the last ending stays before the position, as long as the
/// position does not reach `usize::MAX`.
pub proof fn lemma_assistant_entry_monotone(st: OngoingView, raw: JsonValue, approvals: Seq<bool>)
    ensures
        ({
            let r = assistant_step(st, raw, approvals);
            &&& st.activity <= r.activity <= st.activity + block_count(raw)
            &&& st.pending.subset_of(r.pending)
            &&& st.shutdown.subset_of(r.shutdown)
            &&& (ending_before_activity(st) && st.activity + block_count(raw) <= usize::MAX) ==> ending_before_activity(r)
        }),
{
    if let Some(bs) = content_blocks(raw) {
        lemma_assistant_blocks_monotone(st, bs, approvals);
    }
}

proof fn lemma_user_blocks_monotone(st: OngoingView, blocks: Seq<JsonValue>, rejection: bool)
    ensures
        ({
            let r = user_blocks_step(st, blocks, rejection);
            &&& st.activity <= r.activity <= st.activity + blocks.len()
            &&& r.pending.subset_of(st.pending)
            &&& r.shutdown == st.shutdown
            &&& (ending_before_activity(st) && st.activity + blocks.len() <= usize::MAX) ==> ending_before_activity(r)
        }),
    decreases blocks.len(),
{
    if blocks.len() > 0 {
        lemma_user_blocks_monotone(st, blocks.drop_last(), rejection);
    }
}

/// What a user entry does to the detection state: the position never moves
/// back and moves by at most one per content block (one for a text
/// content), the shutdown set is unchanged, tool calls are only removed from
/// the pending set, and the last ending stays before the position, as long
/// as the position does not reach `usize::MAX`.
pub proof fn lemma_user_entry_monotone(st: OngoingView, raw: JsonValue)
    ensures
        ({
            let r = user_step(st, raw);
            &&& st.activity <= r.activity <= st.activity + block_count(raw) + 1
            &&& r.pending.subset_of(st.pending)
            &&& r.shutdown == st.shutdown
            &&& (ending_before_activity(st) && st.activity + block_count(raw) + 1 <= usize::MAX) ==> ending_before_activity(r)
        }),
{
    match message_content(raw) {
        Some(JsonValue::Array(bs)) => {
            lemma_user_blocks_monotone(st, bs@, is_rejection(raw));
        },
        _ => {},
    }
}

/// A tool call that is running (a `tool_use` block with an id, not a plan
/// exit, whose call does not approve a shutdown) is activity: whatever came
/// before, even an answered turn, the session is working afterwards, and the
/// call waits for its result.
pub proof fn lemma_running_tool_call_is_ongoing(st: OngoingView, b: JsonValue)
    requires
        member_text(b, "type"@) == "tool_use"@,
        member_text(b, "id"@).len() > 0,
        member_text(b, "name"@) != "ExitPlanMode"@,
    ensures
        ongoing_of(assistant_block_step(st, b, false)),
        assistant_block_step(st, b, false).pending.contains(member_text(b, "id"@)),
        assistant_block_step(st, b, false).last_ending == st.last_ending,
{
    reveal_strlit("thinking");
    reveal_strlit("tool_use");
    assert("tool_use"@[1] != "thinking"@[1]);
    assert("tool_use"@ != "thinking"@);
    let st1 = OngoingView { pending: st.pending.insert(member_text(b, "id"@)), ..st };
    assert(assistant_block_step(st, b, false) == after_activity(st1));
}

/// An assistant entry whose last content block is a running tool call leaves
/// the session working, whatever state it is read in.
pub proof fn lemma_entry_ending_in_running_tool_call_is_ongoing(st: OngoingView, raw: JsonValue, approvals: Seq<bool>)
    requires
        content_blocks(raw) matches Some(bs) && bs.len() > 0 && {
            let b = bs.last();
            &&& member_text(b, "type"@) == "tool_use"@
            &&& member_text(b, "id"@).len() > 0
            &&& member_text(b, "name"@) != "ExitPlanMode"@
            &&& approvals[bs.len() - 1] == false
        },
    ensures
        ongoing_of(assistant_step(st, raw, approvals)),
{
    let bs = content_blocks(raw)->0;
    lemma_running_tool_call_is_ongoing(assistant_blocks_step(st, bs.drop_last(), approvals), bs.last());
}

/// With an approval check that never approves, a transcript whose last line
/// is a main-chain assistant entry ending in a tool call (with an id, not a
/// plan exit) is working, whatever the earlier lines hold.
pub proof fn lemma_transcript_ending_in_tool_call_is_ongoing<F: Fn(&str, Option<&JsonValue>) -> bool>(
    is_shutdown_approval: F,
    lines: Seq<Seq<char>>,
    approvals: Seq<Seq<bool>>,
)
    requires
        forall|n: &str, input: Option<&JsonValue>, r: bool| call_ensures(is_shutdown_approval, (n, input), r) ==> !r,
        transcript_approvals_given(is_shutdown_approval, lines, approvals),
        lines.len() > 0,
        parsed_json(lines.last()) matches Some(raw) && {
            &&& counts_as(raw, "assistant"@)
            &&& !is_sidechain(raw)
            &&& content_blocks(raw) matches Some(bs) && bs.len() > 0 && {
                let b = bs.last();
                &&& member_text(b, "type"@) == "tool_use"@
                &&& member_text(b, "id"@).len() > 0
                &&& member_text(b, "name"@) != "ExitPlanMode"@
            }
        },
    ensures
        ongoing_of(transcript_state(lines, approvals)),
{
    reveal_strlit("tool_use");
    let raw = parsed_json(lines.last())->0;
    let bs = content_blocks(raw)->0;
    let k = lines.len() - 1;
    assert(parsed_json(lines[k]) matches Some(r) && r == raw);
    assert(entry_approvals_given(is_shutdown_approval, raw, approvals[k]));
    let a = approvals[k];
    assert(asks_approval(bs[bs.len() - 1]));
    assert(approval_given(is_shutdown_approval, bs[bs.len() - 1], a[bs.len() - 1]));
    assert(a[bs.len() - 1] == false);
    lemma_entry_ending_in_running_tool_call_is_ongoing(transcript_state(lines.drop_last(), approvals), raw, a);
}

} // verus!
