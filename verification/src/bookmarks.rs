use vstd::prelude::*;
use crate::registry::opt_text;
use crate::session::{dup_opt_string, SessionInfo};
use crate::text::{str_eq, trim, trim_text};
use crate::time::{rfc3339, rfc3339_text};

verus! {

/// Snapshot of a session's numbers, stored with its bookmark.
pub struct BookmarkMeta {
    pub model: String,
    pub turn_count: i32,
    pub total_tokens: i64,
    pub input_tokens: i64,
    pub output_tokens: i64,
    pub cache_read_tokens: i64,
    pub cache_creation_tokens: i64,
    pub context_tokens: i64,
    /// Cost in US dollars, as the bit pattern of its `f64` value.
    pub cost_usd_bits: u64,
    pub duration_ms: i64,
    /// Modification time of the session, as RFC 3339 text.
    pub mod_time: String,
    pub size_bytes: i64,
    /// The session's `recap_turn` when `recap` was last synced.
    pub recap_turn: i32,
}

/// A bookmarked session.
pub struct Bookmark {
    pub session_id: String,
    pub label: String,
    pub recap: Option<String>,
    pub meta: BookmarkMeta,
    pub bookmarked_at: String,
}

impl Default for BookmarkMeta {
    fn default() -> (r: BookmarkMeta)
        ensures
            r.model@.len() == 0 && r.mod_time@.len() == 0,
            r.turn_count == 0 && r.total_tokens == 0 && r.input_tokens == 0 && r.output_tokens == 0,
            r.cache_read_tokens == 0 && r.cache_creation_tokens == 0 && r.context_tokens == 0,
            r.cost_usd_bits == 0 && r.duration_ms == 0 && r.size_bytes == 0 && r.recap_turn == 0,
    {
        BookmarkMeta {
            model: String::new(),
            turn_count: 0,
            total_tokens: 0,
            input_tokens: 0,
            output_tokens: 0,
            cache_read_tokens: 0,
            cache_creation_tokens: 0,
            context_tokens: 0,
            cost_usd_bits: 0,
            duration_ms: 0,
            mod_time: String::new(),
            size_bytes: 0,
            recap_turn: 0,
        }
    }
}

impl Default for Bookmark {
    fn default() -> (r: Bookmark)
        ensures
            r.session_id@.len() == 0 && r.label@.len() == 0 && r.recap is None && r.bookmarked_at@.len() == 0,
            r.meta.model@.len() == 0 && r.meta.mod_time@.len() == 0,
            r.meta.turn_count == 0 && r.meta.total_tokens == 0 && r.meta.input_tokens == 0,
            r.meta.output_tokens == 0 && r.meta.cache_read_tokens == 0 && r.meta.cache_creation_tokens == 0,
            r.meta.context_tokens == 0 && r.meta.cost_usd_bits == 0 && r.meta.duration_ms == 0,
            r.meta.size_bytes == 0 && r.meta.recap_turn == 0,
    {
        Bookmark {
            session_id: String::new(),
            label: String::new(),
            recap: None,
            meta: BookmarkMeta::default(),
            bookmarked_at: String::new(),
        }
    }
}

impl BookmarkMeta {
    /// A copy equal to this snapshot.
    pub fn duplicate(&self) -> (r: BookmarkMeta)
        ensures
            r == *self,
    {
        BookmarkMeta {
            model: self.model.clone(),
            turn_count: self.turn_count,
            total_tokens: self.total_tokens,
            input_tokens: self.input_tokens,
            output_tokens: self.output_tokens,
            cache_read_tokens: self.cache_read_tokens,
            cache_creation_tokens: self.cache_creation_tokens,
            context_tokens: self.context_tokens,
            cost_usd_bits: self.cost_usd_bits,
            duration_ms: self.duration_ms,
            mod_time: self.mod_time.clone(),
            size_bytes: self.size_bytes,
            recap_turn: self.recap_turn,
        }
    }
}

impl Bookmark {
    /// A copy equal to this bookmark.
    pub fn duplicate(&self) -> (r: Bookmark)
        ensures
            r == *self,
    {
        Bookmark {
            session_id: self.session_id.clone(),
            label: self.label.clone(),
            recap: dup_opt_string(&self.recap),
            meta: self.meta.duplicate(),
            bookmarked_at: self.bookmarked_at.clone(),
        }
    }
}

/// The bookmarks of `s` whose session id is not `id`, in order.
pub open spec fn without_id(s: Seq<Bookmark>, id: Seq<char>) -> Seq<Bookmark>
    decreases s.len(),
{
    if s.len() == 0 {
        Seq::empty()
    } else if s.last().session_id@ == id {
        without_id(s.drop_last(), id)
    } else {
        without_id(s.drop_last(), id).push(s.last())
    }
}

/// The list after bookmarking `b`: `b` first, followed by the earlier
/// bookmarks of other sessions in their order.
pub open spec fn upserted(s: Seq<Bookmark>, b: Bookmark) -> Seq<Bookmark> {
    seq![b] + without_id(s, b.session_id@)
}

/// No two bookmarks are for the same session.
pub open spec fn ids_distinct(s: Seq<Bookmark>) -> bool {
    forall|i: int, j: int| 0 <= i < s.len() && 0 <= j < s.len() && i != j ==> #[trigger] s[i].session_id@ != #[trigger] s[j].session_id@
}

proof fn lemma_without_id_members(s: Seq<Bookmark>, id: Seq<char>)
    ensures
        forall|i: int| 0 <= i < without_id(s, id).len() ==> #[trigger] without_id(s, id)[i].session_id@ != id,
        forall|i: int| 0 <= i < without_id(s, id).len() ==> s.contains(#[trigger] without_id(s, id)[i]),
        without_id(s, id).len() <= s.len(),
    decreases s.len(),
{
    if s.len() > 0 {
        let d = s.drop_last();
        lemma_without_id_members(d, id);
        let w = without_id(d, id);
        let r = without_id(s, id);
        assert(r == w || r == w.push(s.last()));
        assert forall|i: int| 0 <= i < r.len() implies #[trigger] r[i].session_id@ != id && s.contains(r[i]) by {
            if i < w.len() {
                assert(r[i] == w[i]);
                assert(d.contains(w[i]));
                let k = choose|k: int| 0 <= k < d.len() && d[k] == w[i];
                assert(s[k] == d[k]);
            } else {
                assert(r == w.push(s.last()));
                assert(r[i] == s.last());
                assert(s[s.len() - 1] == r[i]);
            }
        }
    }
}

proof fn lemma_without_id_absent(s: Seq<Bookmark>, id: Seq<char>)
    requires
        forall|i: int| 0 <= i < s.len() ==> #[trigger] s[i].session_id@ != id,
    ensures
        without_id(s, id) == s,
    decreases s.len(),
{
    if s.len() > 0 {
        lemma_without_id_absent(s.drop_last(), id);
        assert(s.drop_last().push(s.last()) =~= s);
    }
}

proof fn lemma_without_id_distinct(s: Seq<Bookmark>, id: Seq<char>)
    requires
        ids_distinct(s),
    ensures
        ids_distinct(without_id(s, id)),
    decreases s.len(),
{
    if s.len() > 0 {
        let d = s.drop_last();
        assert(ids_distinct(d)) by {
            assert forall|i: int, j: int| 0 <= i < d.len() && 0 <= j < d.len() && i != j implies
                #[trigger] d[i].session_id@ != #[trigger] d[j].session_id@ by {
                assert(d[i] == s[i] && d[j] == s[j]);
            }
        }
        lemma_without_id_distinct(d, id);
        lemma_without_id_members(d, id);
        let w = without_id(d, id);
        if s.last().session_id@ != id {
            let r = w.push(s.last());
            assert forall|i: int, j: int| 0 <= i < r.len() && 0 <= j < r.len() && i != j implies
                #[trigger] r[i].session_id@ != #[trigger] r[j].session_id@ by {
                if i < w.len() && j < w.len() {
                    assert(r[i] == w[i] && r[j] == w[j]);
                } else if i < w.len() {
                    let k = choose|k: int| 0 <= k < d.len() && d[k] == w[i];
                    assert(s[k] == r[i]);
                    assert(s[s.len() - 1] == r[j]);
                } else {
                    let k = choose|k: int| 0 <= k < d.len() && d[k] == w[j];
                    assert(s[k] == r[j]);
                    assert(s[s.len() - 1] == r[i]);
                }
            }
        }
    }
}

/// A bookmark just made comes first, and no other bookmark of the list is for
/// its session.
pub proof fn lemma_upsert_puts_first(s: Seq<Bookmark>, b: Bookmark)
    ensures
        upserted(s, b)[0] == b,
        forall|i: int| 1 <= i < upserted(s, b).len() ==> #[trigger] upserted(s, b)[i].session_id@ != b.session_id@,
        upserted(s, b).len() <= s.len() + 1,
{
    lemma_without_id_members(s, b.session_id@);
    let w = without_id(s, b.session_id@);
    assert forall|i: int| 1 <= i < upserted(s, b).len() implies #[trigger] upserted(s, b)[i].session_id@ != b.session_id@ by {
        assert(upserted(s, b)[i] == w[i - 1]);
    }
}

/// Bookmarking keeps the list free of two bookmarks for one session.
pub proof fn lemma_upsert_keeps_ids_distinct(s: Seq<Bookmark>, b: Bookmark)
    requires
        ids_distinct(s),
    ensures
        ids_distinct(upserted(s, b)),
{
    lemma_without_id_distinct(s, b.session_id@);
    lemma_upsert_puts_first(s, b);
    let w = without_id(s, b.session_id@);
    let r = upserted(s, b);
    assert forall|i: int, j: int| 0 <= i < r.len() && 0 <= j < r.len() && i != j implies
        #[trigger] r[i].session_id@ != #[trigger] r[j].session_id@ by {
        if i > 0 && j > 0 {
            assert(r[i] == w[i - 1] && r[j] == w[j - 1]);
        }
    }
}

/// Bookmarking the same bookmark twice gives the list that bookmarking it
/// once gives.
pub proof fn lemma_upsert_idempotent(s: Seq<Bookmark>, b: Bookmark)
    ensures
        upserted(upserted(s, b), b) == upserted(s, b),
{
    let id = b.session_id@;
    let w = without_id(s, id);
    lemma_without_id_members(s, id);
    lemma_without_id_absent(w, id);
    let u = upserted(s, b);
    assert(u.drop_first() =~= w);
    lemma_without_id_prepend(w, b, id);
}

proof fn lemma_without_id_prepend(w: Seq<Bookmark>, b: Bookmark, id: Seq<char>)
    requires
        b.session_id@ == id,
    ensures
        without_id(seq![b] + w, id) == without_id(w, id),
    decreases w.len(),
{
    let p = seq![b] + w;
    if w.len() == 0 {
        assert(p.drop_last() =~= Seq::<Bookmark>::empty());
        assert(p.last() == b);
        assert(without_id(p, id) == without_id(p.drop_last(), id));
        assert(without_id(Seq::<Bookmark>::empty(), id) =~= Seq::<Bookmark>::empty());
    } else {
        lemma_without_id_prepend(w.drop_last(), b, id);
        assert(p.drop_last() =~= seq![b] + w.drop_last());
        assert(p.last() == w.last());
    }
}

/// Removing a session's bookmark right after bookmarking it leaves the list
/// that removing it from the original list leaves: the other bookmarks, in
/// their order.
pub proof fn lemma_remove_undoes_upsert(s: Seq<Bookmark>, b: Bookmark)
    ensures
        without_id(upserted(s, b), b.session_id@) == without_id(s, b.session_id@),
{
    let id = b.session_id@;
    let w = without_id(s, id);
    lemma_without_id_members(s, id);
    lemma_without_id_absent(w, id);
    lemma_without_id_prepend(w, b, id);
}

/// Removing a bookmark leaves every other session's bookmarks in place, and
/// none for the removed session.
pub proof fn lemma_remove_drops_only_session(s: Seq<Bookmark>, id: Seq<char>)
    ensures
        forall|i: int| 0 <= i < without_id(s, id).len() ==> #[trigger] without_id(s, id)[i].session_id@ != id,
        forall|i: int| 0 <= i < s.len() && s[i].session_id@ != id ==> without_id(s, id).contains(#[trigger] s[i]),
    decreases s.len(),
{
    lemma_without_id_members(s, id);
    if s.len() > 0 {
        let d = s.drop_last();
        lemma_remove_drops_only_session(d, id);
        assert forall|i: int| 0 <= i < s.len() && s[i].session_id@ != id implies without_id(s, id).contains(#[trigger] s[i]) by {
            if i < d.len() {
                assert(d[i] == s[i]);
                let w = without_id(d, id);
                let k = choose|k: int| 0 <= k < w.len() && w[k] == d[i];
                if s.last().session_id@ != id {
                    assert(without_id(s, id)[k] == w[k]);
                } else {
                    assert(without_id(s, id) == w);
                }
            } else {
                assert(without_id(s, id)[without_id(s, id).len() - 1] == s[i]);
            }
        }
    }
}

/// The bookmarks of `list` that are not for the session `id`, in order.
fn kept_without(list: &Vec<Bookmark>, id: &str) -> (r: Vec<Bookmark>)
    ensures
        r@ == without_id(list@, id@),
{
    let mut out: Vec<Bookmark> = Vec::new();
    let mut i: usize = 0;
    while i < list.len()
        invariant
            i <= list@.len(),
            out@ == without_id(list@.take(i as int), id@),
        decreases list.len() - i,
    {
        assert(list@.take(i + 1).drop_last() =~= list@.take(i as int));
        assert(list@.take(i + 1).last() == list@[i as int]);
        if !str_eq(list[i].session_id.as_str(), id) {
            out.push(list[i].duplicate());
        }
        i = i + 1;
    }
    assert(list@.take(list@.len() as int) =~= list@);
    out
}

/// Bookmark `b`: drop any earlier bookmark of the same session and put `b`
/// first.
pub fn upsert(list: &mut Vec<Bookmark>, b: Bookmark)
    ensures
        final(list)@ == upserted(old(list)@, b),
{
    let rest = kept_without(list, b.session_id.as_str());
    let mut out: Vec<Bookmark> = Vec::new();
    out.push(b);
    let mut i: usize = 0;
    let ghost first = out@;
    while i < rest.len()
        invariant
            i <= rest@.len(),
            out@ == first + rest@.take(i as int),
        decreases rest.len() - i,
    {
        out.push(rest[i].duplicate());
        i = i + 1;
        assert(out@ =~= first + rest@.take(i as int));
    }
    assert(rest@.take(rest@.len() as int) =~= rest@);
    *list = out;
}

/// Drop every bookmark of the session `session_id`.
pub fn remove(list: &mut Vec<Bookmark>, session_id: &str)
    ensures
        final(list)@ == without_id(old(list)@, session_id@),
{
    let rest = kept_without(list, session_id);
    *list = rest;
}

/// The non-blank `/rename` name of a live session, trimmed.
pub open spec fn live_name(s: SessionInfo) -> Option<Seq<char>> {
    match s.name {
        Some(n) => if trim_text(n@).len() > 0 { Some(trim_text(n@)) } else { None },
        None => None,
    }
}

/// The non-empty recap of a live session.
pub open spec fn live_recap(s: SessionInfo) -> Option<Seq<char>> {
    match s.recap {
        Some(r) => if r@.len() > 0 { Some(r@) } else { None },
        None => None,
    }
}

/// The live session has a name that differs from the bookmark's label.
pub open spec fn name_changes(b: Bookmark, s: SessionInfo) -> bool {
    live_name(s) matches Some(n) && b.label@ != n
}

/// The live session has a recap that differs from the bookmark's recap or
/// from its recorded recap turn.
pub open spec fn recap_changes(b: Bookmark, s: SessionInfo) -> bool {
    live_recap(s) matches Some(r) && (opt_text(b.recap) != Some(r) || b.meta.recap_turn != s.recap_turn)
}

/// Whether the `f64` with bit pattern `x` is a NaN: all exponent bits set
/// and a non-zero fraction.
pub open spec fn f64_bits_nan(x: u64) -> bool {
    (x & 0x7ff0_0000_0000_0000) == 0x7ff0_0000_0000_0000 && (x & 0x000f_ffff_ffff_ffff) != 0
}

/// Whether the `f64` with bit pattern `x` is a zero (`+0.0` or `-0.0`).
pub open spec fn f64_bits_zero(x: u64) -> bool {
    (x & 0x7fff_ffff_ffff_ffff) == 0
}

/// Whether the `f64` values with bit patterns `a` and `b` differ by `!=`: a
/// NaN differs from everything, the two zeros are equal, and other values
/// are equal exactly when their bits are.
pub open spec fn f64_bits_differ(a: u64, b: u64) -> bool {
    f64_bits_nan(a) || f64_bits_nan(b) || (a != b && !(f64_bits_zero(a) && f64_bits_zero(b)))
}

/// `!=` on the `f64` values with bit patterns `a` and `b`.
pub fn f64_bits_ne(a: u64, b: u64) -> (r: bool)
    ensures
        r == f64_bits_differ(a, b),
{
    let a_nan = (a & 0x7ff0_0000_0000_0000) == 0x7ff0_0000_0000_0000 && (a & 0x000f_ffff_ffff_ffff) != 0;
    let b_nan = (b & 0x7ff0_0000_0000_0000) == 0x7ff0_0000_0000_0000 && (b & 0x000f_ffff_ffff_ffff) != 0;
    let both_zero = (a & 0x7fff_ffff_ffff_ffff) == 0 && (b & 0x7fff_ffff_ffff_ffff) == 0;
    a_nan || b_nan || (a != b && !both_zero)
}

/// Some stored number (or the model) differs from the live session's; the
/// costs are compared as `f64` values.
pub open spec fn numbers_lag(m: BookmarkMeta, s: SessionInfo) -> bool {
    ||| m.model@ != s.model@
    ||| m.turn_count != s.turn_count
    ||| m.total_tokens != s.total_tokens
    ||| m.input_tokens != s.input_tokens
    ||| m.output_tokens != s.output_tokens
    ||| m.cache_read_tokens != s.cache_read_tokens
    ||| m.cache_creation_tokens != s.cache_creation_tokens
    ||| m.context_tokens != s.context_tokens
    ||| f64_bits_differ(m.cost_usd_bits, s.cost_usd_bits)
    ||| m.duration_ms != s.duration_ms
}

/// The numbers are synced: they lag, and either the name or recap changed
/// or the session has settled (is not ongoing).
pub open spec fn numbers_sync(b: Bookmark, s: SessionInfo) -> bool {
    numbers_lag(b.meta, s) && (name_changes(b, s) || recap_changes(b, s) || !s.is_ongoing)
}

/// The stored numbers equal the live session's, with its modification time as
/// RFC 3339 text.
pub open spec fn has_numbers_of(m: BookmarkMeta, s: SessionInfo) -> bool {
    &&& m.model@ == s.model@
    &&& m.turn_count == s.turn_count
    &&& m.total_tokens == s.total_tokens
    &&& m.input_tokens == s.input_tokens
    &&& m.output_tokens == s.output_tokens
    &&& m.cache_read_tokens == s.cache_read_tokens
    &&& m.cache_creation_tokens == s.cache_creation_tokens
    &&& m.context_tokens == s.context_tokens
    &&& m.cost_usd_bits == s.cost_usd_bits
    &&& m.duration_ms == s.duration_ms
    &&& m.mod_time@ == rfc3339_text(s.mod_time)
}

/// The numbers, model and modification time of `a` and `b` agree.
pub open spec fn same_numbers(a: BookmarkMeta, b: BookmarkMeta) -> bool {
    &&& a.model == b.model
    &&& a.turn_count == b.turn_count
    &&& a.total_tokens == b.total_tokens
    &&& a.input_tokens == b.input_tokens
    &&& a.output_tokens == b.output_tokens
    &&& a.cache_read_tokens == b.cache_read_tokens
    &&& a.cache_creation_tokens == b.cache_creation_tokens
    &&& a.context_tokens == b.context_tokens
    &&& a.cost_usd_bits == b.cost_usd_bits
    &&& a.duration_ms == b.duration_ms
    &&& a.mod_time == b.mod_time
}

/// Copy every number of the live session onto the stored snapshot.
fn copy_numbers(meta: &mut BookmarkMeta, s: &SessionInfo)
    ensures
        has_numbers_of(*final(meta), *s),
        final(meta).size_bytes == old(meta).size_bytes,
        final(meta).recap_turn == old(meta).recap_turn,
{
    meta.model = s.model.clone();
    meta.turn_count = s.turn_count;
    meta.total_tokens = s.total_tokens;
    meta.input_tokens = s.input_tokens;
    meta.output_tokens = s.output_tokens;
    meta.cache_read_tokens = s.cache_read_tokens;
    meta.cache_creation_tokens = s.cache_creation_tokens;
    meta.context_tokens = s.context_tokens;
    meta.cost_usd_bits = s.cost_usd_bits;
    meta.duration_ms = s.duration_ms;
    meta.mod_time = rfc3339(s.mod_time);
}

/// Whether reconciling the bookmark `before` from the live session `s` may
/// give `after`, reporting `changed`: a non-blank name replaces the label; a
/// non-empty recap replaces the recap and its turn; the numbers sync when they
/// lag and either the name or recap changed or the session has settled;
/// everything else stays.
pub open spec fn reconciled(before: Bookmark, s: SessionInfo, after: Bookmark, changed: bool) -> bool {
    &&& changed == (name_changes(before, s) || recap_changes(before, s) || numbers_sync(before, s))
    &&& after.session_id == before.session_id
    &&& after.bookmarked_at == before.bookmarked_at
    &&& after.label@ == (match live_name(s) {
        Some(n) => n,
        None => before.label@,
    })
    &&& (!name_changes(before, s) ==> after.label == before.label)
    &&& opt_text(after.recap) == (match live_recap(s) {
        Some(r) => Some(r),
        None => opt_text(before.recap),
    })
    &&& (live_recap(s) is None ==> after.recap == before.recap)
    &&& after.meta.recap_turn == (if live_recap(s) is Some { s.recap_turn } else { before.meta.recap_turn })
    &&& after.meta.size_bytes == before.meta.size_bytes
    &&& (numbers_sync(before, s) ==> has_numbers_of(after.meta, s))
    &&& (!numbers_sync(before, s) ==> same_numbers(after.meta, before.meta))
}

/// Reconcile a stored bookmark from the live session it mirrors. A non-blank
/// name replaces the label; a non-empty recap replaces the recap and its turn
/// (never with nothing); the numbers sync only when they lag and either the
/// name/recap changed or the session is no longer ongoing. Returns whether
/// anything changed (false: the caller need not persist).
pub fn reconcile_one(b: &mut Bookmark, s: &SessionInfo) -> (changed: bool)
    ensures
        reconciled(*old(b), *s, *final(b), changed),
        !changed ==> *final(b) == *old(b),
{
    let mut changed = false;
    let ghost b0 = *b;

    match &s.name {
        Some(n) => {
            let t = trim(n.as_str());
            if !t.as_str().is_empty() {
                if !str_eq(b.label.as_str(), t.as_str()) {
                    b.label = t;
                    changed = true;
                }
            }
        },
        None => {},
    }

    match &s.recap {
        Some(r) => {
            if !r.as_str().is_empty() {
                let same = match &b.recap {
                    Some(x) => str_eq(x.as_str(), r.as_str()),
                    None => false,
                };
                if !same {
                    b.recap = Some(r.clone());
                    changed = true;
                }
                if b.meta.recap_turn != s.recap_turn {
                    b.meta.recap_turn = s.recap_turn;
                    changed = true;
                }
            }
        },
        None => {},
    }
    assert(changed == (name_changes(b0, *s) || recap_changes(b0, *s)));
    assert(same_numbers(b.meta, b0.meta));

    let m = &b.meta;
    let numbers_lag = !str_eq(m.model.as_str(), s.model.as_str())
        || m.turn_count != s.turn_count
        || m.total_tokens != s.total_tokens
        || m.input_tokens != s.input_tokens
        || m.output_tokens != s.output_tokens
        || m.cache_read_tokens != s.cache_read_tokens
        || m.cache_creation_tokens != s.cache_creation_tokens
        || m.context_tokens != s.context_tokens
        || f64_bits_ne(m.cost_usd_bits, s.cost_usd_bits)
        || m.duration_ms != s.duration_ms;
    if numbers_lag && (changed || !s.is_ongoing) {
        copy_numbers(&mut b.meta, s);
        changed = true;
    }
    changed
}

/// Reconciling is idempotent: once a bookmark has been reconciled from a
/// live session, reconciling it again from the same session changes nothing.
/// A session whose cost is NaN is left out: NaN differs from itself, so its
/// numbers never stop lagging.
pub proof fn lemma_reconcile_settles(before: Bookmark, s: SessionInfo, after: Bookmark, changed: bool)
    requires
        reconciled(before, s, after, changed),
        !f64_bits_nan(s.cost_usd_bits),
    ensures
        !(name_changes(after, s) || recap_changes(after, s) || numbers_sync(after, s)),
{
    if numbers_sync(before, s) {
        assert(!numbers_lag(after.meta, s));
    } else if numbers_lag(before.meta, s) {
        assert(!name_changes(before, s) && !recap_changes(before, s) && s.is_ongoing);
        assert(!name_changes(after, s));
        assert(!recap_changes(after, s));
    }
}

/// Bookmark `b` transactionally: the new list is handed to `save`, and only
/// when saving succeeds does it replace `state_list` (and a copy of it is
/// returned); on a save error `state_list` is left as it was, so memory and
/// disk never diverge.
pub fn apply_add<F: FnOnce(&[Bookmark]) -> Result<(), String>>(state_list: &mut Vec<Bookmark>, b: Bookmark, save: F) -> (r: Result<Vec<Bookmark>, String>)
    requires
        forall|l: &[Bookmark]| save.requires((l,)),
    ensures
        r is Ok ==> final(state_list)@ == upserted(old(state_list)@, b),
        r matches Ok(v) ==> v@ == upserted(old(state_list)@, b),
        r is Ok ==> exists|l: &[Bookmark]| l@ == upserted(old(state_list)@, b) && save.ensures((l,), Ok(())),
        r matches Err(e) ==> exists|l: &[Bookmark]| l@ == upserted(old(state_list)@, b) && save.ensures((l,), Err(e)),
        r is Err ==> final(state_list)@ == old(state_list)@,
{
    let mut new_list = copy_list(state_list);
    upsert(&mut new_list, b);
    let sl = new_list.as_slice();
    let saved = save(sl);
    let ghost sl_g = sl;
    let ghost saved_g = saved;
    let committed = saved.is_ok();
    let next = if committed {
        new_list
    } else {
        copy_list(state_list)
    };
    *state_list = next;
    match saved {
        Ok(()) => {
            assert(saved_g matches Ok(u) && u == ());
            assert(saved_g == Ok::<(), String>(()));
            assert(save.ensures((sl_g,), Ok(())));
            Ok(copy_list(state_list))
        },
        Err(e) => {
            assert(saved_g == Err::<(), String>(e));
            assert(save.ensures((sl_g,), Err(e)));
            let r: Result<Vec<Bookmark>, String> = Err(e);
            assert(r matches Err(x) && save.ensures((sl_g,), Err(x)));
            r
        },
    }
}

/// Remove the bookmarks of `session_id` transactionally: the new list is
/// handed to `save`, and only when saving succeeds does it replace
/// `state_list` (and a copy of it is returned); on a save error `state_list`
/// is left as it was.
pub fn apply_remove<F: FnOnce(&[Bookmark]) -> Result<(), String>>(state_list: &mut Vec<Bookmark>, session_id: &str, save: F) -> (r: Result<Vec<Bookmark>, String>)
    requires
        forall|l: &[Bookmark]| save.requires((l,)),
    ensures
        r is Ok ==> final(state_list)@ == without_id(old(state_list)@, session_id@),
        r matches Ok(v) ==> v@ == without_id(old(state_list)@, session_id@),
        r is Ok ==> exists|l: &[Bookmark]| l@ == without_id(old(state_list)@, session_id@) && save.ensures((l,), Ok(())),
        r matches Err(e) ==> exists|l: &[Bookmark]| l@ == without_id(old(state_list)@, session_id@) && save.ensures((l,), Err(e)),
        r is Err ==> final(state_list)@ == old(state_list)@,
{
    let mut new_list = copy_list(state_list);
    remove(&mut new_list, session_id);
    let sl = new_list.as_slice();
    let saved = save(sl);
    let ghost sl_g = sl;
    let ghost saved_g = saved;
    let committed = saved.is_ok();
    let next = if committed {
        new_list
    } else {
        copy_list(state_list)
    };
    *state_list = next;
    match saved {
        Ok(()) => {
            assert(saved_g matches Ok(u) && u == ());
            assert(saved_g == Ok::<(), String>(()));
            assert(save.ensures((sl_g,), Ok(())));
            Ok(copy_list(state_list))
        },
        Err(e) => {
            assert(saved_g == Err::<(), String>(e));
            assert(save.ensures((sl_g,), Err(e)));
            let r: Result<Vec<Bookmark>, String> = Err(e);
            assert(r matches Err(x) && save.ensures((sl_g,), Err(x)));
            r
        },
    }
}

/// A copy of a bookmark list.
fn copy_list(list: &Vec<Bookmark>) -> (r: Vec<Bookmark>)
    ensures
        r@ == list@,
{
    let mut out: Vec<Bookmark> = Vec::new();
    let mut i: usize = 0;
    while i < list.len()
        invariant
            i <= list@.len(),
            out@ == list@.take(i as int),
        decreases list.len() - i,
    {
        out.push(list[i].duplicate());
        i = i + 1;
        assert(out@ =~= list@.take(i as int));
    }
    assert(list@.take(list@.len() as int) =~= list@);
    out
}

} // verus!
