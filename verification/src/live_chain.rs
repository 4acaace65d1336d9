use vstd::prelude::*;
use vstd::set_lib::*;
use crate::text::{str_eq, views};

verus! {

/// The fields of one transcript (JSONL) entry that chain resolution and entry
/// selection read. Absent or null fields are held as empty strings.
pub struct Entry {
    pub uuid: String,
    pub parent_uuid: String,
    /// Set on `compact_boundary` entries, whose `parent_uuid` is empty.
    pub logical_parent_uuid: String,
    /// The coding agent writes the tip of the live chain here on every turn.
    pub leaf_uuid: String,
    pub is_sidechain: bool,
    pub entry_type: String,
    pub subtype: String,
    pub rewind_to_uuid: String,
    pub agent_name: String,
    pub team_name: String,
    pub summary: String,
}

impl Default for Entry {
    fn default() -> (r: Entry)
        ensures
            r.uuid@.len() == 0,
            r.parent_uuid@.len() == 0,
            r.logical_parent_uuid@.len() == 0,
            r.leaf_uuid@.len() == 0,
            !r.is_sidechain,
            r.entry_type@.len() == 0,
            r.subtype@.len() == 0,
            r.rewind_to_uuid@.len() == 0,
            r.agent_name@.len() == 0,
            r.team_name@.len() == 0,
            r.summary@.len() == 0,
    {
        Entry {
            uuid: String::new(),
            parent_uuid: String::new(),
            logical_parent_uuid: String::new(),
            leaf_uuid: String::new(),
            is_sidechain: false,
            entry_type: String::new(),
            subtype: String::new(),
            rewind_to_uuid: String::new(),
            agent_name: String::new(),
            team_name: String::new(),
            summary: String::new(),
        }
    }
}

/// The last non-empty `leafUuid` among the entries, or the empty text.
pub open spec fn last_leaf_hint(es: Seq<Entry>) -> Seq<char>
    decreases es.len(),
{
    if es.len() == 0 {
        Seq::empty()
    } else if es.last().leaf_uuid@.len() > 0 {
        es.last().leaf_uuid@
    } else {
        last_leaf_hint(es.drop_last())
    }
}

/// The greatest index below `n` whose entry has the non-empty uuid `u`.
pub open spec fn last_index_below(es: Seq<Entry>, u: Seq<char>, n: int) -> Option<int>
    decreases n,
{
    if n <= 0 || u.len() == 0 {
        None
    } else if es[n - 1].uuid@ == u {
        Some(n - 1)
    } else {
        last_index_below(es, u, n - 1)
    }
}

/// Where the uuid `u` is recorded: the last entry that carries it.
pub open spec fn index_of_uuid(es: Seq<Entry>, u: Seq<char>) -> Option<int> {
    last_index_below(es, u, es.len() as int)
}

/// Some entry names `u` as its `parentUuid`, so `u` has a child.
pub open spec fn is_referenced_as_parent(es: Seq<Entry>, u: Seq<char>) -> bool {
    exists|i: int| 0 <= i < es.len() && #[trigger] es[i].parent_uuid@ == u
}

/// A main-chain entry (non-empty uuid, not a sidechain) that nothing descends from.
pub open spec fn is_leaf_candidate(es: Seq<Entry>, i: int) -> bool {
    &&& es[i].uuid@.len() > 0
    &&& !es[i].is_sidechain
    &&& !is_referenced_as_parent(es, es[i].uuid@)
}

/// The greatest index below `n` that is a leaf candidate.
pub open spec fn last_leaf_below(es: Seq<Entry>, n: int) -> Option<int>
    decreases n,
{
    if n <= 0 {
        None
    } else if is_leaf_candidate(es, n - 1) {
        Some(n - 1)
    } else {
        last_leaf_below(es, n - 1)
    }
}

/// Whether entry `i` may serve as a fallback predecessor given the chain
/// walked so far.
pub open spec fn is_fallback_candidate(es: Seq<Entry>, i: int, visited: Seq<Seq<char>>) -> bool {
    &&& es[i].uuid@.len() > 0
    &&& !es[i].is_sidechain
    &&& !visited.contains(es[i].uuid@)
}

/// The nearest entry before index `n` (in file order) that is a main-chain
/// entry not yet on the walked chain.
pub open spec fn fallback_below(es: Seq<Entry>, n: int, visited: Seq<Seq<char>>) -> Option<int>
    decreases n,
{
    if n <= 0 {
        None
    } else if is_fallback_candidate(es, n - 1, visited) {
        Some(n - 1)
    } else {
        fallback_below(es, n - 1, visited)
    }
}

/// The tip of the live chain: the last `leafUuid` hint when it names a known
/// entry, otherwise the uuid of the last leaf candidate in file order, otherwise
/// the empty text (no tip).
pub open spec fn live_tip(es: Seq<Entry>) -> Seq<char> {
    let hint = last_leaf_hint(es);
    if hint.len() > 0 && index_of_uuid(es, hint) is Some {
        hint
    } else {
        match last_leaf_below(es, es.len() as int) {
            Some(i) => es[i].uuid@,
            None => Seq::empty(),
        }
    }
}

/// One step of the backward walk from `cur`, with `visited` the chain walked so
/// far (including `cur`): its `parentUuid`; failing that its
/// `logicalParentUuid`, unless that one is already on the chain, in which case
/// the nearest earlier main-chain entry not yet on it; `None` ends the walk.
pub open spec fn next_on_chain(es: Seq<Entry>, cur: Seq<char>, visited: Seq<Seq<char>>) -> Option<Seq<char>> {
    match index_of_uuid(es, cur) {
        None => None,
        Some(i) => if es[i].parent_uuid@.len() > 0 {
            Some(es[i].parent_uuid@)
        } else if es[i].logical_parent_uuid@.len() > 0 {
            if visited.contains(es[i].logical_parent_uuid@) {
                match fallback_below(es, i, visited) {
                    Some(j) => Some(es[j].uuid@),
                    None => None,
                }
            } else {
                Some(es[i].logical_parent_uuid@)
            }
        } else {
            None
        },
    }
}

/// `chain` is the walk from the live tip: it starts at the tip, each uuid is
/// the step taken from the one before it and was not on the chain yet, and the
/// walk ends where the next step is missing or returns to the chain (the cycle
/// guard). With no tip the chain is empty.
pub open spec fn is_live_walk(es: Seq<Entry>, chain: Seq<Seq<char>>) -> bool {
    let tip = live_tip(es);
    if tip.len() == 0 {
        chain.len() == 0
    } else {
        &&& chain.len() > 0
        &&& chain[0] == tip
        &&& forall|k: int|
            0 <= k < chain.len() - 1 ==> {
                &&& #[trigger] next_on_chain(es, chain[k], chain.take(k + 1)) == Some(chain[k + 1])
                &&& !chain.take(k + 1).contains(chain[k + 1])
            }
        &&& match next_on_chain(es, chain.last(), chain) {
            None => true,
            Some(p) => chain.contains(p),
        }
    }
}

/// An ordered set of uuids: the live chain, from its tip backwards.
pub struct UuidSet {
    items: Vec<String>,
}

impl View for UuidSet {
    type V = Seq<Seq<char>>;

    closed spec fn view(&self) -> Seq<Seq<char>> {
        views(self.items@)
    }
}

impl UuidSet {
    /// Whether `u` is one of the uuids.
    pub fn contains(&self, u: &str) -> (r: bool)
        ensures
            r == self@.contains(u@),
    {
        let mut i: usize = 0;
        while i < self.items.len()
            invariant
                0 <= i <= self.items.len(),
                forall|k: int| 0 <= k < i ==> self@[k] != u@,
            decreases self.items.len() - i,
        {
            if str_eq(self.items[i].as_str(), u) {
                assert(self@[i as int] == u@);
                return true;
            }
            i = i + 1;
        }
        false
    }

    /// Number of uuids.
    pub fn len(&self) -> (r: usize)
        ensures
            r == self@.len(),
    {
        self.items.len()
    }

    /// Whether there are no uuids.
    pub fn is_empty(&self) -> (r: bool)
        ensures
            r == (self@.len() == 0),
    {
        self.items.len() == 0
    }
}

proof fn lemma_last_index_below(es: Seq<Entry>, u: Seq<char>, n: int)
    requires
        n <= es.len(),
    ensures
        match last_index_below(es, u, n) {
            Some(i) => 0 <= i < n && es[i].uuid@ == u && u.len() > 0,
            None => forall|i: int| 0 <= i < n ==> #[trigger] es[i].uuid@ != u || u.len() == 0,
        },
    decreases n,
{
    if n > 0 && u.len() > 0 && es[n - 1].uuid@ != u {
        lemma_last_index_below(es, u, n - 1);
    }
}

proof fn lemma_fallback_below(es: Seq<Entry>, n: int, visited: Seq<Seq<char>>)
    requires
        n <= es.len(),
    ensures
        match fallback_below(es, n, visited) {
            Some(i) => 0 <= i < n && is_fallback_candidate(es, i, visited),
            None => forall|i: int| 0 <= i < n ==> !#[trigger] is_fallback_candidate(es, i, visited),
        },
    decreases n,
{
    if n > 0 && !is_fallback_candidate(es, n - 1, visited) {
        lemma_fallback_below(es, n - 1, visited);
    }
}

proof fn lemma_last_leaf_below(es: Seq<Entry>, n: int)
    requires
        n <= es.len(),
    ensures
        match last_leaf_below(es, n) {
            Some(i) => 0 <= i < n && is_leaf_candidate(es, i),
            None => forall|i: int| 0 <= i < n ==> !#[trigger] is_leaf_candidate(es, i),
        },
    decreases n,
{
    if n > 0 && !is_leaf_candidate(es, n - 1) {
        lemma_last_leaf_below(es, n - 1);
    }
}

/// A walk with no repeated uuid, each of which names an entry, is no longer
/// than the entry list.
proof fn lemma_chain_bounded(es: Seq<Entry>, chain: Seq<Seq<char>>)
    requires
        chain.no_duplicates(),
        forall|k: int| 0 <= k < chain.len() ==> #[trigger] index_of_uuid(es, chain[k]) is Some,
    ensures
        chain.len() <= es.len(),
{
    let idxs = chain.map_values(|s: Seq<char>| index_of_uuid(es, s)->0);
    assert forall|k: int| 0 <= k < chain.len() implies 0 <= #[trigger] idxs[k] < es.len()
        && es[idxs[k]].uuid@ == chain[k] by {
        lemma_last_index_below(es, chain[k], es.len() as int);
    }
    assert(idxs.no_duplicates()) by {
        assert forall|a: int, b: int| 0 <= a < idxs.len() && 0 <= b < idxs.len() && a != b
            implies idxs[a] != idxs[b] by {
            assert(chain[a] != chain[b]);
            assert(0 <= idxs[a] < es.len() && es[idxs[a]].uuid@ == chain[a]);
            assert(0 <= idxs[b] < es.len() && es[idxs[b]].uuid@ == chain[b]);
            if idxs[a] == idxs[b] {
                assert(chain[a] == es[idxs[a]].uuid@);
                assert(chain[b] == es[idxs[b]].uuid@);
            }
        }
    }
    idxs.unique_seq_to_set();
    assert(idxs.to_set().subset_of(set_int_range(0, es.len() as int)));
    lemma_int_range(0, es.len() as int);
    lemma_len_subset(idxs.to_set(), set_int_range(0, es.len() as int));
}

/// Index of the last entry whose uuid is `u` (non-empty), if any.
fn find_uuid(entries: &[Entry], u: &String) -> (r: Option<usize>)
    ensures
        match r {
            Some(i) => index_of_uuid(entries@, u@) == Some(i as int),
            None => index_of_uuid(entries@, u@) is None,
        },
{
    if u.as_str().is_empty() {
        return None;
    }
    let mut i = entries.len();
    while i > 0
        invariant
            i <= entries@.len(),
            u@.len() > 0,
            index_of_uuid(entries@, u@) == last_index_below(entries@, u@, i as int),
        decreases i,
    {
        if entries[i - 1].uuid == *u {
            return Some(i - 1);
        }
        i = i - 1;
    }
    None
}

/// Whether some entry names `u` as its parent.
fn referenced_as_parent(entries: &[Entry], u: &String) -> (r: bool)
    ensures
        r == is_referenced_as_parent(entries@, u@),
{
    let mut i: usize = 0;
    while i < entries.len()
        invariant
            i <= entries@.len(),
            forall|k: int| 0 <= k < i ==> #[trigger] entries@[k].parent_uuid@ != u@,
        decreases entries.len() - i,
    {
        if entries[i].parent_uuid == *u {
            return true;
        }
        i = i + 1;
    }
    false
}

fn uuid_set_contains(items: &Vec<String>, u: &String) -> (r: bool)
    ensures
        r == views(items@).contains(u@),
{
    let s = UuidSet { items: items.clone() };
    proof {
        assert(s@ =~= views(items@));
    }
    s.contains(u.as_str())
}

/// The nearest entry before `idx` (in file order) that is a main-chain entry
/// whose uuid is not yet on the chain walked so far; used when a
/// compact boundary's `logicalParentUuid` points back into that chain.
pub fn fallback_predecessor(entries: &[Entry], idx: usize, live_set: &UuidSet) -> (r: Option<String>)
    requires
        idx <= entries@.len(),
    ensures
        match fallback_below(entries@, idx as int, live_set@) {
            Some(j) => r matches Some(s) && s@ == entries@[j].uuid@,
            None => r is None,
        },
{
    let mut i = idx;
    while i > 0
        invariant
            i <= idx <= entries@.len(),
            fallback_below(entries@, idx as int, live_set@) == fallback_below(entries@, i as int, live_set@),
        decreases i,
    {
        let e = &entries[i - 1];
        if !e.uuid.as_str().is_empty() && !e.is_sidechain && !live_set.contains(e.uuid.as_str()) {
            return Some(e.uuid.clone());
        }
        i = i - 1;
    }
    None
}

/// The tip of the live chain (see [`live_tip`]).
fn find_live_tip(entries: &[Entry]) -> (r: String)
    ensures
        r@ == live_tip(entries@),
{
    let ghost es = entries@;
    let mut hint = String::new();
    let mut i: usize = 0;
    while i < entries.len()
        invariant
            i <= es.len(),
            es == entries@,
            hint@ == last_leaf_hint(es.take(i as int)),
        decreases entries.len() - i,
    {
        assert(es.take(i + 1).drop_last() =~= es.take(i as int));
        if !entries[i].leaf_uuid.as_str().is_empty() {
            hint = entries[i].leaf_uuid.clone();
        }
        i = i + 1;
    }
    assert(es.take(es.len() as int) =~= es);
    if !hint.as_str().is_empty() {
        if find_uuid(entries, &hint).is_some() {
            return hint;
        }
    }
    assert(!(last_leaf_hint(es).len() > 0 && index_of_uuid(es, last_leaf_hint(es)) is Some));
    let mut j = entries.len();
    while j > 0
        invariant
            j <= es.len(),
            es == entries@,
            !(last_leaf_hint(es).len() > 0 && index_of_uuid(es, last_leaf_hint(es)) is Some),
            last_leaf_below(es, es.len() as int) == last_leaf_below(es, j as int),
        decreases j,
    {
        let e = &entries[j - 1];
        if !e.uuid.as_str().is_empty() && !e.is_sidechain && !referenced_as_parent(entries, &e.uuid) {
            assert(is_leaf_candidate(es, j - 1));
            assert(last_leaf_below(es, j as int) == Some(j - 1));
            assert(!(last_leaf_hint(es).len() > 0 && index_of_uuid(es, last_leaf_hint(es)) is Some));
            return e.uuid.clone();
        }
        j = j - 1;
    }
    String::new()
}

/// The set of uuids on the live (main) conversation chain.
///
/// The tip is the last non-empty `leafUuid` when it names a known entry,
/// otherwise the last main-chain entry in file order that no entry descends
/// from. From the tip the walk follows `parentUuid` links backwards; at a
/// compact boundary (empty `parentUuid`) it follows `logicalParentUuid`, and
/// when that points back into the chain already walked it takes the nearest
/// earlier main-chain entry not yet on it. The walk stops at a missing link or
/// when it would revisit a uuid. The set is empty when there is no tip; callers
/// then keep every entry.
pub fn resolve_live_chain_uuids(entries: &[Entry]) -> (r: UuidSet)
    ensures
        is_live_walk(entries@, r@),
        r@.no_duplicates(),
{
    let ghost es = entries@;
    let tip = find_live_tip(entries);
    if tip.as_str().is_empty() {
        let r = UuidSet { items: Vec::new() };
        assert(r@ =~= Seq::<Seq<char>>::empty());
        return r;
    }
    let mut live: Vec<String> = Vec::new();
    let mut current = tip;
    loop
        invariant_except_break
            es == entries@,
            live_tip(es).len() > 0,
            live@.len() == 0 ==> current@ == live_tip(es),
            live@.len() > 0 ==> next_on_chain(es, views(live@).last(), views(live@)) == Some(current@),
            views(live@).no_duplicates(),
            live@.len() <= es.len(),
            forall|k: int| 0 <= k < live@.len() ==> #[trigger] index_of_uuid(es, views(live@)[k]) is Some,
            live@.len() > 0 ==> views(live@)[0] == live_tip(es),
            forall|k: int|
                0 <= k < live@.len() - 1 ==> {
                    &&& #[trigger] next_on_chain(es, views(live@)[k], views(live@).take(k + 1))
                        == Some(views(live@)[k + 1])
                    &&& !views(live@).take(k + 1).contains(views(live@)[k + 1])
                },
        ensures
            es == entries@,
            is_live_walk(es, views(live@)),
            views(live@).no_duplicates(),
        decreases es.len() + 1 - live@.len(),
    {
        let ghost old_chain = views(live@);
        if uuid_set_contains(&live, &current) {
            assert(live@.len() > 0);
            break;
        }
        live.push(current.clone());
        let ghost chain = views(live@);
        assert(chain =~= old_chain.push(current@));
        assert(chain.take(old_chain.len() as int) =~= old_chain);
        assert forall|k: int| 0 <= k < old_chain.len() implies #[trigger] chain.take(k + 1) =~= old_chain.take(k + 1) by {}
        assert(chain.no_duplicates()) by {
            assert forall|a: int, b: int| 0 <= a < chain.len() && 0 <= b < chain.len() && a != b
                implies chain[a] != chain[b] by {
                if a == old_chain.len() {
                    assert(old_chain[b] == chain[b]);
                    assert(old_chain.contains(old_chain[b]));
                } else if b == old_chain.len() {
                    assert(old_chain[a] == chain[a]);
                    assert(old_chain.contains(old_chain[a]));
                }
            }
        }
        let found = find_uuid(entries, &current);
        let idx = match found {
            Some(i) => i,
            None => {
                assert(next_on_chain(es, chain.last(), chain) is None);
                break;
            },
        };
        proof {
            lemma_last_index_below(es, current@, es.len() as int);
            assert forall|k: int| 0 <= k < chain.len() implies #[trigger] index_of_uuid(es, chain[k]) is Some by {
                if k < old_chain.len() {
                    assert(old_chain[k] == chain[k]);
                }
            }
            lemma_chain_bounded(es, chain);
        }
        let e = &entries[idx];
        let parent: Option<String> = if !e.parent_uuid.as_str().is_empty() {
            Some(e.parent_uuid.clone())
        } else if !e.logical_parent_uuid.as_str().is_empty() {
            let candidate = e.logical_parent_uuid.clone();
            if uuid_set_contains(&live, &candidate) {
                let s = UuidSet { items: live.clone() };
                proof {
                    assert(s@ =~= chain);
                }
                fallback_predecessor(entries, idx, &s)
            } else {
                Some(candidate)
            }
        } else {
            None
        };
        assert(chain.last() == current@);
        match parent {
            Some(p) => {
                current = p;
            },
            None => {
                break;
            },
        }
    }
    UuidSet { items: live }
}


/// One step of a walk.
proof fn lemma_walk_step(es: Seq<Entry>, c: Seq<Seq<char>>, k: int)
    requires
        is_live_walk(es, c),
        live_tip(es).len() > 0,
        0 <= k < c.len() - 1,
    ensures
        next_on_chain(es, c[k], c.take(k + 1)) == Some(c[k + 1]),
        !c.take(k + 1).contains(c[k + 1]),
{
}

/// The walks of two runs agree up to index `k`.
proof fn lemma_walk_prefix(es: Seq<Entry>, c1: Seq<Seq<char>>, c2: Seq<Seq<char>>, k: int)
    requires
        is_live_walk(es, c1),
        is_live_walk(es, c2),
        live_tip(es).len() > 0,
        0 <= k < c1.len(),
        k < c2.len(),
    ensures
        forall|j: int| 0 <= j <= k ==> c1[j] == c2[j],
    decreases k,
{
    if k > 0 {
        lemma_walk_prefix(es, c1, c2, k - 1);
        assert(c1.take(k) =~= c2.take(k));
        lemma_walk_step(es, c1, k - 1);
        lemma_walk_step(es, c2, k - 1);
    }
}

/// No walk is a proper prefix of another.
proof fn lemma_walk_not_shorter(es: Seq<Entry>, c1: Seq<Seq<char>>, c2: Seq<Seq<char>>)
    requires
        is_live_walk(es, c1),
        is_live_walk(es, c2),
        live_tip(es).len() > 0,
    ensures
        c1.len() >= c2.len(),
{
    if c1.len() >= c2.len() {
        return;
    }
    let m = c1.len() as int;
    lemma_walk_prefix(es, c1, c2, m - 1);
    assert(c2.take(m) =~= c1);
    lemma_walk_step(es, c2, m - 1);
    assert(c1.last() == c2[m - 1]);
}

/// Law: the live chain is determined by the entries alone: any two sequences
/// that are walks from the live tip are the same sequence.
pub proof fn lemma_live_walk_unique(es: Seq<Entry>, c1: Seq<Seq<char>>, c2: Seq<Seq<char>>)
    requires
        is_live_walk(es, c1),
        is_live_walk(es, c2),
    ensures
        c1 == c2,
{
    if live_tip(es).len() == 0 {
        assert(c1 =~= c2);
    } else {
        if c1.len() < c2.len() {
            lemma_walk_not_shorter(es, c1, c2);
        } else if c2.len() < c1.len() {
            lemma_walk_not_shorter(es, c2, c1);
        } else {
            lemma_walk_prefix(es, c1, c2, c1.len() - 1);
            assert(c1 =~= c2);
        }
    }
}

/// The live chain of the entries (the unique walk from the live tip).
pub open spec fn live_chain_of(es: Seq<Entry>) -> Seq<Seq<char>> {
    choose|c: Seq<Seq<char>>| is_live_walk(es, c)
}

/// An attachment entry (hook result and the like) hanging off the live chain.
pub open spec fn is_live_attachment(e: Entry, live: Seq<Seq<char>>) -> bool {
    &&& e.entry_type@ == "attachment"@
    &&& e.parent_uuid@.len() > 0
    &&& live.contains(e.parent_uuid@)
}

/// A main-chain entry that lies off a resolved live chain (a dead-end branch).
pub open spec fn off_live_chain(e: Entry, live: Seq<Seq<char>>) -> bool {
    &&& live.len() > 0
    &&& e.uuid@.len() > 0
    &&& !e.is_sidechain
    &&& !live.contains(e.uuid@)
    &&& !is_live_attachment(e, live)
}

/// Whether the entry is a `summary` entry.
pub open spec fn is_summary(e: Entry) -> bool {
    e.entry_type@ == "summary"@
}

/// The key by which repeated summaries are recognised.
pub open spec fn summary_key(e: Entry) -> (Seq<char>, Seq<char>, Seq<char>) {
    (e.agent_name@, e.team_name@, e.summary@)
}

/// Some summary entry of `s` has the key `key`.
pub open spec fn has_summary_key(s: Seq<Entry>, key: (Seq<char>, Seq<char>, Seq<char>)) -> bool {
    exists|k: int| 0 <= k < s.len() && is_summary(s[k]) && #[trigger] summary_key(s[k]) == key
}

/// The entries kept, in order: those not off the live chain, and of the
/// summary entries only the first of each (agent, team, text) key.
pub open spec fn selected(es: Seq<Entry>, live: Seq<Seq<char>>) -> Seq<Entry>
    decreases es.len(),
{
    if es.len() == 0 {
        Seq::empty()
    } else {
        let prev = selected(es.drop_last(), live);
        let e = es.last();
        if off_live_chain(e, live) {
            prev
        } else if is_summary(e) && has_summary_key(prev, summary_key(e)) {
            prev
        } else {
            prev.push(e)
        }
    }
}

impl Entry {
    /// A copy equal to this entry.
    pub fn duplicate(&self) -> (r: Entry)
        ensures
            r == *self,
    {
        Entry {
            uuid: self.uuid.clone(),
            parent_uuid: self.parent_uuid.clone(),
            logical_parent_uuid: self.logical_parent_uuid.clone(),
            leaf_uuid: self.leaf_uuid.clone(),
            is_sidechain: self.is_sidechain,
            entry_type: self.entry_type.clone(),
            subtype: self.subtype.clone(),
            rewind_to_uuid: self.rewind_to_uuid.clone(),
            agent_name: self.agent_name.clone(),
            team_name: self.team_name.clone(),
            summary: self.summary.clone(),
        }
    }
}

/// Whether `out` already holds a summary entry with the key of `e`.
fn seen_summary(out: &Vec<Entry>, e: &Entry) -> (r: bool)
    ensures
        r == has_summary_key(out@, summary_key(*e)),
{
    let mut i: usize = 0;
    while i < out.len()
        invariant
            i <= out@.len(),
            forall|k: int| 0 <= k < i ==> !(is_summary(out@[k]) && #[trigger] summary_key(out@[k]) == summary_key(*e)),
        decreases out.len() - i,
    {
        let x = &out[i];
        if str_eq(x.entry_type.as_str(), "summary") && str_eq(x.agent_name.as_str(), e.agent_name.as_str())
            && str_eq(x.team_name.as_str(), e.team_name.as_str()) && str_eq(x.summary.as_str(), e.summary.as_str()) {
            assert(summary_key(out@[i as int]) == summary_key(*e));
            return true;
        }
        i = i + 1;
    }
    false
}

/// Select the entries to classify from a read of a transcript. For a full
/// read (from the start of the file) the live chain is resolved first and
/// main-chain entries off it are dropped, except attachments whose parent is
/// on it; sidechain entries and entries without a uuid always pass. An
/// incremental read resolves nothing (new bytes continue the live chain).
/// Repeated `summary` entries are dropped: only the first of each (agent,
/// team, text) key is kept.
pub fn select_live_entries(raw_entries: &[Entry], full_read: bool) -> (r: Vec<Entry>)
    ensures
        r@ == selected(raw_entries@, if full_read { live_chain_of(raw_entries@) } else { Seq::empty() }),
{
    let live = if full_read {
        let set = resolve_live_chain_uuids(raw_entries);
        proof {
            lemma_live_walk_unique(raw_entries@, set@, live_chain_of(raw_entries@));
        }
        set
    } else {
        let set = UuidSet { items: Vec::new() };
        assert(set@ =~= Seq::<Seq<char>>::empty());
        set
    };
    let ghost lv = live@;
    let live_nonempty = !live.is_empty();
    let mut out: Vec<Entry> = Vec::new();
    let mut i: usize = 0;
    while i < raw_entries.len()
        invariant
            i <= raw_entries@.len(),
            lv == live@,
            live_nonempty == (lv.len() > 0),
            out@ == selected(raw_entries@.take(i as int), lv),
        decreases raw_entries.len() - i,
    {
        assert(raw_entries@.take(i + 1).drop_last() =~= raw_entries@.take(i as int));
        assert(raw_entries@.take(i + 1).last() == raw_entries@[i as int]);
        let e = &raw_entries[i];
        let is_live_attachment = str_eq(e.entry_type.as_str(), "attachment") && !e.parent_uuid.as_str().is_empty()
            && live.contains(e.parent_uuid.as_str());
        let off_chain = live_nonempty && !e.uuid.as_str().is_empty() && !e.is_sidechain
            && !live.contains(e.uuid.as_str()) && !is_live_attachment;
        if !off_chain {
            let repeated = str_eq(e.entry_type.as_str(), "summary") && seen_summary(&out, e);
            if !repeated {
                out.push(e.duplicate());
            }
        }
        i = i + 1;
    }
    assert(raw_entries@.take(raw_entries@.len() as int) =~= raw_entries@);
    out
}

/// Every entry kept is one of the entries read, at some position.
proof fn lemma_selected_from(es: Seq<Entry>, live: Seq<Seq<char>>)
    ensures
        forall|i: int| 0 <= i < selected(es, live).len() ==> exists|j: int| 0 <= j < es.len() && #[trigger] selected(es, live)[i] == es[j],
    decreases es.len(),
{
    if es.len() > 0 {
        lemma_selected_from(es.drop_last(), live);
        let prev = selected(es.drop_last(), live);
        assert forall|i: int| 0 <= i < selected(es, live).len() implies exists|j: int| 0 <= j < es.len() && #[trigger] selected(es, live)[i] == es[j] by {
            if i < prev.len() {
                assert(selected(es, live)[i] == prev[i]);
                let j = choose|j: int| 0 <= j < es.drop_last().len() && prev[i] == es.drop_last()[j];
                assert(es[j] == es.drop_last()[j]);
            } else {
                assert(selected(es, live)[i] == es[es.len() - 1]);
            }
        }
    }
}

/// Entries without a uuid are never dropped as off the live chain, whatever
/// the live chain: each such entry is kept, unless it is a summary that
/// repeats an earlier summary's (agent, team, text) key.
pub proof fn lemma_uuidless_entries_are_kept(es: Seq<Entry>, live: Seq<Seq<char>>, k: int)
    requires
        0 <= k < es.len(),
        es[k].uuid@.len() == 0,
        is_summary(es[k]) ==> forall|j: int| 0 <= j < k ==> !(is_summary(es[j]) && #[trigger] summary_key(es[j]) == summary_key(es[k])),
    ensures
        selected(es, live).contains(es[k]),
    decreases es.len(),
{
    let prev = selected(es.drop_last(), live);
    if k == es.len() - 1 {
        if is_summary(es[k]) && has_summary_key(prev, summary_key(es[k])) {
            let i = choose|i: int| 0 <= i < prev.len() && is_summary(prev[i]) && #[trigger] summary_key(prev[i]) == summary_key(es[k]);
            lemma_selected_from(es.drop_last(), live);
            let j = choose|j: int| 0 <= j < es.drop_last().len() && #[trigger] prev[i] == es.drop_last()[j];
            assert(es[j] == es.drop_last()[j]);
            assert(false);
        }
        assert(selected(es, live) == prev.push(es[k]));
        assert(selected(es, live)[prev.len() as int] == es[k]);
    } else {
        assert(es.drop_last()[k] == es[k]);
        assert forall|j: int| 0 <= j < k implies #[trigger] es.drop_last()[j] == es[j] by {}
        lemma_uuidless_entries_are_kept(es.drop_last(), live, k);
        let i = choose|i: int| 0 <= i < prev.len() && prev[i] == es[k];
        assert(selected(es, live)[i] == es[k]);
    }
}

} // verus!
