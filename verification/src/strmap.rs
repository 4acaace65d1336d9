use vstd::prelude::*;
use crate::text::str_eq;

verus! {

/// A copy that is equal to the original.
pub trait Duplicate: Sized {
    fn duplicate(&self) -> (r: Self)
        ensures
            r == *self,
    ;
}

impl Duplicate for String {
    fn duplicate(&self) -> (r: String) {
        self.clone()
    }
}

/// The map that a list of (key, value) pairs describes when later pairs
/// override earlier ones.
pub open spec fn pairs_map<V: View>(s: Seq<(String, V)>) -> Map<Seq<char>, V::V>
    decreases s.len(),
{
    if s.len() == 0 {
        Map::empty()
    } else {
        pairs_map(s.drop_last()).insert(s.last().0@, s.last().1@)
    }
}

/// The greatest index below `n` whose key is `k`.
pub open spec fn last_key_below<V>(s: Seq<(String, V)>, k: Seq<char>, n: int) -> Option<int>
    decreases n,
{
    if n <= 0 {
        None
    } else if s[n - 1].0@ == k {
        Some(n - 1)
    } else {
        last_key_below(s, k, n - 1)
    }
}

/// No two pairs share a key.
pub open spec fn distinct_keys<V>(s: Seq<(String, V)>) -> bool {
    forall|i: int, j: int| 0 <= i < s.len() && 0 <= j < s.len() && i != j ==> #[trigger] s[i].0@ != #[trigger] s[j].0@
}

/// A key maps to the value of its last pair, and is absent when no pair has it.
pub proof fn lemma_pairs_map_lookup<V: View>(s: Seq<(String, V)>, k: Seq<char>)
    ensures
        match last_key_below(s, k, s.len() as int) {
            Some(i) => 0 <= i < s.len() && s[i].0@ == k && pairs_map(s).dom().contains(k) && pairs_map(s)[k] == s[i].1@,
            None => !pairs_map(s).dom().contains(k),
        },
    decreases s.len(),
{
    if s.len() > 0 {
        let t = s.drop_last();
        lemma_pairs_map_lookup(t, k);
        if s.last().0@ != k {
            lemma_last_key_prefix(s, k, s.len() - 1);
        }
    }
}

proof fn lemma_last_key_prefix<V>(s: Seq<(String, V)>, k: Seq<char>, n: int)
    requires
        0 <= n <= s.len(),
    ensures
        last_key_below(s, k, n) == last_key_below(s.take(n), k, n),
        n == s.len() - 1 ==> last_key_below(s.drop_last(), k, n) == last_key_below(s, k, n),
    decreases n,
{
    if n > 0 {
        lemma_last_key_prefix(s, k, n - 1);
        lemma_last_key_prefix(s.take(n), k, n - 1);
        assert(s.take(n).take(n - 1) =~= s.take(n - 1));
        if n == s.len() - 1 {
            assert(s.drop_last() =~= s.take(n));
        }
    }
}

/// Pairs with distinct keys describe a finite map with one key per pair.
pub proof fn lemma_pairs_map_len<V: View>(s: Seq<(String, V)>)
    requires
        distinct_keys(s),
    ensures
        pairs_map(s).dom().finite(),
        pairs_map(s).dom().len() == s.len(),
    decreases s.len(),
{
    if s.len() > 0 {
        let t = s.drop_last();
        assert(distinct_keys(t)) by {
            assert forall|i: int, j: int| 0 <= i < t.len() && 0 <= j < t.len() && i != j implies #[trigger] t[i].0@ != #[trigger] t[j].0@ by {
                assert(t[i] == s[i] && t[j] == s[j]);
            }
        }
        lemma_pairs_map_len(t);
        lemma_pairs_map_lookup(t, s.last().0@);
        lemma_last_key_none(t, s.last().0@, s, t.len() as int);
    }
}

proof fn lemma_last_key_none<V>(t: Seq<(String, V)>, k: Seq<char>, s: Seq<(String, V)>, n: int)
    requires
        distinct_keys(s),
        s.len() == t.len() + 1,
        forall|i: int| 0 <= i < t.len() ==> t[i] == s[i],
        k == s.last().0@,
        0 <= n <= t.len(),
    ensures
        last_key_below(t, k, n) is None,
    decreases n,
{
    if n > 0 {
        assert(t[n - 1] == s[n - 1]);
        assert(s[n - 1].0@ != s[s.len() - 1].0@);
        lemma_last_key_none(t, k, s, n - 1);
    }
}

proof fn lemma_pairs_map_update<V: View>(s: Seq<(String, V)>, i: int, k: String, v: V)
    requires
        distinct_keys(s),
        0 <= i < s.len(),
        s[i].0@ == k@,
    ensures
        pairs_map(s.update(i, (k, v))) =~= pairs_map(s).insert(k@, v@),
    decreases s.len(),
{
    let u = s.update(i, (k, v));
    if i == s.len() - 1 {
        assert(u.drop_last() =~= s.drop_last());
    } else {
        let t = s.drop_last();
        assert(distinct_keys(t)) by {
            assert forall|a: int, b: int| 0 <= a < t.len() && 0 <= b < t.len() && a != b implies #[trigger] t[a].0@ != #[trigger] t[b].0@ by {
                assert(t[a] == s[a] && t[b] == s[b]);
            }
        }
        assert(u.drop_last() =~= t.update(i, (k, v)));
        lemma_pairs_map_update(t, i, k, v);
        assert(s[i].0@ != s[s.len() - 1].0@);
    }
}

/// A map from text keys to values, kept as a list of (key, value) pairs with
/// no repeated key.
pub struct StrMap<V> {
    pairs: Vec<(String, V)>,
}

impl<V: View> View for StrMap<V> {
    type V = Map<Seq<char>, V::V>;

    closed spec fn view(&self) -> Map<Seq<char>, V::V> {
        pairs_map(self.pairs@)
    }
}

impl<V> StrMap<V> {
    #[verifier::type_invariant]
    closed spec fn wf(self) -> bool {
        distinct_keys(self.pairs@)
    }
}

impl<V: View> StrMap<V> {
    /// The pairs, in insertion order of their keys.
    pub closed spec fn pair_seq(self) -> Seq<(String, V)> {
        self.pairs@
    }

    /// An empty map.
    pub fn new() -> (r: StrMap<V>)
        ensures
            r@ == Map::<Seq<char>, V::V>::empty(),
    {
        StrMap { pairs: Vec::new() }
    }

    /// Index of the pair whose key is `k`.
    fn position(&self, k: &str) -> (r: Option<usize>)
        ensures
            match r {
                Some(i) => last_key_below(self.pairs@, k@, self.pairs@.len() as int) == Some(i as int),
                None => last_key_below(self.pairs@, k@, self.pairs@.len() as int) is None,
            },
    {
        let mut i = self.pairs.len();
        while i > 0
            invariant
                i <= self.pairs@.len(),
                last_key_below(self.pairs@, k@, self.pairs@.len() as int) == last_key_below(self.pairs@, k@, i as int),
            decreases i,
        {
            if str_eq(self.pairs[i - 1].0.as_str(), k) {
                return Some(i - 1);
            }
            i = i - 1;
        }
        None
    }

    /// The value stored under `k`.
    pub fn get(&self, k: &str) -> (r: Option<&V>)
        ensures
            match r {
                Some(v) => self@.dom().contains(k@) && self@[k@] == v@,
                None => !self@.dom().contains(k@),
            },
    {
        proof {
            lemma_pairs_map_lookup(self.pairs@, k@);
        }
        match self.position(k) {
            Some(i) => Some(&self.pairs[i].1),
            None => None,
        }
    }

    /// Whether some value is stored under `k`.
    pub fn contains_key(&self, k: &str) -> (r: bool)
        ensures
            r == self@.dom().contains(k@),
    {
        self.get(k).is_some()
    }

    /// Store `v` under `k`, replacing any earlier value.
    pub fn insert(&mut self, k: String, v: V)
        ensures
            final(self)@ == old(self)@.insert(k@, v@),
    {
        proof {
            use_type_invariant(&*self);
            lemma_pairs_map_lookup(self.pairs@, k@);
        }
        match self.position(k.as_str()) {
            Some(i) => {
                proof {
                    lemma_pairs_map_update(self.pairs@, i as int, k, v);
                }
                let ghost old_pairs = self.pairs@;
                let mut pairs = Vec::new();
                std::mem::swap(&mut pairs, &mut self.pairs);
                pairs.set(i, (k, v));
                assert(pairs@ == old_pairs.update(i as int, (k, v)));
                assert(distinct_keys(pairs@)) by {
                    assert forall|a: int, b: int| 0 <= a < pairs@.len() && 0 <= b < pairs@.len() && a != b
                        implies #[trigger] pairs@[a].0@ != #[trigger] pairs@[b].0@ by {
                        assert(old_pairs[a].0@ != old_pairs[b].0@);
                    }
                }
                self.pairs = pairs;
            },
            None => {
                let ghost old_pairs = self.pairs@;
                let mut pairs = Vec::new();
                std::mem::swap(&mut pairs, &mut self.pairs);
                pairs.push((k, v));
                assert(pairs@.drop_last() =~= old_pairs);
                assert(distinct_keys(pairs@)) by {
                    assert forall|a: int, b: int| 0 <= a < pairs@.len() && 0 <= b < pairs@.len() && a != b
                        implies #[trigger] pairs@[a].0@ != #[trigger] pairs@[b].0@ by {
                        if a < old_pairs.len() && b < old_pairs.len() {
                            assert(old_pairs[a].0@ != old_pairs[b].0@);
                        } else if a < old_pairs.len() {
                            assert(old_pairs[a] == pairs@[a]);
                            assert(last_key_below(old_pairs, k@, old_pairs.len() as int) is None);
                            lemma_no_key_below(old_pairs, k@, old_pairs.len() as int, a);
                        } else {
                            assert(old_pairs[b] == pairs@[b]);
                            lemma_no_key_below(old_pairs, k@, old_pairs.len() as int, b);
                        }
                    }
                }
                self.pairs = pairs;
            },
        }
    }

    /// Number of keys.
    pub fn len(&self) -> (r: usize)
        ensures
            self@.dom().finite(),
            r == self@.dom().len(),
    {
        proof {
            use_type_invariant(self);
            lemma_pairs_map_len(self.pairs@);
        }
        self.pairs.len()
    }

    /// Whether no key is stored.
    pub fn is_empty(&self) -> (r: bool)
        ensures
            r == (self@.dom().len() == 0),
    {
        self.len() == 0
    }

    /// Key of the pair at position `i`.
    pub fn key_at(&self, i: usize) -> (r: &String)
        requires
            i < self.pair_seq().len(),
        ensures
            *r == self.pair_seq()[i as int].0,
    {
        &self.pairs[i]
            .0
    }

    /// Value of the pair at position `i`.
    pub fn value_at(&self, i: usize) -> (r: &V)
        requires
            i < self.pair_seq().len(),
        ensures
            *r == self.pair_seq()[i as int].1,
    {
        &self.pairs[i].1
    }

    /// Number of pairs (the same as [`StrMap::len`]).
    pub fn pair_count(&self) -> (r: usize)
        ensures
            r == self.pair_seq().len(),
    {
        self.pairs.len()
    }

    /// A copy of the map.
    pub fn duplicate(&self) -> (r: StrMap<V>)
        where V: Duplicate,
        ensures
            r@ == self@,
            r.pair_seq() == self.pair_seq(),
    {
        proof {
            use_type_invariant(self);
        }
        let mut pairs: Vec<(String, V)> = Vec::new();
        let mut i: usize = 0;
        while i < self.pairs.len()
            invariant
                i <= self.pairs@.len(),
                pairs@ == self.pairs@.take(i as int),
            decreases self.pairs.len() - i,
        {
            pairs.push((self.pairs[i].0.clone(), self.pairs[i].1.duplicate()));
            i = i + 1;
            assert(pairs@ =~= self.pairs@.take(i as int));
        }
        assert(pairs@ =~= self.pairs@);
        StrMap { pairs }
    }

    /// Brings into scope that the map is the one its pairs describe and that
    /// no key repeats.
    pub(crate) fn note_pairs(&self)
        ensures
            self@ == pairs_map(self.pair_seq()),
            distinct_keys(self.pair_seq()),
    {
        proof {
            use_type_invariant(self);
        }
    }
}

/// With no repeated key, the pair at index `j` is where its key is recorded.
pub proof fn lemma_distinct_lookup<V: View>(s: Seq<(String, V)>, j: int)
    requires
        distinct_keys(s),
        0 <= j < s.len(),
    ensures
        last_key_below(s, s[j].0@, s.len() as int) == Some(j),
        pairs_map(s).dom().contains(s[j].0@),
        pairs_map(s)[s[j].0@] == s[j].1@,
{
    lemma_last_key_distinct(s, j, s.len() as int);
    lemma_pairs_map_lookup(s, s[j].0@);
}

proof fn lemma_last_key_distinct<V>(s: Seq<(String, V)>, j: int, n: int)
    requires
        distinct_keys(s),
        0 <= j < n <= s.len(),
    ensures
        last_key_below(s, s[j].0@, n) == Some(j),
    decreases n,
{
    if n - 1 != j {
        assert(s[n - 1].0@ != s[j].0@);
        lemma_last_key_distinct(s, j, n - 1);
    }
}

proof fn lemma_no_key_below<V>(s: Seq<(String, V)>, k: Seq<char>, n: int, a: int)
    requires
        0 <= a < n <= s.len(),
        last_key_below(s, k, n) is None,
    ensures
        s[a].0@ != k,
    decreases n,
{
    if n - 1 != a {
        lemma_no_key_below(s, k, n - 1, a);
    }
}

} // verus!
