use vstd::prelude::*;
use crate::text::str_eq;

verus! {

/// A finite set of strings, compared by their characters.
pub struct StrSet {
    items: Vec<String>,
}

/// Whether `x` is the text of one of the first `n` strings of `s`.
pub open spec fn occurs(s: Seq<String>, n: int, x: Seq<char>) -> bool {
    exists|j: int| 0 <= j < n && #[trigger] s[j]@ == x
}

impl View for StrSet {
    type V = Set<Seq<char>>;

    closed spec fn view(&self) -> Set<Seq<char>> {
        Set::new(|k: Seq<char>| occurs(self.items@, self.items@.len() as int, k))
    }
}

impl StrSet {
    /// The empty set.
    pub fn new() -> (r: StrSet)
        ensures
            r@ == Set::<Seq<char>>::empty(),
    {
        let r = StrSet { items: Vec::new() };
        assert(r@ =~= Set::<Seq<char>>::empty());
        r
    }

    /// Whether `k` is in the set.
    pub fn contains(&self, k: &str) -> (r: bool)
        ensures
            r == self@.contains(k@),
    {
        let mut i: usize = 0;
        while i < self.items.len()
            invariant
                i <= self.items@.len(),
                forall|j: int| 0 <= j < i ==> #[trigger] self.items@[j]@ != k@,
            decreases self.items.len() - i,
        {
            if str_eq(self.items[i].as_str(), k) {
                assert(self.items@[i as int]@ == k@);
                return true;
            }
            i = i + 1;
        }
        false
    }

    /// Add `k` to the set.
    pub fn insert(&mut self, k: String)
        ensures
            final(self)@ == old(self)@.insert(k@),
    {
        if !self.contains(k.as_str()) {
            let ghost before = self.items@;
            let ghost kv = k@;
            self.items.push(k);
            assert forall|x: Seq<char>| #[trigger] self@.contains(x) == old(self)@.insert(kv).contains(x) by {
                if old(self)@.insert(kv).contains(x) && x != kv {
                    let i = choose|i: int| 0 <= i < before.len() && #[trigger] before[i]@ == x;
                    assert(self.items@[i]@ == x);
                }
                if x == kv {
                    assert(self.items@[before.len() as int]@ == x);
                }
            }
            assert(self@ =~= old(self)@.insert(kv));
        } else {
            assert(self@ =~= old(self)@.insert(k@));
        }
    }

    /// Remove `k` from the set.
    pub fn remove(&mut self, k: &str)
        ensures
            final(self)@ == old(self)@.remove(k@),
    {
        let mut kept: Vec<String> = Vec::new();
        let mut i: usize = 0;
        while i < self.items.len()
            invariant
                i <= self.items@.len(),
                forall|j: int| 0 <= j < kept@.len() ==> #[trigger] kept@[j]@ != k@,
                forall|x: Seq<char>|
                    #![trigger occurs(self.items@, i as int, x)]
                    #![trigger occurs(kept@, kept@.len() as int, x)]
                    x != k@ ==> (occurs(self.items@, i as int, x) <==> occurs(kept@, kept@.len() as int, x)),
            decreases self.items.len() - i,
        {
            let ghost before = kept@;
            let ghost items = self.items@;
            if !str_eq(self.items[i].as_str(), k) {
                let s = self.items[i].clone();
                kept.push(s);
                assert forall|x: Seq<char>| x != k@ implies
                    (occurs(items, i + 1, x) <==> occurs(kept@, kept@.len() as int, x)) by {
                    if occurs(items, i + 1, x) {
                        let j = choose|j: int| 0 <= j < i + 1 && #[trigger] items[j]@ == x;
                        if j < i {
                            assert(occurs(items, i as int, x));
                            let m = choose|m: int| 0 <= m < before.len() && #[trigger] before[m]@ == x;
                            assert(kept@[m]@ == x);
                        } else {
                            assert(kept@[before.len() as int]@ == x);
                        }
                    }
                    if occurs(kept@, kept@.len() as int, x) {
                        let j = choose|j: int| 0 <= j < kept@.len() && #[trigger] kept@[j]@ == x;
                        if j < before.len() {
                            assert(before[j]@ == x);
                            assert(occurs(before, before.len() as int, x));
                            let m = choose|m: int| 0 <= m < i && #[trigger] items[m]@ == x;
                            assert(items[m]@ == x);
                        } else {
                            assert(items[i as int]@ == x);
                        }
                    }
                }
            } else {
                assert forall|x: Seq<char>| x != k@ implies
                    (occurs(items, i + 1, x) <==> occurs(kept@, kept@.len() as int, x)) by {
                    if occurs(items, i + 1, x) {
                        let j = choose|j: int| 0 <= j < i + 1 && #[trigger] items[j]@ == x;
                        assert(j < i);
                        assert(occurs(items, i as int, x));
                    }
                    if occurs(kept@, kept@.len() as int, x) {
                        let m = choose|m: int| 0 <= m < i && #[trigger] items[m]@ == x;
                        assert(items[m]@ == x);
                    }
                }
            }
            i = i + 1;
        }
        let ghost old_view = self@;
        let ghost old_items = self.items@;
        self.items = kept;
        assert forall|x: Seq<char>| #[trigger] self@.contains(x) == old_view.remove(k@).contains(x) by {
            if self@.contains(x) {
                let j = choose|j: int| 0 <= j < self.items@.len() && #[trigger] self.items@[j]@ == x;
                assert(x != k@);
                assert(occurs(old_items, old_items.len() as int, x));
            }
            if old_view.remove(k@).contains(x) {
                assert(occurs(old_items, old_items.len() as int, x));
            }
        }
        assert(self@ =~= old_view.remove(k@));
    }

    /// Empty the set.
    pub fn clear(&mut self)
        ensures
            final(self)@ == Set::<Seq<char>>::empty(),
    {
        self.items = Vec::new();
        assert(self@ =~= Set::<Seq<char>>::empty());
    }

    /// Whether the set has no element.
    pub fn is_empty(&self) -> (r: bool)
        ensures
            r == (self@ == Set::<Seq<char>>::empty()),
    {
        if self.items.len() == 0 {
            assert(self@ =~= Set::<Seq<char>>::empty());
            true
        } else {
            assert(self@.contains(self.items@[0]@));
            false
        }
    }
}

} // verus!
