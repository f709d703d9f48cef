//! A small map from `String` keys to values, kept as a vector of
//! key/value pairs with pairwise-distinct keys.
//!
//! Unlike a hash map, the pair vector can be walked and snapshotted
//! deterministically, which the membership-initialization message needs
//! when it carries the address map over the wire.

use vstd::prelude::*;

verus! {

pub struct SMap<V> {
    pub entries: Vec<(String, V)>,
}

impl<V> SMap<V> {
    /// The view of the key stored at entry `i`.
    pub open spec fn key_at(&self, i: int) -> Seq<char> {
        self.entries@[i].0.view()
    }

    pub open spec fn spec_len(&self) -> nat {
        self.entries@.len()
    }

    /// Keys are pairwise distinct.
    pub open spec fn wf(&self) -> bool {
        forall|i: int, j: int|
            0 <= i < j < self.entries@.len() ==> self.key_at(i) != self.key_at(j)
    }

    pub open spec fn contains_key(&self, k: Seq<char>) -> bool {
        exists|i: int| 0 <= i < self.entries@.len() && self.key_at(i) == k
    }

    /// The set of keys present in the map.
    pub open spec fn dom(&self) -> Set<Seq<char>> {
        Set::new(|k: Seq<char>| self.contains_key(k))
    }

    pub open spec fn index_of_key(&self, k: Seq<char>) -> int {
        choose|i: int| 0 <= i < self.entries@.len() && self.key_at(i) == k
    }

    /// The value stored under key `k`.
    pub open spec fn spec_get(&self, k: Seq<char>) -> V
        recommends
            self.contains_key(k),
    {
        self.entries@[self.index_of_key(k)].1
    }

    /// The stored entries, as a sequence of key/value pairs.
    pub open spec fn pairs(&self) -> Seq<(String, V)> {
        self.entries@
    }

    /// The contents as a mathematical map.
    pub open spec fn as_map(&self) -> Map<Seq<char>, V> {
        Map::new(|k: Seq<char>| self.contains_key(k), |k: Seq<char>| self.spec_get(k))
    }

    pub fn new() -> (r: Self)
        ensures
            r.wf(),
            r.spec_len() == 0,
            forall|k: Seq<char>| !r.contains_key(k),
    {
        SMap { entries: Vec::new() }
    }

    fn position(&self, k: &String) -> (r: Option<usize>)
        requires
            self.wf(),
        ensures
            match r {
                Some(i) => i < self.entries@.len() && self.key_at(i as int) == k@
                    && self.contains_key(k@) && self.index_of_key(k@) == i,
                None => !self.contains_key(k@),
            },
    {
        let n = self.entries.len();
        let mut i: usize = 0;
        while i < n
            invariant
                i <= n,
                n == self.entries@.len(),
                self.wf(),
                forall|j: int| 0 <= j < i ==> self.key_at(j) != k@,
            decreases n - i,
        {
            if self.entries[i].0 == *k {
                proof {
                    assert(self.key_at(i as int) == k@);
                    let w = self.index_of_key(k@);
                    assert(0 <= w < self.entries@.len() && self.key_at(w) == k@);
                    if w != i {
                        assert(self.key_at(w) != self.key_at(i as int));
                    }
                }
                return Some(i);
            }
            i = i + 1;
        }
        None
    }

    pub fn get(&self, k: &String) -> (r: Option<&V>)
        requires
            self.wf(),
        ensures
            match r {
                Some(v) => self.contains_key(k@) && *v == self.spec_get(k@),
                None => !self.contains_key(k@),
            },
    {
        match self.position(k) {
            Some(i) => Some(&self.entries[i].1),
            None => None,
        }
    }

    pub fn contains(&self, k: &String) -> (r: bool)
        requires
            self.wf(),
        ensures
            r == self.contains_key(k@),
    {
        self.position(k).is_some()
    }

    /// Inserts or replaces the entry for `k`.
    pub fn insert(&mut self, k: String, v: V)
        requires
            old(self).wf(),
        ensures
            final(self).wf(),
            forall|x: Seq<char>|
                final(self).contains_key(x) <==> (old(self).contains_key(x) || x == k@),
            final(self).contains_key(k@),
            final(self).spec_get(k@) == v,
            forall|x: Seq<char>|
                x != k@ && old(self).contains_key(x) ==> final(self).spec_get(x) == old(
                    self,
                ).spec_get(x),
            final(self).as_map() == old(self).as_map().insert(k@, v),
    {
        let ghost pre = *self;
        match self.position(&k) {
            Some(i) => {
                self.entries[i] = (k, v);
                proof {
                    assert(self.key_at(i as int) == k@);
                    assert(pre.key_at(i as int) == k@);
                    assert forall|a: int, b: int|
                        0 <= a < b < self.entries@.len() implies self.key_at(a)
                        != self.key_at(b) by {
                        assert(pre.key_at(a) != pre.key_at(b));
                    }
                    assert(self.wf());
                    assert forall|x: Seq<char>| #[trigger] self.contains_key(x) implies (
                    pre.contains_key(x) || x == self.key_at(i as int)) by {
                        let w = choose|w: int|
                            0 <= w < self.entries@.len() && self.key_at(w) == x;
                        if w != i {
                            assert(pre.key_at(w) == x);
                        }
                    }
                    assert forall|x: Seq<char>| pre.contains_key(x) implies
                    self.contains_key(x) by {
                        let w = choose|w: int|
                            0 <= w < pre.entries@.len() && pre.key_at(w) == x;
                        if w == i {
                            assert(self.key_at(i as int) == x);
                        } else {
                            assert(self.key_at(w) == x);
                        }
                    }
                    self.lemma_get_at(i as int);
                    assert forall|x: Seq<char>|
                        x != self.key_at(i as int) && pre.contains_key(x) implies
                    self.spec_get(x) == pre.spec_get(x) by {
                        let w = choose|w: int|
                            0 <= w < pre.entries@.len() && pre.key_at(w) == x;
                        assert(self.key_at(w) == x);
                        self.lemma_get_at(w);
                        pre.lemma_get_at(w);
                    }
                    assert(self.as_map() =~= pre.as_map().insert(self.key_at(i as int), v));
                }
            },
            None => {
                self.entries.push((k, v));
                proof {
                    let n = pre.entries@.len();
                    assert(self.key_at(n as int) == k@);
                    assert forall|x: Seq<char>| #[trigger] self.contains_key(x) implies (
                    pre.contains_key(x) || x == k@) by {
                        let w = choose|w: int|
                            0 <= w < self.entries@.len() && self.key_at(w) == x;
                        if w < n {
                            assert(pre.key_at(w) == x);
                        }
                    }
                    assert forall|x: Seq<char>| pre.contains_key(x) implies
                    self.contains_key(x) by {
                        let w = choose|w: int|
                            0 <= w < pre.entries@.len() && pre.key_at(w) == x;
                        assert(self.key_at(w) == x);
                    }
                    assert forall|i: int, j: int|
                        0 <= i < j < self.entries@.len() implies self.key_at(i)
                        != self.key_at(j) by {
                        if j < n {
                            assert(pre.key_at(i) != pre.key_at(j));
                        } else {
                            assert(!pre.contains_key(k@));
                            if self.key_at(i) == self.key_at(j) {
                                assert(pre.key_at(i) == k@);
                            }
                        }
                    }
                    self.lemma_get_at(n as int);
                    assert forall|x: Seq<char>| x != k@ && pre.contains_key(x) implies
                    self.spec_get(x) == pre.spec_get(x) by {
                        let w = choose|w: int|
                            0 <= w < pre.entries@.len() && pre.key_at(w) == x;
                        assert(self.key_at(w) == x);
                        self.lemma_get_at(w);
                        pre.lemma_get_at(w);
                    }
                    assert(self.as_map() =~= pre.as_map().insert(k@, v));
                }
            },
        }
    }

    /// Removes the entry for `k`, if one is present.
    pub fn remove(&mut self, k: &String)
        requires
            old(self).wf(),
        ensures
            final(self).wf(),
            forall|x: Seq<char>|
                final(self).contains_key(x) <==> (old(self).contains_key(x) && x != k@),
            forall|x: Seq<char>|
                x != k@ && old(self).contains_key(x) ==> final(self).spec_get(x) == old(
                    self,
                ).spec_get(x),
            final(self).as_map() == old(self).as_map().remove(k@),
    {
        let ghost pre = *self;
        match self.position(k) {
            Some(i) => {
                self.entries.remove(i);
                proof {
                    let n = pre.entries@.len();
                    assert forall|a: int|
                        0 <= a < self.entries@.len() implies self.entries@[a] == (if a
                        < i { pre.entries@[a] } else { pre.entries@[a + 1] }) by {}
                    assert forall|a: int, b: int|
                        0 <= a < b < self.entries@.len() implies self.key_at(a)
                        != self.key_at(b) by {
                        let a2: int = if a < i { a } else { a + 1 };
                        let b2: int = if b < i { b } else { b + 1 };
                        assert(self.key_at(a) == pre.key_at(a2));
                        assert(self.key_at(b) == pre.key_at(b2));
                        assert(pre.key_at(a2) != pre.key_at(b2));
                    }
                    assert(self.wf());
                    assert forall|x: Seq<char>| #[trigger] self.contains_key(x) implies (
                    pre.contains_key(x) && x != k@) by {
                        let w = choose|w: int|
                            0 <= w < self.entries@.len() && self.key_at(w) == x;
                        if w < i {
                            assert(pre.key_at(w) == x);
                        } else {
                            assert(pre.key_at(w + 1) == x);
                        }
                        if x == k@ {
                            assert(pre.key_at(i as int) == k@);
                        }
                    }
                    assert forall|x: Seq<char>| pre.contains_key(x) && x != k@ implies
                    self.contains_key(x) by {
                        let w = choose|w: int|
                            0 <= w < pre.entries@.len() && pre.key_at(w) == x;
                        assert(w != i);
                        if w < i {
                            assert(self.key_at(w) == x);
                        } else {
                            assert(self.key_at(w - 1) == x);
                        }
                    }
                    assert forall|x: Seq<char>| x != k@ && pre.contains_key(x) implies
                    self.spec_get(x) == pre.spec_get(x) by {
                        let w = choose|w: int|
                            0 <= w < pre.entries@.len() && pre.key_at(w) == x;
                        assert(w != i);
                        if w < i {
                            assert(self.key_at(w) == x);
                            self.lemma_get_at(w);
                        } else {
                            assert(self.key_at(w - 1) == x);
                            self.lemma_get_at(w - 1);
                        }
                        pre.lemma_get_at(w);
                    }
                    assert(self.as_map() =~= pre.as_map().remove(k@));
                }
            },
            None => {
                proof {
                    assert(self.as_map() =~= self.as_map().remove(k@));
                }
            },
        }
    }

    /// With distinct keys, the entry at `i` is the one `spec_get` yields
    /// for its key.
    pub proof fn lemma_get_at(&self, i: int)
        requires
            self.wf(),
            0 <= i < self.pairs().len(),
        ensures
            self.contains_key(self.key_at(i)),
            self.index_of_key(self.key_at(i)) == i,
            self.spec_get(self.key_at(i)) == self.pairs()[i].1,
    {
        assert(0 <= i < self.entries@.len() && self.key_at(i) == self.key_at(i));
        let w = self.index_of_key(self.key_at(i));
        if w != i {
            if w < i {
                assert(self.key_at(w) != self.key_at(i));
            } else {
                assert(self.key_at(i) != self.key_at(w));
            }
        }
    }
}

} // verus!
