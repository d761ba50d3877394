use vstd::prelude::*;

verus! {

/// A mapping from vertex (or layer) identifiers to `usize` values, kept as a
/// vector of pairs in insertion order with pairwise-distinct keys.  The
/// analytics use it for distance maps, layer maps and per-layer counters,
/// where a deterministic iteration order matters.
#[derive(Clone)]
pub struct IdMap {
    pub entries: Vec<(usize, usize)>,
}

impl IdMap {
    /// The keys, in insertion order.
    pub open spec fn keys(self) -> Seq<usize> {
        self.entries@.map_values(|p: (usize, usize)| p.0)
    }

    /// Well-formed: no key occurs twice.
    pub open spec fn wf(self) -> bool {
        self.keys().no_duplicates()
    }

    pub open spec fn contains_spec(self, k: usize) -> bool {
        exists|i: int| 0 <= i < self.entries@.len() && self.entries@[i].0 == k
    }

    /// The index at which key `k` is stored (meaningful when `contains_spec(k)`;
    /// unique when `wf()`).
    pub open spec fn index_of(self, k: usize) -> int {
        choose|i: int| 0 <= i < self.entries@.len() && self.entries@[i].0 == k
    }

    /// The value bound to key `k` (meaningful when `contains_spec(k)`).
    pub open spec fn value_of(self, k: usize) -> usize {
        self.entries@[self.index_of(k)].1
    }

    /// With distinct keys, any index holding `k` is `index_of(k)`.
    pub proof fn lemma_index_unique(self, k: usize, i: int)
        requires
            self.wf(),
            0 <= i < self.entries@.len(),
            self.entries@[i].0 == k,
        ensures
            self.contains_spec(k),
            self.index_of(k) == i,
            self.value_of(k) == self.entries@[i].1,
    {
        let j = self.index_of(k);
        assert(self.keys()[i] == k);
        if j != i {
            assert(self.keys()[j] == k);
        }
    }

    pub fn new() -> (r: IdMap)
        ensures
            r.wf(),
            r.entries@.len() == 0,
            forall|k: usize| !r.contains_spec(k),
    {
        IdMap { entries: Vec::new() }
    }

    pub fn len(&self) -> (r: usize)
        ensures
            r == self.entries@.len(),
    {
        self.entries.len()
    }

    /// Look up key `k`; returns its value if present.
    pub fn get(&self, k: usize) -> (r: Option<usize>)
        requires
            self.wf(),
        ensures
            match r {
                Some(v) => self.contains_spec(k) && v == self.value_of(k),
                None => !self.contains_spec(k),
            },
    {
        let n = self.entries.len();
        for i in 0..n
            invariant
                n == self.entries@.len(),
                self.wf(),
                forall|j: int| 0 <= j < i ==> self.entries@[j].0 != k,
        {
            if self.entries[i].0 == k {
                proof {
                    self.lemma_index_unique(k, i as int);
                }
                return Some(self.entries[i].1);
            }
        }
        None
    }

    pub fn contains_key(&self, k: usize) -> (r: bool)
        requires
            self.wf(),
        ensures
            r == self.contains_spec(k),
    {
        self.get(k).is_some()
    }

    /// Bind `k` to `v`: replace the value if `k` is present, else append the
    /// pair.  Keys keep their first-insertion order.
    pub fn insert(&mut self, k: usize, v: usize)
        requires
            old(self).wf(),
        ensures
            final(self).wf(),
            final(self).contains_spec(k),
            final(self).value_of(k) == v,
            forall|k2: usize| k2 != k
                ==> final(self).contains_spec(k2) == old(self).contains_spec(k2),
            forall|k2: usize| k2 != k && old(self).contains_spec(k2)
                ==> final(self).value_of(k2) == old(self).value_of(k2),
            old(self).contains_spec(k) ==> final(self).keys() == old(self).keys()
                && final(self).entries@ == old(self).entries@.update(
                old(self).index_of(k),
                (k, v),
            ),
            !old(self).contains_spec(k) ==> final(self).keys() == old(self).keys().push(k)
                && final(self).entries@ == old(self).entries@.push((k, v)),
    {
        let n = self.entries.len();
        for i in 0..n
            invariant
                *self == *old(self),
                n == self.entries@.len(),
                self.wf(),
                forall|j: int| 0 <= j < i ==> self.entries@[j].0 != k,
        {
            if self.entries[i].0 == k {
                proof {
                    old(self).lemma_index_unique(k, i as int);
                }
                self.entries[i] = (k, v);
                proof {
                    assert(self.entries@ =~= old(self).entries@.update(i as int, (k, v)));
                    assert(self.keys() =~= old(self).keys());
                    self.lemma_index_unique(k, i as int);
                    assert forall|k2: usize| k2 != k && old(self).contains_spec(k2)
                        implies self.contains_spec(k2) && self.value_of(k2) == old(self).value_of(k2) by {
                        let j = old(self).index_of(k2);
                        assert(self.entries@[j].0 == k2);
                        self.lemma_index_unique(k2, j);
                    }
                    assert forall|k2: usize| k2 != k && self.contains_spec(k2)
                        implies old(self).contains_spec(k2) by {
                        let j = self.index_of(k2);
                        assert(old(self).entries@[j].0 == k2);
                    }
                }
                return;
            }
        }
        self.entries.push((k, v));
        proof {
            assert(self.keys() =~= old(self).keys().push(k));
            assert(self.entries@[self.entries@.len() - 1].0 == k);
            self.lemma_index_unique(k, self.entries@.len() - 1);
            assert forall|k2: usize| k2 != k && old(self).contains_spec(k2)
                implies self.contains_spec(k2) && self.value_of(k2) == old(self).value_of(k2) by {
                let j = old(self).index_of(k2);
                assert(self.entries@[j].0 == k2);
                self.lemma_index_unique(k2, j);
            }
            assert forall|k2: usize| k2 != k && self.contains_spec(k2)
                implies old(self).contains_spec(k2) by {
                let j = self.index_of(k2);
                assert(0 <= j < old(self).entries@.len());
                assert(old(self).entries@[j].0 == k2);
            }
        }
    }
}

} // verus!
