//! A small ordered map.

use vstd::prelude::*;

verus! {

/// Keys with a total order, given by the place that each has among the
/// integers.
pub trait Rank: Copy + Sized {
    /// The place of the key in the order.
    spec fn rank(self) -> int;

    /// No two keys have one place.
    proof fn rank_injective(a: Self, b: Self)
        requires
            a.rank() == b.rank(),
        ensures
            a == b,
    ;

    /// Whether `self` comes before `other`.
    fn before(&self, other: &Self) -> (r: bool)
        ensures
            r == (self.rank() < other.rank()),
    ;
}

/// Pairs `(a1, a2)` with `a2` below `n`, each placed at `a1 * n + a2`, lie in
/// the order of their first parts, then of their second.
pub proof fn lemma_lexicographic(a1: int, a2: int, b1: int, b2: int, n: int)
    requires
        0 <= a2 < n,
        0 <= b2 < n,
    ensures
        (a1 * n + a2 < b1 * n + b2) == (a1 < b1 || (a1 == b1 && a2 < b2)),
        (a1 * n + a2 == b1 * n + b2) == (a1 == b1 && a2 == b2),
{
    if a1 < b1 {
        assert((a1 + 1) * n <= b1 * n) by (nonlinear_arith)
            requires
                a1 < b1,
                0 < n,
        ;
        assert((a1 + 1) * n == a1 * n + n) by (nonlinear_arith);
    } else if b1 < a1 {
        assert((b1 + 1) * n <= a1 * n) by (nonlinear_arith)
            requires
                b1 < a1,
                0 < n,
        ;
        assert((b1 + 1) * n == b1 * n + n) by (nonlinear_arith);
    }
}

impl Rank for u32 {
    open spec fn rank(self) -> int {
        self as int
    }

    proof fn rank_injective(a: Self, b: Self) {
    }

    fn before(&self, other: &Self) -> (r: bool) {
        *self < *other
    }
}

impl Rank for u64 {
    open spec fn rank(self) -> int {
        self as int
    }

    proof fn rank_injective(a: Self, b: Self) {
    }

    fn before(&self, other: &Self) -> (r: bool) {
        *self < *other
    }
}

/// A map that keeps its entries sorted by key.
pub struct OrdMap<K, V> {
    entries: Vec<(K, V)>,
}

impl<K: Rank, V> OrdMap<K, V> {
    /// The entries in key order.
    pub closed spec fn entries(&self) -> Seq<(K, V)> {
        self.entries@
    }

    /// Keys ascend, so none occurs twice.
    pub open spec fn wf(&self) -> bool {
        forall|i: int, j: int|
            #![trigger self.entries()[i], self.entries()[j]]
            0 <= i < j < self.entries().len() ==> self.entries()[i].0.rank()
                < self.entries()[j].0.rank()
    }

    pub open spec fn has(&self, k: K) -> bool {
        exists|i: int| 0 <= i < self.entries().len() && (#[trigger] self.entries()[i]).0 == k
    }

    pub open spec fn index_of(&self, k: K) -> int {
        choose|i: int| 0 <= i < self.entries().len() && (#[trigger] self.entries()[i]).0 == k
    }

    /// The map that the entries spell.
    pub open spec fn view(&self) -> Map<K, V> {
        Map::new(|k: K| self.has(k), |k: K| self.entries()[self.index_of(k)].1)
    }

    pub proof fn lemma_entry(&self, i: int)
        requires
            self.wf(),
            0 <= i < self.entries().len(),
        ensures
            self@.dom().contains(self.entries()[i].0),
            self@[self.entries()[i].0] == self.entries()[i].1,
    {
        let k = self.entries()[i].0;
        let j = self.index_of(k);
        assert(self.has(k));
        if i < j {
            assert(self.entries()[i].0.rank() < self.entries()[j].0.rank());
        } else if j < i {
            assert(self.entries()[j].0.rank() < self.entries()[i].0.rank());
        }
    }

    /// There are as many entries as keys.
    pub proof fn lemma_len(&self)
        requires
            self.wf(),
        ensures
            self@.dom().finite(),
            self@.dom().len() == self.entries().len(),
    {
        let keys = Seq::new(self.entries().len(), |i: int| self.entries()[i].0);
        assert forall|i: int, j: int| 0 <= i < keys.len() && 0 <= j < keys.len() && i != j implies keys[i]
            != keys[j] by {
            if i < j {
                assert(self.entries()[i].0.rank() < self.entries()[j].0.rank());
            } else {
                assert(self.entries()[j].0.rank() < self.entries()[i].0.rank());
            }
        }
        keys.unique_seq_to_set();
        assert forall|k: K| self@.dom().contains(k) <==> keys.to_set().contains(k) by {
            if self.has(k) {
                assert(keys[self.index_of(k)] == k);
            }
            if keys.to_set().contains(k) {
                let i = keys.index_of(k);
                self.lemma_entry(i);
            }
        }
        assert(self@.dom() =~= keys.to_set());
    }

    pub fn new() -> (m: Self)
        ensures
            m.wf(),
            m@ == Map::<K, V>::empty(),
            m.entries().len() == 0,
    {
        let m = OrdMap { entries: Vec::new() };
        assert(m@ =~= Map::<K, V>::empty());
        m
    }

    pub fn len(&self) -> (n: usize)
        ensures
            n == self.entries().len(),
    {
        self.entries.len()
    }

    /// The place at which `k` stands, or would be put in.
    fn find(&self, k: &K) -> (r: (usize, bool))
        requires
            self.wf(),
        ensures
            r.0 <= self.entries().len(),
            forall|i: int| 0 <= i < r.0 ==> (#[trigger] self.entries()[i]).0.rank() < k.rank(),
            r.1 ==> r.0 < self.entries().len() && self.entries()[r.0 as int].0 == *k,
            !r.1 ==> forall|i: int|
                r.0 <= i < self.entries().len() ==> (#[trigger] self.entries()[i]).0.rank()
                    > k.rank(),
            r.1 == self@.dom().contains(*k),
    {
        let mut i: usize = 0;
        while i < self.entries.len() && self.entries[i].0.before(k)
            invariant
                i <= self.entries().len(),
                forall|j: int| 0 <= j < i ==> (#[trigger] self.entries()[j]).0.rank() < k.rank(),
            decreases self.entries@.len() - i,
        {
            i += 1;
        }
        if i < self.entries.len() && !k.before(&self.entries[i].0) {
            proof {
                K::rank_injective(self.entries()[i as int].0, *k);
                self.lemma_entry(i as int);
            }
            (i, true)
        } else {
            proof {
                assert forall|j: int| i <= j < self.entries().len() implies (
                #[trigger] self.entries()[j]).0.rank() > k.rank() by {
                    if i < j {
                        assert(self.entries()[i as int].0.rank() < self.entries()[j].0.rank());
                    }
                }
            }
            (i, false)
        }
    }

    pub fn contains_key(&self, k: &K) -> (r: bool)
        requires
            self.wf(),
        ensures
            r == self@.dom().contains(*k),
    {
        self.find(k).1
    }

    pub fn get(&self, k: &K) -> (r: Option<&V>)
        requires
            self.wf(),
        ensures
            r is Some <==> self@.dom().contains(*k),
            r matches Some(v) ==> *v == self@[*k],
    {
        let (i, found) = self.find(k);
        if found {
            proof {
                self.lemma_entry(i as int);
            }
            Some(&self.entries[i].1)
        } else {
            None
        }
    }

    /// The entry at place `i` of the key order.
    pub fn at(&self, i: usize) -> (r: (&K, &V))
        requires
            self.wf(),
            i < self.entries().len(),
        ensures
            *r.0 == self.entries()[i as int].0,
            *r.1 == self.entries()[i as int].1,
            self@.dom().contains(*r.0),
            self@[*r.0] == *r.1,
    {
        proof {
            self.lemma_entry(i as int);
        }
        (&self.entries[i].0, &self.entries[i].1)
    }

    /// Hands the entries out in key order.
    pub fn into_entries(self) -> (entries: Vec<(K, V)>)
        ensures
            entries@ == self.entries(),
    {
        self.entries
    }

    pub fn remove(&mut self, k: &K) -> (r: Option<V>)
        requires
            old(self).wf(),
        ensures
            final(self).wf(),
            final(self)@ == old(self)@.remove(*k),
            r is Some <==> old(self)@.dom().contains(*k),
            r matches Some(v) ==> v == old(self)@[*k],
    {
        let (i, found) = self.find(k);
        let ghost before = *self;
        if found {
            proof {
                self.lemma_entry(i as int);
            }
            let (_, v) = self.entries.remove(i);
            proof {
                before.lemma_removed(*self, i as int);
            }
            Some(v)
        } else {
            assert(self@ =~= before@.remove(*k));
            None
        }
    }

    proof fn lemma_removed(self, after: Self, at: int)
        requires
            self.wf(),
            0 <= at < self.entries().len(),
            after.entries() == self.entries().remove(at),
        ensures
            after.wf(),
            after@ == self@.remove(self.entries()[at].0),
    {
        let k = self.entries()[at].0;
        let a = self.entries();
        let b = after.entries();
        assert forall|i: int| 0 <= i < b.len() implies #[trigger] b[i] == a[if i < at {
            i
        } else {
            i + 1
        }] by {}
        assert(after.wf());
        assert forall|q: K| after@.dom().contains(q) <==> self@.remove(k).dom().contains(q) by {
            if after.has(q) {
                let i = after.index_of(q);
                let j = if i < at {
                    i
                } else {
                    i + 1
                };
                assert(a[j].0 == q);
                assert(j != at);
                if q == k {
                    if j < at {
                        assert(a[j].0.rank() < a[at].0.rank());
                    } else {
                        assert(a[at].0.rank() < a[j].0.rank());
                    }
                }
            }
            if self.has(q) && q != k {
                let j = self.index_of(q);
                let i = if j < at {
                    j
                } else {
                    j - 1
                };
                assert(b[i].0 == q);
            }
        }
        assert forall|q: K| after@.dom().contains(q) implies after@[q] == self@[q] by {
            let i = after.index_of(q);
            let j = if i < at {
                i
            } else {
                i + 1
            };
            assert(a[j].0 == q);
            self.lemma_entry(j);
            after.lemma_entry(i);
        }
        assert(after@ =~= self@.remove(k));
    }

    pub fn insert(&mut self, k: K, v: V)
        requires
            old(self).wf(),
        ensures
            final(self).wf(),
            final(self)@ == old(self)@.insert(k, v),
    {
        let (i, found) = self.find(&k);
        let ghost before = *self;
        if found {
            self.entries[i] = (k, v);
            proof {
                before.lemma_updated(*self, i as int);
            }
        } else {
            self.entries.insert(i, (k, v));
            proof {
                before.lemma_inserted(*self, i as int, k, v);
            }
        }
    }

    proof fn lemma_inserted(self, after: Self, at: int, k: K, v: V)
        requires
            self.wf(),
            0 <= at <= self.entries().len(),
            after.entries() == self.entries().insert(at, (k, v)),
            forall|i: int| 0 <= i < at ==> (#[trigger] self.entries()[i]).0.rank() < k.rank(),
            forall|i: int|
                at <= i < self.entries().len() ==> (#[trigger] self.entries()[i]).0.rank()
                    > k.rank(),
        ensures
            after.wf(),
            after@ == self@.insert(k, v),
    {
        let a = self.entries();
        let b = after.entries();
        assert forall|i: int| 0 <= i < b.len() implies #[trigger] b[i] == (if i < at {
            a[i]
        } else if i == at {
            (k, v)
        } else {
            a[i - 1]
        }) by {}
        assert(after.wf());
        assert forall|q: K| after@.dom().contains(q) <==> self@.insert(k, v).dom().contains(q) by {
            if after.has(q) && q != k {
                let i = after.index_of(q);
                let j = if i < at {
                    i
                } else {
                    i - 1
                };
                assert(a[j].0 == q);
            }
            if self.has(q) {
                let j = self.index_of(q);
                let i = if j < at {
                    j
                } else {
                    j + 1
                };
                assert(b[i].0 == q);
            }
            assert(b[at].0 == k);
        }
        assert forall|q: K| after@.dom().contains(q) implies after@[q] == self@.insert(k, v)[q] by {
            after.lemma_entry(at);
            if q != k {
                let i = after.index_of(q);
                let j = if i < at {
                    i
                } else {
                    i - 1
                };
                assert(a[j].0 == q);
                self.lemma_entry(j);
                after.lemma_entry(i);
            }
        }
        assert(after@ =~= self@.insert(k, v));
    }

    proof fn lemma_updated(self, after: Self, at: int)
        requires
            self.wf(),
            0 <= at < self.entries().len(),
            after.entries() == self.entries().update(at, after.entries()[at]),
            after.entries()[at].0 == self.entries()[at].0,
        ensures
            after.wf(),
            after@ == self@.insert(self.entries()[at].0, after.entries()[at].1),
    {
        let k = self.entries()[at].0;
        let v = after.entries()[at].1;
        let a = self.entries();
        let b = after.entries();
        assert forall|i: int| 0 <= i < b.len() implies (#[trigger] b[i]).0 == a[i].0 by {}
        assert(after.wf());
        assert forall|q: K| after@.dom().contains(q) <==> self@.insert(k, v).dom().contains(q) by {
            if after.has(q) {
                assert(a[after.index_of(q)].0 == q);
            }
            if self.has(q) {
                assert(b[self.index_of(q)].0 == q);
            }
            assert(b[at].0 == k);
        }
        assert forall|q: K| after@.dom().contains(q) implies after@[q] == self@.insert(k, v)[q] by {
            let j = after.index_of(q);
            after.lemma_entry(j);
            self.lemma_entry(j);
            after.lemma_entry(at);
        }
        assert(after@ =~= self@.insert(k, v));
    }

    /// The value at `k`, to be changed in place.
    pub fn get_mut(&mut self, k: &K) -> (r: Option<&mut V>)
        requires
            old(self).wf(),
        ensures
            r is Some <==> old(self)@.dom().contains(*k),
            match r {
                Some(v) => {
                    &&& *v == old(self)@[*k]
                    &&& final(self).wf()
                    &&& final(self)@ == old(self)@.insert(*k, *final(v))
                },
                None => *final(self) == *old(self),
            },
    {
        let (i, found) = self.find(k);
        if found {
            proof {
                self.lemma_entry(i as int);
                let before = *self;
                assert forall|after: Self|
                    after.entries().len() == before.entries().len() && (forall|j: int|
                        0 <= j < before.entries().len() && j != i ==> #[trigger] after.entries()[j]
                            == before.entries()[j]) && after.entries()[i as int].0
                        == *k implies after.wf() && #[trigger] after@ == before@.insert(
                    *k,
                    after.entries()[i as int].1,
                ) by {
                    assert(after.entries() =~= before.entries().update(
                        i as int,
                        after.entries()[i as int],
                    ));
                    before.lemma_updated(after, i as int);
                }
            }
            let slot = &mut self.entries[i];
            Some(&mut slot.1)
        } else {
            None
        }
    }
}

} // verus!
