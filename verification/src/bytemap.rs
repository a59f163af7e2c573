//! An ordered map from byte strings to values.
//!
//! The map keeps its keys in strictly ascending lexicographic order, side by
//! side with their values, so that lookups are binary searches and a range is a
//! run of neighbouring entries.

use core::ops::Bound;

use vstd::prelude::*;

use crate::bytes::{
    bytes_eq, bytes_lt, copy_bytes, le, lemma_lt_irreflexive, lemma_lt_total, lemma_order, lt,
};
use crate::keyspace::{after_start, before_end, bound_of, in_range};

verus! {

/// An ordered map from byte strings to values.
pub struct ByteMap<V> {
    keys: Vec<Vec<u8>>,
    values: Vec<V>,
}

impl<V> ByteMap<V> {
    /// The keys in order, as byte strings.
    pub closed spec fn key_seq(&self) -> Seq<Seq<u8>> {
        Seq::new(self.keys@.len(), |i: int| self.keys@[i]@)
    }

    /// The values in the order of their keys.
    pub closed spec fn value_seq(&self) -> Seq<V> {
        self.values@
    }

    /// Every key has a value and the keys rise strictly.
    pub open spec fn wf(&self) -> bool {
        &&& self.value_seq().len() == self.key_seq().len()
        &&& forall|i: int, j: int|
            #![trigger self.key_seq()[i], self.key_seq()[j]]
            0 <= i < j < self.key_seq().len() ==> lt(self.key_seq()[i], self.key_seq()[j])
    }

    /// Whether `k` stands at position `i`.
    pub open spec fn at(&self, k: Seq<u8>, i: int) -> bool {
        0 <= i < self.key_seq().len() && self.key_seq()[i] == k
    }

    /// The position of a key.
    pub open spec fn position(&self, k: Seq<u8>) -> int {
        choose|i: int| self.at(k, i)
    }
}

impl<V> View for ByteMap<V> {
    type V = Map<Seq<u8>, V>;

    open spec fn view(&self) -> Map<Seq<u8>, V> {
        Map::new(
            |k: Seq<u8>| exists|i: int| self.at(k, i),
            |k: Seq<u8>| self.value_seq()[self.position(k)],
        )
    }
}

impl<V> ByteMap<V> {
    /// The entry at a position is in the map under its key.
    pub proof fn lemma_at(&self, i: int)
        requires
            self.wf(),
            0 <= i < self.key_seq().len(),
        ensures
            self@.dom().contains(self.key_seq()[i]),
            self@[self.key_seq()[i]] == self.value_seq()[i],
            self.position(self.key_seq()[i]) == i,
    {
        let k = self.key_seq()[i];
        assert(self.at(k, i));
        let j = self.position(k);
        assert(self.at(k, j));
        lemma_lt_irreflexive(k);
    }

    /// A key of the map has a position, and its value stands there.
    pub proof fn lemma_position(&self, k: Seq<u8>)
        requires
            self.wf(),
            self@.dom().contains(k),
        ensures
            self.at(k, self.position(k)),
            self@[k] == self.value_seq()[self.position(k)],
    {
        let i = choose|i: int| self.at(k, i);
        assert(self.at(k, i));
    }

    /// The map is finite.
    pub proof fn lemma_finite(&self)
        ensures
            self@.dom().finite(),
    {
        assert(self@.dom() =~= self.key_seq().to_set()) by {
            assert forall|k: Seq<u8>| self@.dom().contains(k) <==> self.key_seq().to_set().contains(
                k,
            ) by {
                if self@.dom().contains(k) {
                    let i = choose|i: int| self.at(k, i);
                    assert(self.key_seq()[i] == k);
                }
                if self.key_seq().to_set().contains(k) {
                    let i = choose|i: int|
                        0 <= i < self.key_seq().len() && self.key_seq()[i] == k;
                    assert(self.at(k, i));
                }
            }
        }
        vstd::seq_lib::seq_to_set_is_finite(self.key_seq());
    }

    /// An empty map.
    pub fn new() -> (r: ByteMap<V>)
        ensures
            r.wf(),
            r@ == Map::<Seq<u8>, V>::empty(),
            r.key_seq() == Seq::<Seq<u8>>::empty(),
    {
        let r = ByteMap { keys: Vec::new(), values: Vec::new() };
        assert(r.key_seq() =~= Seq::<Seq<u8>>::empty());
        assert(r@.dom() =~= Set::<Seq<u8>>::empty());
        assert(r@ =~= Map::<Seq<u8>, V>::empty());
        r
    }

    /// The number of entries.
    pub fn len(&self) -> (n: usize)
        requires
            self.wf(),
        ensures
            n == self.key_seq().len(),
            n == self@.len(),
    {
        proof {
            self.lemma_finite();
            assert(self.key_seq().no_duplicates()) by {
                assert forall|i: int, j: int|
                    0 <= i < self.key_seq().len() && 0 <= j < self.key_seq().len() && i
                        != j implies self.key_seq()[i] != self.key_seq()[j] by {
                    lemma_lt_irreflexive(self.key_seq()[i]);
                }
            }
            self.key_seq().unique_seq_to_set();
            assert(self@.dom() =~= self.key_seq().to_set()) by {
                assert forall|k: Seq<u8>|
                    self@.dom().contains(k) <==> self.key_seq().to_set().contains(k) by {
                    if self@.dom().contains(k) {
                        let i = choose|i: int| self.at(k, i);
                        assert(self.key_seq()[i] == k);
                    }
                    if self.key_seq().to_set().contains(k) {
                        let i = choose|i: int|
                            0 <= i < self.key_seq().len() && self.key_seq()[i] == k;
                        assert(self.at(k, i));
                    }
                }
            }
        }
        self.keys.len()
    }

    /// The key at a position.
    pub fn key_at(&self, i: usize) -> (k: &[u8])
        requires
            self.wf(),
            i < self.key_seq().len(),
        ensures
            k@ == self.key_seq()[i as int],
    {
        self.keys[i].as_slice()
    }

    /// The value at a position.
    pub fn value_at(&self, i: usize) -> (v: &V)
        requires
            self.wf(),
            i < self.key_seq().len(),
        ensures
            *v == self.value_seq()[i as int],
            *v == self@[self.key_seq()[i as int]],
    {
        proof {
            self.lemma_at(i as int);
        }
        &self.values[i]
    }

    /// The number of keys that sort before `k`.
    pub fn lower_bound(&self, k: &[u8]) -> (n: usize)
        requires
            self.wf(),
        ensures
            n <= self.key_seq().len(),
            forall|i: int| 0 <= i < n ==> lt(#[trigger] self.key_seq()[i], k@),
            forall|i: int| n <= i < self.key_seq().len() ==> le(k@, #[trigger] self.key_seq()[i]),
    {
        let mut lo: usize = 0;
        let mut hi: usize = self.keys.len();
        while lo < hi
            invariant
                self.wf(),
                lo <= hi <= self.key_seq().len(),
                self.key_seq().len() == self.keys@.len(),
                forall|i: int| 0 <= i < lo ==> lt(#[trigger] self.key_seq()[i], k@),
                forall|i: int|
                    hi <= i < self.key_seq().len() ==> le(k@, #[trigger] self.key_seq()[i]),
            decreases hi - lo,
        {
            let mid: usize = lo + (hi - lo) / 2;
            let ghost at = self.key_seq()[mid as int];
            if bytes_lt(self.keys[mid].as_slice(), k) {
                proof {
                    assert forall|i: int| 0 <= i < mid + 1 implies lt(
                        #[trigger] self.key_seq()[i],
                        k@,
                    ) by {
                        lemma_order(self.key_seq()[i], at, k@);
                    }
                }
                lo = mid + 1;
            } else {
                proof {
                    lemma_lt_total(at, k@);
                    assert forall|i: int| mid <= i < self.key_seq().len() implies le(
                        k@,
                        #[trigger] self.key_seq()[i],
                    ) by {
                        lemma_order(k@, at, self.key_seq()[i]);
                    }
                }
                hi = mid;
            }
        }
        lo
    }

    /// The position of `k`, if the map has it.
    pub fn find(&self, k: &[u8]) -> (r: Option<usize>)
        requires
            self.wf(),
        ensures
            match r {
                Some(i) => self.at(k@, i as int) && self@.dom().contains(k@) && self@[k@]
                    == self.value_seq()[i as int],
                None => !self@.dom().contains(k@),
            },
    {
        let n = self.lower_bound(k);
        if n < self.keys.len() && bytes_eq(self.keys[n].as_slice(), k) {
            proof {
                assert(self.key_seq()[n as int] == k@);
                self.lemma_at(n as int);
            }
            Some(n)
        } else {
            proof {
                if self@.dom().contains(k@) {
                    let i = choose|i: int| self.at(k@, i);
                    lemma_lt_irreflexive(k@);
                    if n < self.key_seq().len() {
                        assert(self.key_seq()[n as int] != k@);
                        lemma_order(k@, self.key_seq()[n as int], k@);
                    }
                }
            }
            None
        }
    }

    /// The value under `k`.
    pub fn get(&self, k: &[u8]) -> (r: Option<&V>)
        requires
            self.wf(),
        ensures
            match r {
                Some(v) => self@.dom().contains(k@) && *v == self@[k@],
                None => !self@.dom().contains(k@),
            },
    {
        match self.find(k) {
            Some(i) => Some(&self.values[i]),
            None => None,
        }
    }

    /// Whether the map has `k`.
    pub fn contains(&self, k: &[u8]) -> (r: bool)
        requires
            self.wf(),
        ensures
            r == self@.dom().contains(k@),
    {
        self.find(k).is_some()
    }

    /// Puts `v` under `k`, in place of what was there.
    pub fn insert(&mut self, k: &[u8], v: V)
        requires
            old(self).wf(),
        ensures
            final(self).wf(),
            final(self)@ == old(self)@.insert(k@, v),
    {
        let n = self.lower_bound(k);
        let ghost before = *self;
        let ghost ks = self.key_seq();
        if n < self.keys.len() && bytes_eq(self.keys[n].as_slice(), k) {
            proof {
                assert(ks[n as int] == k@);
                before.lemma_at(n as int);
            }
            self.values.set(n, v);
            proof {
                assert(self.key_seq() =~= ks);
                assert(self.wf());
                assert forall|j: Seq<u8>| self@.dom().contains(j) <==> before@.insert(
                    k@,
                    v,
                ).dom().contains(j) by {
                    if self@.dom().contains(j) {
                        let i = choose|i: int| self.at(j, i);
                        assert(before.at(j, i));
                    }
                    if before@.dom().contains(j) {
                        let i = choose|i: int| before.at(j, i);
                        assert(self.at(j, i));
                    }
                }
                assert(self@.dom() =~= before@.insert(k@, v).dom());
                assert forall|j: Seq<u8>| self@.dom().contains(j) implies self@[j] == before@.insert(
                    k@,
                    v,
                )[j] by {
                    let i = choose|i: int| self.at(j, i);
                    self.lemma_at(i);
                    before.lemma_at(i);
                }
                assert(self@ =~= before@.insert(k@, v));
            }
        } else {
            self.keys.insert(n, copy_bytes(k));
            self.values.insert(n, v);
            proof {
                let now = self.key_seq();
                assert(now =~= ks.insert(n as int, k@));
                if n < ks.len() {
                    assert(ks[n as int] != k@);
                }
                assert forall|i: int, j: int|
                    #![trigger now[i], now[j]]
                    0 <= i < j < now.len() implies lt(now[i], now[j]) by {
                    let a = if i < n {
                        i
                    } else {
                        i - 1
                    };
                    let b = if j < n {
                        j
                    } else {
                        j - 1
                    };
                    if i == n {
                        assert(now[j] == ks[b]);
                        if b > n {
                            assert(lt(ks[n as int], ks[b]));
                        }
                        lemma_order(k@, ks[n as int], ks[b]);
                    } else if j == n {
                        assert(now[i] == ks[a]);
                    } else {
                        assert(now[i] == ks[a] && now[j] == ks[b]);
                    }
                }
                assert(self.wf());
                let target = before@.insert(k@, v);
                assert forall|j: Seq<u8>| self@.dom().contains(j) <==> target.dom().contains(
                    j,
                ) by {
                    if self@.dom().contains(j) {
                        let i = choose|i: int| self.at(j, i);
                        if i < n {
                            assert(before.at(j, i));
                        } else if i > n {
                            assert(before.at(j, i - 1));
                        }
                    }
                    if before@.dom().contains(j) {
                        let i = choose|i: int| before.at(j, i);
                        if i < n {
                            assert(self.at(j, i));
                        } else {
                            assert(self.at(j, i + 1));
                        }
                    }
                    if j == k@ {
                        assert(self.at(j, n as int));
                    }
                }
                assert(self@.dom() =~= target.dom());
                assert forall|j: Seq<u8>| self@.dom().contains(j) implies self@[j] == target[j] by {
                    let i = choose|i: int| self.at(j, i);
                    self.lemma_at(i);
                    if i < n {
                        before.lemma_at(i);
                        assert(j != k@) by {
                            lemma_lt_irreflexive(k@);
                        }
                    } else if i > n {
                        before.lemma_at(i - 1);
                        assert(j != k@) by {
                            lemma_lt_irreflexive(k@);
                            assert(lt(now[n as int], now[i]));
                        }
                    }
                }
                assert(self@ =~= target);
            }
        }
    }

    /// Takes out the entry at a position.
    fn remove_at(&mut self, n: usize)
        requires
            old(self).wf(),
            n < old(self).key_seq().len(),
        ensures
            final(self).wf(),
            final(self)@ == old(self)@.remove(old(self).key_seq()[n as int]),
            final(self).key_seq() == old(self).key_seq().remove(n as int),
    {
        let ghost before = *self;
        let ghost ks = self.key_seq();
        let _ = self.keys.remove(n);
        let _ = self.values.remove(n);
        proof {
            let k = ks[n as int];
            let now = self.key_seq();
            assert(now =~= ks.remove(n as int));
            assert forall|i: int, j: int|
                #![trigger now[i], now[j]]
                0 <= i < j < now.len() implies lt(now[i], now[j]) by {
                let a = if i < n {
                    i
                } else {
                    i + 1
                };
                let b = if j < n {
                    j
                } else {
                    j + 1
                };
                assert(now[i] == ks[a] && now[j] == ks[b]);
            }
            assert(self.wf());
            let target = before@.remove(k);
            assert forall|j: Seq<u8>| self@.dom().contains(j) <==> target.dom().contains(j) by {
                if self@.dom().contains(j) {
                    let i = choose|i: int| self.at(j, i);
                    let a = if i < n {
                        i
                    } else {
                        i + 1
                    };
                    assert(before.at(j, a));
                    lemma_lt_irreflexive(j);
                    assert(ks[a] == j);
                }
                if target.dom().contains(j) {
                    let i = choose|i: int| before.at(j, i);
                    if i < n {
                        assert(self.at(j, i));
                    } else {
                        assert(self.at(j, i - 1));
                    }
                }
            }
            assert(self@.dom() =~= target.dom());
            assert forall|j: Seq<u8>| self@.dom().contains(j) implies self@[j] == target[j] by {
                let i = choose|i: int| self.at(j, i);
                self.lemma_at(i);
                if i < n {
                    before.lemma_at(i);
                } else {
                    before.lemma_at(i + 1);
                }
            }
            assert(self@ =~= target);
        }
    }

    /// Takes `k` out of the map, if it is there.
    pub fn remove(&mut self, k: &[u8])
        requires
            old(self).wf(),
        ensures
            final(self).wf(),
            final(self)@ == old(self)@.remove(k@),
    {
        match self.find(k) {
            Some(i) => self.remove_at(i),
            None => {
                assert(self@ =~= self@.remove(k@));
            },
        }
    }

    /// The positions `lo..hi` of the keys between two bounds.
    pub fn range(&self, start: &Bound<&[u8]>, end: &Bound<&[u8]>) -> (r: (usize, usize))
        requires
            self.wf(),
        ensures
            r.0 <= r.1 <= self.key_seq().len(),
            forall|i: int|
                0 <= i < self.key_seq().len() ==> (r.0 <= i < r.1 <==> in_range(
                    #[trigger] self.key_seq()[i],
                    bound_of(*start),
                    bound_of(*end),
                )),
    {
        let lo: usize = match start {
            Bound::Included(s) => self.lower_bound(s),
            Bound::Excluded(s) => {
                let mut next = copy_bytes(s);
                next.push(0);
                let n = self.lower_bound(next.as_slice());
                proof {
                    assert forall|i: int| 0 <= i < self.key_seq().len() implies (i >= n <==> lt(
                        s@,
                        #[trigger] self.key_seq()[i],
                    )) by {
                        crate::bytes::lemma_lt_push_zero(s@, self.key_seq()[i]);
                        lemma_order(self.key_seq()[i], next@, self.key_seq()[i]);
                    }
                }
                n
            },
            Bound::Unbounded => 0,
        };
        let hi: usize = match end {
            Bound::Included(e) => {
                let mut next = copy_bytes(e);
                next.push(0);
                let n = self.lower_bound(next.as_slice());
                proof {
                    assert forall|i: int| 0 <= i < self.key_seq().len() implies (i < n <==> le(
                        #[trigger] self.key_seq()[i],
                        e@,
                    )) by {
                        crate::bytes::lemma_lt_push_zero(e@, self.key_seq()[i]);
                        lemma_order(self.key_seq()[i], next@, self.key_seq()[i]);
                        lemma_order(self.key_seq()[i], e@, self.key_seq()[i]);
                        lemma_order(e@, self.key_seq()[i], e@);
                    }
                }
                n
            },
            Bound::Excluded(e) => self.lower_bound(e),
            Bound::Unbounded => self.keys.len(),
        };
        proof {
            assert forall|i: int| 0 <= i < self.key_seq().len() implies (i >= lo <==> after_start(
                #[trigger] self.key_seq()[i],
                bound_of(*start),
            )) by {
                if let Bound::Included(s) = start {
                    lemma_order(self.key_seq()[i], s@, self.key_seq()[i]);
                }
            }
            assert forall|i: int| 0 <= i < self.key_seq().len() implies (i < hi <==> before_end(
                #[trigger] self.key_seq()[i],
                bound_of(*end),
            )) by {
                if let Bound::Excluded(e) = end {
                    lemma_order(self.key_seq()[i], e@, self.key_seq()[i]);
                    lemma_order(e@, self.key_seq()[i], e@);
                }
            }
        }
        if lo <= hi {
            (lo, hi)
        } else {
            (lo, lo)
        }
    }
}

} // verus!
