//! The raw-byte view the flat directory layout works over.
//!
//! A [`RawKv`] is a read/write view over one store's raw (unstructured) byte
//! map: no keyspace semantics, just bytes. The backends implement it over
//! their transaction views and route every directory-layout operation through
//! [`FlatEngine`](crate::flatengine::FlatEngine), so the layout logic is written
//! once.
//!
//! All reads return **owned** bytes: the layout machinery decodes and collects
//! before returning, so no borrow from the engine view escapes.

use core::ops::Bound;

use vstd::prelude::*;

use crate::bytes::{lemma_lt_asymmetric, lemma_lt_irreflexive, lt};
use crate::keyspace::{bound_of, in_range};
use crate::stream::KvPair;

verus! {

/// The rows of a store: a map from key bytes to value bytes.
pub type Rows = Map<Seq<u8>, Seq<u8>>;

/// What a point read of `key` gives on these rows.
pub open spec fn row_at(m: Rows, key: Seq<u8>) -> Option<Seq<u8>> {
    if m.dom().contains(key) {
        Some(m[key])
    } else {
        None
    }
}

/// The bytes behind an optional owned value.
pub open spec fn value_of(v: Option<Vec<u8>>) -> Option<Seq<u8>> {
    match v {
        Some(b) => Some(b@),
        None => None,
    }
}

/// Whether the keys of a list rise (or, when not `forward`, fall) strictly.
pub open spec fn in_key_order(list: Seq<KvPair>, forward: bool) -> bool {
    forall|i: int, j: int|
        #![trigger list[i], list[j]]
        0 <= i < j < list.len() ==> if forward {
            lt(list[i].key@, list[j].key@)
        } else {
            lt(list[j].key@, list[i].key@)
        }
}

/// Whether every pair of the list is a row.
pub open spec fn all_rows(m: Rows, list: Seq<KvPair>) -> bool {
    forall|i: int|
        0 <= i < list.len() ==> m.dom().contains((#[trigger] list[i]).key@) && m[list[i].key@]
            == list[i].value@
}

/// Whether the list has a pair with this key.
pub open spec fn lists_key(list: Seq<KvPair>, k: Seq<u8>) -> bool {
    exists|i: int| 0 <= i < list.len() && (#[trigger] list[i]).key@ == k
}

/// Whether `list` is the scan of these rows between two bounds: exactly the
/// rows in the range, each once, in key order.
pub open spec fn is_scan(
    m: Rows,
    start: Bound<Seq<u8>>,
    end: Bound<Seq<u8>>,
    forward: bool,
    list: Seq<KvPair>,
) -> bool {
    &&& all_rows(m, list)
    &&& in_key_order(list, forward)
    &&& forall|i: int| 0 <= i < list.len() ==> in_range((#[trigger] list[i]).key@, start, end)
    &&& forall|k: Seq<u8>| #[trigger]
        m.dom().contains(k) && in_range(k, start, end) ==> lists_key(list, k)
}

/// Whether a key comes before another in the direction of a scan.
pub open spec fn comes_before(a: Seq<u8>, b: Seq<u8>, forward: bool) -> bool {
    if forward {
        lt(a, b)
    } else {
        lt(b, a)
    }
}

/// Whether `list` is how a scan of these rows between two bounds begins: rows in the
/// range, each once, in key order, and none left out before the last of them.
pub open spec fn begins_scan(
    m: Rows,
    start: Bound<Seq<u8>>,
    end: Bound<Seq<u8>>,
    forward: bool,
    list: Seq<KvPair>,
) -> bool {
    &&& all_rows(m, list)
    &&& in_key_order(list, forward)
    &&& forall|i: int| 0 <= i < list.len() ==> in_range((#[trigger] list[i]).key@, start, end)
    &&& forall|k: Seq<u8>, i: int|
        #![trigger m.dom().contains(k), list[i]]
        m.dom().contains(k) && in_range(k, start, end) && 0 <= i < list.len() && !lists_key(list, k)
            ==> comes_before(list[i].key@, k, forward)
}

/// These rows without the ones in a range.
pub open spec fn without_range(m: Rows, start: Bound<Seq<u8>>, end: Bound<Seq<u8>>) -> Rows {
    m.remove_keys(Set::new(|k: Seq<u8>| in_range(k, start, end)))
}

/// The keys of the rows between two bounds.
pub open spec fn keys_within(m: Rows, start: Bound<Seq<u8>>, end: Bound<Seq<u8>>) -> Set<Seq<u8>> {
    Set::new(|k: Seq<u8>| m.dom().contains(k) && in_range(k, start, end))
}

/// The terms on which a view works.
pub ghost struct Terms {
    /// Whether reads through the view succeed.
    pub readable: bool,
    /// Whether writes through the view succeed.
    pub writable: bool,
    /// The rows beneath the view, which its writes do not reach.
    pub beneath: Rows,
}

/// A read/write view over a raw byte map.
///
/// Implementations must honour the empty-range contract: a range that
/// [`is_empty_range`](crate::keyspace::is_empty_range) calls empty yields no
/// rows and performs no mutation.
pub trait RawKv {
    /// The engine's own error type.
    type Error;

    /// The view's own invariant.
    spec fn wf(&self) -> bool;

    /// The rows that the view shows.
    spec fn rows(&self) -> Rows;

    /// The keys that were written or deleted through the view.
    spec fn touched(&self) -> Set<Seq<u8>>;

    /// The terms on which the view works. No operation changes them.
    spec fn terms(&self) -> Terms;

    /// A view shows finitely many rows.
    proof fn rows_finite(&self)
        requires
            self.wf(),
        ensures
            self.rows().dom().finite(),
    ;

    /// Get one row.
    fn get(&self, key: &[u8]) -> (r: Result<Option<Vec<u8>>, Self::Error>)
        requires
            self.wf(),
        ensures
            match r {
                Ok(v) => value_of(v) == row_at(self.rows(), key@),
                Err(_) => !self.terms().readable,
            },
    ;

    /// Scan the rows between two bounds, ascending or descending.
    fn scan(&self, start: Bound<&[u8]>, end: Bound<&[u8]>, forward: bool) -> (r: Result<
        Vec<KvPair>,
        Self::Error,
    >)
        requires
            self.wf(),
        ensures
            match r {
                Ok(list) => is_scan(self.rows(), bound_of(start), bound_of(end), forward, list@),
                Err(_) => !self.terms().readable,
            },
    ;

    /// Insert (or overwrite) one row.
    fn insert(&mut self, key: &[u8], value: &[u8]) -> (r: Result<(), Self::Error>)
        requires
            old(self).wf(),
        ensures
            final(self).wf(),
            final(self).terms() == old(self).terms(),
            match r {
                Ok(()) => {
                    &&& final(self).rows() == old(self).rows().insert(key@, value@)
                    &&& final(self).touched() == old(self).touched().insert(key@)
                },
                Err(_) => !old(self).terms().writable,
            },
    ;

    /// Delete one row (a no-op if absent).
    fn delete(&mut self, key: &[u8]) -> (r: Result<(), Self::Error>)
        requires
            old(self).wf(),
        ensures
            final(self).wf(),
            final(self).terms() == old(self).terms(),
            match r {
                Ok(()) => {
                    &&& final(self).rows() == old(self).rows().remove(key@)
                    &&& final(self).touched() == old(self).touched().insert(key@)
                },
                Err(_) => !old(self).terms().writable,
            },
    ;

    /// Delete every row between two bounds.
    fn clear_range(&mut self, start: Bound<&[u8]>, end: Bound<&[u8]>) -> (r: Result<
        (),
        Self::Error,
    >)
        requires
            old(self).wf(),
        ensures
            final(self).wf(),
            final(self).terms() == old(self).terms(),
            match r {
                Ok(()) => {
                    &&& final(self).rows() == without_range(
                        old(self).rows(),
                        bound_of(start),
                        bound_of(end),
                    )
                    &&& final(self).touched() == old(self).touched().union(
                        keys_within(old(self).rows(), bound_of(start), bound_of(end)),
                    )
                },
                Err(_) => !old(self).terms().writable,
            },
    ;
}

/// Whether a read of the view fails with this error: a call on it, as it stands,
/// answered with it.
pub open spec fn read_fails<R: RawKv>(view: R, e: R::Error) -> bool {
    ||| exists|key: &[u8]| #[trigger]
        call_ensures(R::get, (&view, key), Err::<Option<Vec<u8>>, R::Error>(e))
    ||| exists|start: Bound<&[u8]>, end: Bound<&[u8]>, forward: bool| #[trigger]
        call_ensures(R::scan, (&view, start, end, forward), Err::<Vec<KvPair>, R::Error>(e))
}

/// Whether a write through the view fails with this error: a call on it, as it
/// stands, answered with it.
pub open spec fn write_fails<R: RawKv>(view: R, e: R::Error) -> bool {
    ||| exists|v: &mut R, key: &[u8], value: &[u8]|
        *v == view && #[trigger] call_ensures(R::insert, (v, key, value), Err::<(), R::Error>(e))
    ||| exists|v: &mut R, key: &[u8]|
        *v == view && #[trigger] call_ensures(R::delete, (v, key), Err::<(), R::Error>(e))
    ||| exists|v: &mut R, start: Bound<&[u8]>, end: Bound<&[u8]>|
        *v == view && #[trigger] call_ensures(
            R::clear_range,
            (v, start, end),
            Err::<(), R::Error>(e),
        )
}

/// Whether a read or write fails with this error on a view that works on these
/// terms: the view that an operation began with, or what its own writes made of it.
pub open spec fn call_fails<R: RawKv>(terms: Terms, e: R::Error) -> bool {
    exists|view: R| #[trigger]
        view.terms() == terms && (read_fails(view, e) || write_fails(view, e))
}

/// Two scans of the same rows between the same bounds hold the same pairs in
/// the same order: a scan is determined by what it scans.
pub proof fn law_scan_unique(
    m: Rows,
    start: Bound<Seq<u8>>,
    end: Bound<Seq<u8>>,
    forward: bool,
    a: Seq<KvPair>,
    b: Seq<KvPair>,
)
    requires
        is_scan(m, start, end, forward, a),
        is_scan(m, start, end, forward, b),
    ensures
        a.len() == b.len(),
        forall|i: int|
            0 <= i < a.len() ==> (#[trigger] a[i]).key@ == b[i].key@ && a[i].value@ == b[i].value@,
{
    lemma_scan_shorter(m, start, end, forward, a, b, a.len());
    lemma_scan_shorter(m, start, end, forward, b, a, b.len());
}

/// The first `n` pairs of one scan are the first `n` pairs of any other.
proof fn lemma_scan_shorter(
    m: Rows,
    start: Bound<Seq<u8>>,
    end: Bound<Seq<u8>>,
    forward: bool,
    a: Seq<KvPair>,
    b: Seq<KvPair>,
    n: nat,
)
    requires
        is_scan(m, start, end, forward, a),
        is_scan(m, start, end, forward, b),
        n <= a.len(),
    ensures
        n <= b.len(),
        forall|i: int|
            0 <= i < n ==> (#[trigger] a[i]).key@ == b[i].key@ && a[i].value@ == b[i].value@,
    decreases n,
{
    if n > 0 {
        lemma_scan_shorter(m, start, end, forward, a, b, (n - 1) as nat);
        let x = a[n - 1].key@;
        assert(m.dom().contains(x));
        assert(lists_key(b, x));
        let j = choose|j: int| 0 <= j < b.len() && (#[trigger] b[j]).key@ == x;
        if j < n - 1 {
            assert(a[j].key@ == b[j].key@);
            lemma_lt_irreflexive(x);
            assert(false);
        }
        let y = b[n - 1].key@;
        assert(m.dom().contains(y));
        assert(lists_key(a, y));
        let i = choose|i: int| 0 <= i < a.len() && (#[trigger] a[i]).key@ == y;
        if i < n - 1 {
            assert(a[i].key@ == b[i].key@);
            lemma_lt_irreflexive(y);
            assert(false);
        }
        if j > n - 1 {
            if i > n - 1 {
                // `x` follows `y` in `b`, and `y` follows `x` in `a`.
                if forward {
                    assert(lt(y, x));
                    assert(lt(x, y));
                    lemma_lt_asymmetric(x, y);
                } else {
                    assert(lt(x, y));
                    assert(lt(y, x));
                    lemma_lt_asymmetric(x, y);
                }
                assert(false);
            } else {
                assert(i == n - 1);
                assert(x == y);
                lemma_lt_irreflexive(x);
                assert(false);
            }
        }
    }
}

/// The pairs back to front.
pub(crate) fn reversed(rows: Vec<KvPair>) -> (r: Vec<KvPair>)
    ensures
        r@ == rows@.reverse(),
{
    let ghost all = rows@;
    let mut left = rows;
    let mut out: Vec<KvPair> = Vec::with_capacity(left.len());
    while left.len() > 0
        invariant
            left@ == all.subrange(0, left@.len() as int),
            left@.len() + out@.len() == all.len(),
            out@ == all.reverse().subrange(0, out@.len() as int),
        decreases left@.len(),
    {
        let ghost n = left@.len();
        match left.pop() {
            Some(pair) => {
                assert(left@ =~= all.subrange(0, n - 1));
                out.push(pair);
                assert(out@ =~= all.reverse().subrange(0, out@.len() as int));
            },
            None => {},
        }
    }
    assert(out@ =~= all.reverse());
    out
}

/// An ascending scan read backwards is the descending scan.
pub proof fn law_reverse_scan(
    m: Rows,
    start: Bound<Seq<u8>>,
    end: Bound<Seq<u8>>,
    list: Seq<KvPair>,
)
    requires
        is_scan(m, start, end, true, list),
    ensures
        is_scan(m, start, end, false, list.reverse()),
{
    let back = list.reverse();
    assert forall|i: int| 0 <= i < back.len() implies m.dom().contains((#[trigger] back[i]).key@)
        && m[back[i].key@] == back[i].value@ && in_range(back[i].key@, start, end) by {
        let pair = list[list.len() - 1 - i];
    }
    assert forall|i: int, j: int|
        #![trigger back[i], back[j]]
        0 <= i < j < back.len() implies lt(back[j].key@, back[i].key@) by {
        let a = list[list.len() - 1 - j];
        let b = list[list.len() - 1 - i];
    }
    assert forall|k: Seq<u8>| #[trigger]
        m.dom().contains(k) && in_range(k, start, end) implies lists_key(
        back,
        k,
    ) by {
        assert(lists_key(list, k));
        let i = choose|i: int| 0 <= i < list.len() && (#[trigger] list[i]).key@ == k;
        assert(back[list.len() - 1 - i].key@ == k);
    }
}

/// The rows of a scan in the requested direction.
pub(crate) fn directed(
    rows: Vec<KvPair>,
    forward: bool,
    Ghost(m): Ghost<Rows>,
    Ghost(start): Ghost<Bound<Seq<u8>>>,
    Ghost(end): Ghost<Bound<Seq<u8>>>,
) -> (r: Vec<KvPair>)
    requires
        is_scan(m, start, end, true, rows@),
    ensures
        is_scan(m, start, end, forward, r@),
{
    if forward {
        rows
    } else {
        proof {
            law_reverse_scan(m, start, end, rows@);
        }
        reversed(rows)
    }
}

} // verus!
