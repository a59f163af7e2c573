//! Byte-keyspace helpers: prefix successors, prefix ranges, bound conversion.
//!
//! Everything here is arithmetic on the lexicographic byte order that
//! [`KvStore`](crate::store::KvStore) mandates. Backend implementors need it to
//! map bounds; key-schema authors need it to turn a prefix into a scan range.

use core::ops::Bound;

use vstd::prelude::*;

use crate::bytes::{
    bytes_eq, bytes_lt, copy_bytes, le, lemma_lt_common_prefix, lemma_order, lemma_prefix_le, lt,
    parts_at, starts_with,
};

verus! {

/// The standard library's range bound, with its three variants.
#[verifier::external_type_specification]
pub struct ExBound<T>(Bound<T>);

/// The bytes a borrowed bound stands for.
pub open spec fn bound_of(b: Bound<&[u8]>) -> Bound<Seq<u8>> {
    match b {
        Bound::Included(k) => Bound::Included(k@),
        Bound::Excluded(k) => Bound::Excluded(k@),
        Bound::Unbounded => Bound::Unbounded,
    }
}

/// The bytes an owned bound stands for.
pub open spec fn owned_bound_of(b: Bound<Vec<u8>>) -> Bound<Seq<u8>> {
    match b {
        Bound::Included(k) => Bound::Included(k@),
        Bound::Excluded(k) => Bound::Excluded(k@),
        Bound::Unbounded => Bound::Unbounded,
    }
}

/// Whether `k` satisfies the lower bound.
pub open spec fn after_start(k: Seq<u8>, start: Bound<Seq<u8>>) -> bool {
    match start {
        Bound::Included(s) => le(s, k),
        Bound::Excluded(s) => lt(s, k),
        Bound::Unbounded => true,
    }
}

/// Whether `k` satisfies the upper bound.
pub open spec fn before_end(k: Seq<u8>, end: Bound<Seq<u8>>) -> bool {
    match end {
        Bound::Included(e) => le(k, e),
        Bound::Excluded(e) => lt(k, e),
        Bound::Unbounded => true,
    }
}

/// Whether `k` lies in the range.
pub open spec fn in_range(k: Seq<u8>, start: Bound<Seq<u8>>, end: Bound<Seq<u8>>) -> bool {
    after_start(k, start) && before_end(k, end)
}

/// The key a bound names, if it names one.
pub open spec fn bound_key(b: Bound<Seq<u8>>) -> Option<Seq<u8>> {
    match b {
        Bound::Included(k) => Some(k),
        Bound::Excluded(k) => Some(k),
        Bound::Unbounded => None,
    }
}

/// Whether both bounds name a key and either the start sorts after the end, or
/// they name the same key and one of them excludes it.
pub open spec fn crossed(start: Bound<Seq<u8>>, end: Bound<Seq<u8>>) -> bool {
    match (bound_key(start), bound_key(end)) {
        (Some(s), Some(e)) => lt(e, s) || (s == e && (start is Excluded || end is Excluded)),
        _ => false,
    }
}

/// The byte string that follows every key beginning with `p`: the last byte
/// below `0xFF` is incremented and everything behind it is dropped.
pub open spec fn successor(p: Seq<u8>) -> Option<Seq<u8>>
    decreases p.len(),
{
    if p.len() == 0 {
        None
    } else if p.last() != 0xFF {
        Some(p.drop_last().push((p.last() + 1) as u8))
    } else {
        successor(p.drop_last())
    }
}

/// The upper bound of the keys beginning with `p`.
pub open spec fn prefix_end(p: Seq<u8>) -> Bound<Seq<u8>> {
    match successor(p) {
        Some(n) => Bound::Excluded(n),
        None => Bound::Unbounded,
    }
}

/// A crossed range holds no key.
pub proof fn law_crossed_is_empty(start: Bound<Seq<u8>>, end: Bound<Seq<u8>>, k: Seq<u8>)
    requires
        crossed(start, end),
    ensures
        !in_range(k, start, end),
{
    let s = bound_key(start)->0;
    let e = bound_key(end)->0;
    lemma_order(s, k, e);
    lemma_order(e, s, e);
    lemma_order(k, s, k);
    lemma_order(s, k, s);
}

/// What a successor looks like: the prefix up to some byte below `0xFF`, that
/// byte incremented, and only `0xFF` bytes dropped behind it.
pub open spec fn successor_at(p: Seq<u8>, n: Seq<u8>, i: int) -> bool {
    &&& 0 <= i < p.len()
    &&& n.len() == i + 1
    &&& n.subrange(0, i) == p.subrange(0, i)
    &&& p[i] < 0xFF
    &&& n[i] == p[i] + 1
    &&& forall|j: int| i < j < p.len() ==> p[j] == 0xFF
}

/// The recursive and the positional reading of a successor agree.
pub proof fn lemma_successor_shape(p: Seq<u8>)
    ensures
        match successor(p) {
            Some(n) => exists|i: int| successor_at(p, n, i),
            None => forall|j: int| 0 <= j < p.len() ==> p[j] == 0xFF,
        },
    decreases p.len(),
{
    if p.len() == 0 {
    } else if p.last() != 0xFF {
        let n = successor(p)->0;
        assert(n.subrange(0, p.len() - 1) =~= p.subrange(0, p.len() - 1));
        assert(successor_at(p, n, p.len() - 1));
    } else {
        let q = p.drop_last();
        lemma_successor_shape(q);
        match successor(q) {
            Some(n) => {
                let i = choose|i: int| successor_at(q, n, i);
                assert(p.subrange(0, i) =~= q.subrange(0, i));
                assert(successor_at(p, n, i)) by {
                    assert forall|j: int| i < j < p.len() implies p[j] == 0xFF by {
                        if j < q.len() {
                            assert(q[j] == p[j]);
                        }
                    }
                }
            },
            None => {
                assert forall|j: int| 0 <= j < p.len() implies p[j] == 0xFF by {
                    if j < q.len() {
                        assert(q[j] == p[j]);
                    }
                }
            },
        }
    }
}

/// The prefix range holds exactly the keys that begin with the prefix.
pub proof fn law_prefix_range_exact(p: Seq<u8>, k: Seq<u8>)
    ensures
        in_range(k, Bound::Included(p), prefix_end(p)) <==> starts_with(k, p),
{
    lemma_successor_shape(p);
    if starts_with(k, p) {
        lemma_prefix_le(p, k);
        if let Some(n) = successor(p) {
            let i = choose|i: int| successor_at(p, n, i);
            assert forall|j: int| 0 <= j < i implies k[j] == n[j] by {
                assert(n.subrange(0, i)[j] == p.subrange(0, i)[j]);
                assert(k.subrange(0, p.len() as int)[j] == p[j]);
            }
            assert(k.subrange(0, p.len() as int)[i] == p[i]);
            assert(parts_at(k, n, i));
        }
    } else if le(p, k) {
        assert(p != k) by {
            if p == k {
                assert(k.subrange(0, p.len() as int) =~= p);
            }
        }
        let m = choose|m: int| parts_at(p, k, m);
        if m == p.len() {
            assert(k.subrange(0, p.len() as int) =~= p);
        }
        assert(m < p.len() && p[m] < k[m]);
        if let Some(n) = successor(p) {
            let i = choose|i: int| successor_at(p, n, i);
            if lt(k, n) {
                let d = choose|d: int| parts_at(k, n, d);
                assert forall|j: int| 0 <= j < i implies n[j] == p[j] by {
                    assert(n.subrange(0, i)[j] == p.subrange(0, i)[j]);
                }
                if m < i {
                    if d < m {
                        assert(k[d] == p[d] && n[d] == p[d]);
                    } else {
                        assert(d == m || k[m] == n[m]);
                    }
                    assert(false);
                } else if m > i {
                    assert(p[m] == 0xFF);
                    assert(false);
                } else {
                    if d < i {
                        assert(k[d] == p[d] && n[d] == p[d]);
                        assert(false);
                    }
                    assert(d == i);
                    assert(k[i] < n[i]);
                    assert(false);
                }
            }
        } else {
            assert(p[m] == 0xFF);
        }
    }
}

/// The successor of a prefix is the least byte string that sorts after every
/// key beginning with it; where there is no successor, no byte string does.
pub proof fn law_successor_is_least(p: Seq<u8>, u: Seq<u8>)
    requires
        forall|k: Seq<u8>| #[trigger] starts_with(k, p) ==> lt(k, u),
    ensures
        successor(p) is Some,
        le(successor(p)->0, u),
{
    law_prefix_range_exact(p, u);
    assert(starts_with(p, p)) by {
        assert(p.subrange(0, p.len() as int) =~= p);
    }
    if starts_with(u, p) {
        assert(lt(u, u));
    }
    assert(lt(p, u));
    let n = successor(p);
    if n is Some {
        lemma_order(u, n->0, u);
    }
}

/// Moving both bounds and the key behind one prefix changes nothing.
pub proof fn lemma_range_common_prefix(p: Seq<u8>, a: Seq<u8>, b: Seq<u8>)
    ensures
        lt(p + a, p + b) <==> lt(a, b),
        le(p + a, p + b) <==> le(a, b),
{
    lemma_lt_common_prefix(p, a, b);
    if p + a == p + b {
        assert(a =~= (p + a).subrange(p.len() as int, (p + a).len() as int));
        assert(b =~= (p + b).subrange(p.len() as int, (p + b).len() as int));
    }
}

/// Whether a range is empty solely from its bounds.
///
/// Every [`KvStore`](crate::store::KvStore) backend must normalize these ranges
/// to an empty result before calling an engine whose native range API rejects
/// them. A range is empty when both bounds are keyed and the start sorts after
/// the end, or when equal keyed bounds exclude that one possible key.
pub fn is_empty_range(start: &Bound<&[u8]>, end: &Bound<&[u8]>) -> (r: bool)
    ensures
        r == crossed(bound_of(*start), bound_of(*end)),
{
    match (start, end) {
        (Bound::Included(s), Bound::Included(e)) => bytes_lt(e, s),
        (Bound::Included(s), Bound::Excluded(e)) => bytes_lt(e, s) || bytes_eq(s, e),
        (Bound::Excluded(s), Bound::Included(e)) => bytes_lt(e, s) || bytes_eq(s, e),
        (Bound::Excluded(s), Bound::Excluded(e)) => bytes_lt(e, s) || bytes_eq(s, e),
        _ => false,
    }
}

/// Returns the least byte string that sorts strictly after every key
/// beginning with `prefix`, or `None` when no such string exists.
///
/// `Excluded(next_prefix(p))` is the exact upper bound of the `p` namespace. A
/// prefix consisting entirely of `0xFF` bytes, and the empty prefix, have no
/// successor: their namespace runs to the end of the keyspace, and the caller
/// must use `Bound::Unbounded` rather than inventing a sentinel.
pub fn next_prefix(prefix: &[u8]) -> (r: Option<Vec<u8>>)
    ensures
        match r {
            Some(n) => successor(prefix@) == Some(n@),
            None => successor(prefix@) is None,
        },
{
    let mut n: usize = prefix.len();
    assert(prefix@.subrange(0, n as int) =~= prefix@);
    while n > 0
        invariant
            n <= prefix.len(),
            successor(prefix@) == successor(prefix@.subrange(0, n as int)),
        decreases n,
    {
        let ghost head = prefix@.subrange(0, n as int);
        assert(head.drop_last() =~= prefix@.subrange(0, n - 1));
        if prefix[n - 1] != 0xFF {
            let mut next = copy_bytes(prefix);
            next.truncate(n - 1);
            next.push(prefix[n - 1] + 1);
            assert(next@ =~= head.drop_last().push((head.last() + 1) as u8));
            return Some(next);
        }
        n = n - 1;
    }
    None
}

/// Returns the bound pair that matches exactly the keys carrying `prefix`.
///
/// The upper bound is `Excluded(next_prefix(prefix))`, falling back to
/// `Bound::Unbounded` when the prefix has no successor (see [`next_prefix`]).
pub fn prefix_range(prefix: &[u8]) -> (r: (Bound<Vec<u8>>, Bound<Vec<u8>>))
    ensures
        owned_bound_of(r.0) == Bound::Included(prefix@),
        owned_bound_of(r.1) == prefix_end(prefix@),
        forall|k: Seq<u8>|
            in_range(k, owned_bound_of(r.0), owned_bound_of(r.1)) <==> #[trigger] starts_with(
                k,
                prefix@,
            ),
{
    let start = Bound::Included(copy_bytes(prefix));
    let end = match next_prefix(prefix) {
        Some(next) => Bound::Excluded(next),
        None => Bound::Unbounded,
    };
    proof {
        assert forall|k: Seq<u8>|
            in_range(k, owned_bound_of(start), owned_bound_of(end)) <==> #[trigger] starts_with(
                k,
                prefix@,
            ) by {
            law_prefix_range_exact(prefix@, k);
        }
    }
    (start, end)
}

/// Copy a borrowed bound into an owned one.
///
/// Backends that hand bounds to an owning collection need this because
/// [`KvStore::range`](crate::store::KvStore::range) borrows its bounds for the
/// call only.
pub fn bound_to_owned(bound: Bound<&[u8]>) -> (r: Bound<Vec<u8>>)
    ensures
        owned_bound_of(r) == bound_of(bound),
{
    match bound {
        Bound::Included(bytes) => Bound::Included(copy_bytes(bytes)),
        Bound::Excluded(bytes) => Bound::Excluded(copy_bytes(bytes)),
        Bound::Unbounded => Bound::Unbounded,
    }
}

/// Borrow an owned bound as a slice bound.
///
/// The inverse of [`bound_to_owned`], for handing a computed bound back down to
/// an inner store.
pub fn bound_as_slice(bound: &Bound<Vec<u8>>) -> (r: Bound<&[u8]>)
    ensures
        bound_of(r) == owned_bound_of(*bound),
{
    match bound {
        Bound::Included(bytes) => Bound::Included(bytes.as_slice()),
        Bound::Excluded(bytes) => Bound::Excluded(bytes.as_slice()),
        Bound::Unbounded => Bound::Unbounded,
    }
}

/// Decides whether `key` lies in the range.
pub fn key_in_bounds(key: &[u8], start: &Bound<&[u8]>, end: &Bound<&[u8]>) -> (r: bool)
    ensures
        r == in_range(key@, bound_of(*start), bound_of(*end)),
{
    let after = match start {
        Bound::Included(s) => bytes_lt(s, key) || bytes_eq(s, key),
        Bound::Excluded(s) => bytes_lt(s, key),
        Bound::Unbounded => true,
    };
    let before = match end {
        Bound::Included(e) => bytes_lt(key, e) || bytes_eq(key, e),
        Bound::Excluded(e) => bytes_lt(key, e),
        Bound::Unbounded => true,
    };
    after && before
}

} // verus!
