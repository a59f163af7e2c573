//! The byte order, ranges, and directory paths.

use core::ops::Bound;

use vstd::prelude::*;
use vstd::utf8::valid_utf8;

use crate::bytes::{
    bytes_eq, bytes_lt, concat_bytes, copy_bytes, copy_tail, has_prefix, le, lemma_lt_asymmetric,
    lemma_lt_common_prefix, lemma_lt_irreflexive, lemma_order, lt, parts_at, starts_with, tail,
};
use crate::key::{path_of, valid_path, validate_dir, KeyError};
use crate::keyspace::{
    bound_as_slice, bound_of, bound_to_owned, in_range, is_empty_range, key_in_bounds,
    law_prefix_range_exact, next_prefix, owned_bound_of, prefix_range,
};

verus! {

// ---------------------------------------------------------------------------
// The order
// ---------------------------------------------------------------------------

/// The empty byte string comes first.
pub proof fn law_empty_first(b: Seq<u8>)
    ensures
        lt(Seq::empty(), b) <==> b.len() > 0,
        !lt(b, Seq::empty()),
{
    if b.len() > 0 {
        assert(parts_at(Seq::empty(), b, 0));
    }
}

/// The first byte decides, and where it is the same, what is behind it.
pub proof fn law_first_byte_decides(x: u8, a: Seq<u8>, y: u8, b: Seq<u8>)
    ensures
        lt(seq![x] + a, seq![y] + b) <==> x < y || (x == y && lt(a, b)),
{
    let s = seq![x] + a;
    let t = seq![y] + b;
    if x == y {
        lemma_lt_common_prefix(seq![x], a, b);
    } else if x < y {
        assert(parts_at(s, t, 0));
    } else {
        assert(parts_at(t, s, 0));
        lemma_lt_asymmetric(t, s);
    }
}

/// The order is a strict total order, and `le` is its reflexive form.
pub proof fn law_total_order(a: Seq<u8>, b: Seq<u8>, c: Seq<u8>)
    ensures
        !lt(a, a),
        a != b ==> (lt(a, b) <==> !lt(b, a)),
        lt(a, b) && lt(b, c) ==> lt(a, c),
        le(a, b) <==> lt(a, b) || a == b,
        le(a, b) <==> !lt(b, a),
{
    lemma_order(a, b, c);
    lemma_order(b, a, b);
}

/// A byte string begins with another one exactly if something behind the other one
/// makes it up, and that is its tail.
pub proof fn law_prefix(s: Seq<u8>, p: Seq<u8>)
    ensures
        starts_with(s, p) <==> exists|t: Seq<u8>| s == #[trigger] (p + t),
        starts_with(s, p) ==> s == p + tail(s, p.len()),
{
    if starts_with(s, p) {
        crate::bytes::lemma_starts_with_split(s, p);
    }
    if exists|t: Seq<u8>| s == #[trigger] (p + t) {
        let t = choose|t: Seq<u8>| s == #[trigger] (p + t);
        assert(s.subrange(0, p.len() as int) =~= p);
    }
}

/// What lies between two bounds.
pub proof fn law_between(k: Seq<u8>, a: Seq<u8>, b: Seq<u8>)
    ensures
        in_range(k, Bound::Unbounded, Bound::Unbounded),
        in_range(k, Bound::Included(a), Bound::Unbounded) <==> !lt(k, a),
        in_range(k, Bound::Excluded(a), Bound::Unbounded) <==> lt(a, k),
        in_range(k, Bound::Unbounded, Bound::Included(b)) <==> !lt(b, k),
        in_range(k, Bound::Unbounded, Bound::Excluded(b)) <==> lt(k, b),
        in_range(k, Bound::Included(a), Bound::Included(b)) <==> !lt(k, a) && !lt(b, k),
        in_range(k, Bound::Included(a), Bound::Excluded(b)) <==> !lt(k, a) && lt(k, b),
        in_range(k, Bound::Excluded(a), Bound::Included(b)) <==> lt(a, k) && !lt(b, k),
        in_range(k, Bound::Excluded(a), Bound::Excluded(b)) <==> lt(a, k) && lt(k, b),
{
    lemma_order(a, k, a);
    lemma_order(k, a, k);
    lemma_order(b, k, b);
    lemma_order(k, b, k);
}

/// A bound stands for its own bytes.
pub proof fn law_bound_bytes(a: &[u8], b: Vec<u8>)
    ensures
        bound_of(Bound::Included(a)) == Bound::Included(a@),
        bound_of(Bound::Excluded(a)) == Bound::Excluded(a@),
        bound_of(Bound::Unbounded) == Bound::<Seq<u8>>::Unbounded,
        owned_bound_of(Bound::Included(b)) == Bound::Included(b@),
        owned_bound_of(Bound::Excluded(b)) == Bound::Excluded(b@),
        owned_bound_of(Bound::Unbounded) == Bound::<Seq<u8>>::Unbounded,
{
}

/// A path has the segments of its directory, and is valid exactly if each is text.
pub proof fn law_path(dir: &[&[u8]])
    ensures
        path_of(dir@).len() == dir@.len(),
        forall|i: int| 0 <= i < dir@.len() ==> #[trigger] path_of(dir@)[i] == dir@[i]@,
        valid_path(path_of(dir@)) <==> forall|i: int|
            0 <= i < dir@.len() ==> valid_utf8((#[trigger] dir@[i])@),
{
    if valid_path(path_of(dir@)) {
        assert forall|i: int| 0 <= i < dir@.len() implies valid_utf8((#[trigger] dir@[i])@) by {
            assert(path_of(dir@)[i] == dir@[i]@);
        }
    }
}

// ---------------------------------------------------------------------------
// Calls
// ---------------------------------------------------------------------------

/// Comparing slices compares their bytes.
pub proof fn law_compare(a: &[u8], b: &[u8], less: bool, same: bool, begins: bool)
    requires
        call_ensures(bytes_lt, (a, b), less),
        call_ensures(bytes_eq, (a, b), same),
        call_ensures(has_prefix, (a, b), begins),
    ensures
        less <==> lt(a@, b@),
        same <==> a@ == b@,
        begins <==> exists|t: Seq<u8>| a@ == #[trigger] (b@ + t),
{
    law_prefix(a@, b@);
}

/// Copies hold the bytes that they are made of.
pub proof fn law_copies(a: &[u8], b: &[u8], n: usize, copy: Vec<u8>, both: Vec<u8>, rest: Vec<u8>)
    requires
        n <= a@.len(),
        call_ensures(copy_bytes, (a,), copy),
        call_ensures(concat_bytes, (a, b), both),
        call_ensures(copy_tail, (a, n), rest),
    ensures
        copy@ == a@,
        both@ == a@ + b@,
        a@ == a@.subrange(0, n as int) + rest@,
{
    assert(a@ =~= a@.subrange(0, n as int) + rest@);
}

/// A pair of bounds is empty by its bounds exactly if both name a key, and the start
/// sorts after the end, or both name the same key and not both take it in. No key
/// lies between such bounds.
pub proof fn law_empty_range(start: Bound<&[u8]>, end: Bound<&[u8]>, r: bool, k: Seq<u8>)
    requires
        call_ensures(is_empty_range, (&start, &end), r),
    ensures
        match (start, end) {
            (Bound::Included(s), Bound::Included(e)) => r <==> lt(e@, s@),
            (Bound::Included(s), Bound::Excluded(e)) => r <==> !lt(s@, e@),
            (Bound::Excluded(s), Bound::Included(e)) => r <==> !lt(s@, e@),
            (Bound::Excluded(s), Bound::Excluded(e)) => r <==> !lt(s@, e@),
            _ => !r,
        },
        r ==> !in_range(k, bound_of(start), bound_of(end)),
{
    match (start, end) {
        (Bound::Unbounded, _) => {},
        (_, Bound::Unbounded) => {},
        (Bound::Included(s), Bound::Included(e)) => {
            lemma_order(s@, e@, s@);
        },
        (Bound::Included(s), Bound::Excluded(e)) => {
            lemma_order(s@, e@, s@);
            lemma_order(e@, s@, e@);
        },
        (Bound::Excluded(s), Bound::Included(e)) => {
            lemma_order(s@, e@, s@);
            lemma_order(e@, s@, e@);
        },
        (Bound::Excluded(s), Bound::Excluded(e)) => {
            lemma_order(s@, e@, s@);
            lemma_order(e@, s@, e@);
        },
    }
    if r {
        crate::keyspace::law_crossed_is_empty(bound_of(start), bound_of(end), k);
    }
}

/// Between two inclusive bounds lie both of them, unless they cross.
pub proof fn law_closed_range(a: &[u8], b: &[u8], r: bool)
    requires
        call_ensures(is_empty_range, (&Bound::Included(a), &Bound::Included(b)), r),
    ensures
        !r <==> in_range(a@, Bound::Included(a@), Bound::Included(b@)),
        !r <==> in_range(b@, Bound::Included(a@), Bound::Included(b@)),
        !r <==> exists|k: Seq<u8>| #[trigger]
            in_range(k, Bound::Included(a@), Bound::Included(b@)),
{
    law_empty_range(Bound::Included(a), Bound::Included(b), r, a@);
    lemma_order(a@, b@, a@);
    lemma_lt_irreflexive(a@);
    lemma_lt_irreflexive(b@);
    if !r {
        assert(in_range(a@, Bound::Included(a@), Bound::Included(b@)));
    }
    if exists|k: Seq<u8>| #[trigger] in_range(k, Bound::Included(a@), Bound::Included(b@)) {
        let k = choose|k: Seq<u8>| #[trigger]
            in_range(k, Bound::Included(a@), Bound::Included(b@));
        lemma_order(a@, k, b@);
    }
}

/// The next prefix is above every key that begins with the prefix and the least such
/// byte string; where there is none, every byte of the prefix is `0xFF`.
pub proof fn law_next_prefix(prefix: &[u8], r: Option<Vec<u8>>, t: Seq<u8>, u: Seq<u8>)
    requires
        call_ensures(next_prefix, (prefix,), r),
    ensures
        r matches Some(n) ==> lt(prefix@ + t, n@),
        r matches Some(n) ==> (lt(u, n@) && !lt(u, prefix@) ==> exists|x: Seq<u8>|
            u == #[trigger] (prefix@ + x)),
        r is None <==> forall|i: int| 0 <= i < prefix@.len() ==> #[trigger] prefix@[i] == 0xFF,
{
    let p = prefix@;
    let k = p + t;
    crate::bytes::lemma_starts_with_concat(p, t);
    law_prefix_range_exact(p, k);
    law_prefix_range_exact(p, u);
    law_prefix(u, p);
    crate::keyspace::lemma_successor_shape(p);
    lemma_order(p, u, p);
    lemma_order(u, p, u);
    if r is Some {
        let n = r->0;
        let i = choose|i: int| crate::keyspace::successor_at(p, n@, i);
        assert(p[i] < 0xFF);
    }
}

/// A key lies in the range of a prefix exactly if it begins with the prefix.
pub proof fn law_prefix_range(prefix: &[u8], r: (Bound<Vec<u8>>, Bound<Vec<u8>>), k: Seq<u8>)
    requires
        call_ensures(prefix_range, (prefix,), r),
    ensures
        in_range(k, owned_bound_of(r.0), owned_bound_of(r.1)) <==> exists|t: Seq<u8>|
            k == #[trigger] (prefix@ + t),
{
    law_prefix(k, prefix@);
    law_prefix_range_exact(prefix@, k);
}

/// Owning a bound and borrowing it again changes nothing.
pub proof fn law_bounds_round_trip(bound: Bound<&[u8]>, owned: Bound<Vec<u8>>, back: Bound<&[u8]>)
    requires
        call_ensures(bound_to_owned, (bound,), owned),
        call_ensures(bound_as_slice, (&owned,), back),
    ensures
        match (bound, owned, back) {
            (Bound::Included(a), Bound::Included(b), Bound::Included(c)) => a@ == b@ && b@ == c@,
            (Bound::Excluded(a), Bound::Excluded(b), Bound::Excluded(c)) => a@ == b@ && b@ == c@,
            (Bound::Unbounded, Bound::Unbounded, Bound::Unbounded) => true,
            _ => false,
        },
{
}

/// A key is found in a range exactly if it lies between the bounds.
pub proof fn law_key_in_bounds(key: &[u8], start: Bound<&[u8]>, end: Bound<&[u8]>, r: bool)
    requires
        call_ensures(key_in_bounds, (key, &start, &end), r),
    ensures
        r <==> (match start {
            Bound::Included(s) => !lt(key@, s@),
            Bound::Excluded(s) => lt(s@, key@),
            Bound::Unbounded => true,
        }) && (match end {
            Bound::Included(e) => !lt(e@, key@),
            Bound::Excluded(e) => lt(key@, e@),
            Bound::Unbounded => true,
        }),
{
    match start {
        Bound::Included(s) => lemma_order(s@, key@, s@),
        Bound::Excluded(s) => lemma_order(s@, key@, s@),
        Bound::Unbounded => {},
    }
    match start {
        Bound::Included(s) => lemma_order(key@, s@, key@),
        Bound::Excluded(s) => lemma_order(key@, s@, key@),
        Bound::Unbounded => {},
    }
    match end {
        Bound::Included(e) => lemma_order(e@, key@, e@),
        Bound::Excluded(e) => lemma_order(e@, key@, e@),
        Bound::Unbounded => {},
    }
    match end {
        Bound::Included(e) => lemma_order(key@, e@, key@),
        Bound::Excluded(e) => lemma_order(key@, e@, key@),
        Bound::Unbounded => {},
    }
}

/// A directory is accepted exactly if each of its segments is text; else the first
/// one that is not is named.
pub proof fn law_validate_dir(dir: &[&[u8]], r: Result<(), KeyError>)
    requires
        call_ensures(validate_dir, (dir,), r),
    ensures
        match r {
            Ok(()) => forall|i: int| 0 <= i < dir@.len() ==> valid_utf8((#[trigger] dir@[i])@),
            Err(KeyError::DirSegmentNotUtf8 { segment }) => {
                &&& segment < dir@.len()
                &&& !valid_utf8(dir@[segment as int]@)
                &&& forall|i: int| 0 <= i < segment ==> valid_utf8((#[trigger] dir@[i])@)
            },
            Err(KeyError::RootNotRemovable) => false,
        },
{
    law_path(dir);
    assert forall|i: int| 0 <= i < dir@.len() implies path_of(dir@)[i] == (#[trigger] dir@[i])@ by {}
}

} // verus!
