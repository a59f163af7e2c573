//! Walking a directory's raw range one row at a time.
//!
//! A cursor fetches the first row of what is left of a range, hands it out with
//! the directory's prefix taken off, and goes on behind it (or before it, when it
//! walks backwards).

use core::ops::Bound;

use vstd::prelude::*;

use crate::bytes::{copy_tail, le, lemma_lt_irreflexive, lemma_order, lt, starts_with, tail};
use crate::flatengine::DataBounds;
use crate::keyspace::{in_range, owned_bound_of};
use crate::rawkv::{is_scan, lists_key, Rows};
use crate::stream::KvPair;

verus! {

/// What is left of a range once the walk has passed `k`: the keys behind it, or
/// before it when the walk goes backwards.
pub open spec fn left_of_range(
    start: Bound<Seq<u8>>,
    end: Bound<Seq<u8>>,
    reverse: bool,
    k: Seq<u8>,
) -> (Bound<Seq<u8>>, Bound<Seq<u8>>) {
    if reverse {
        (start, Bound::Excluded(k))
    } else {
        (Bound::Excluded(k), end)
    }
}

/// Whether a row is the first one of a range in the direction of the walk.
pub open spec fn is_first(
    m: Rows,
    start: Bound<Seq<u8>>,
    end: Bound<Seq<u8>>,
    reverse: bool,
    row: KvPair,
) -> bool {
    &&& m.dom().contains(row.key@)
    &&& m[row.key@] == row.value@
    &&& in_range(row.key@, start, end)
    &&& forall|k: Seq<u8>| #[trigger]
        m.dom().contains(k) && in_range(k, start, end) ==> if reverse {
            le(k, row.key@)
        } else {
            le(row.key@, k)
        }
}

/// A cursor over a directory's raw range hands out the row it was given, under
/// its key within the directory, and goes on with what is left of the range.
pub fn advance(bounds: DataBounds, row: KvPair, reverse: bool) -> (r: (KvPair, DataBounds))
    requires
        starts_with(row.key@, bounds.prefix@),
    ensures
        r.0.key@ == tail(row.key@, bounds.prefix@.len()),
        r.0.value@ == row.value@,
        r.1.prefix@ == bounds.prefix@,
        (owned_bound_of(r.1.start), owned_bound_of(r.1.end)) == left_of_range(
            owned_bound_of(bounds.start),
            owned_bound_of(bounds.end),
            reverse,
            row.key@,
        ),
{
    let key = copy_tail(row.key.as_slice(), bounds.prefix.len());
    let next = if reverse {
        DataBounds { prefix: bounds.prefix, start: bounds.start, end: Bound::Excluded(row.key) }
    } else {
        DataBounds { prefix: bounds.prefix, start: Bound::Excluded(row.key), end: bounds.end }
    };
    (KvPair { key, value: row.value }, next)
}

/// What is left of a range lies within it.
pub proof fn lemma_left_within(
    start: Bound<Seq<u8>>,
    end: Bound<Seq<u8>>,
    reverse: bool,
    f: Seq<u8>,
    k: Seq<u8>,
)
    requires
        in_range(f, start, end),
        ({
            let (s, e) = left_of_range(start, end, reverse, f);
            in_range(k, s, e)
        }),
    ensures
        in_range(k, start, end),
{
    if reverse {
        match end {
            Bound::Included(e) => lemma_order(k, f, e),
            Bound::Excluded(e) => lemma_order(k, f, e),
            Bound::Unbounded => {},
        }
    } else {
        match start {
            Bound::Included(s) => lemma_order(s, f, k),
            Bound::Excluded(s) => lemma_order(s, f, k),
            Bound::Unbounded => {},
        }
    }
}

/// The keys left of a range once the walk has passed its first row: all of the
/// range but that row.
pub proof fn lemma_left_of_range(
    m: Rows,
    start: Bound<Seq<u8>>,
    end: Bound<Seq<u8>>,
    reverse: bool,
    row: KvPair,
    k: Seq<u8>,
)
    requires
        is_first(m, start, end, reverse, row),
        m.dom().contains(k),
    ensures
        ({
            let (s, e) = left_of_range(start, end, reverse, row.key@);
            in_range(k, s, e) <==> in_range(k, start, end) && k != row.key@
        }),
{
    let f = row.key@;
    lemma_order(k, f, k);
    lemma_order(f, k, f);
    lemma_lt_irreflexive(f);
    if reverse {
        if lt(k, f) {
            match end {
                Bound::Included(e) => lemma_order(k, f, e),
                Bound::Excluded(e) => lemma_order(k, f, e),
                Bound::Unbounded => {},
            }
        }
    } else {
        if lt(f, k) {
            match start {
                Bound::Included(s) => lemma_order(s, f, k),
                Bound::Excluded(s) => lemma_order(s, f, k),
                Bound::Unbounded => {},
            }
        }
    }
}

/// The scan of a range is its first row followed by the scan of what is left:
/// stepping a cursor to the end lists the range.
pub proof fn law_cursor(
    m: Rows,
    start: Bound<Seq<u8>>,
    end: Bound<Seq<u8>>,
    reverse: bool,
    row: KvPair,
    rest: Seq<KvPair>,
)
    requires
        is_first(m, start, end, reverse, row),
        ({
            let (s, e) = left_of_range(start, end, reverse, row.key@);
            is_scan(m, s, e, !reverse, rest)
        }),
    ensures
        is_scan(m, start, end, !reverse, seq![row] + rest),
{
    let list = seq![row] + rest;
    let (s, e) = left_of_range(start, end, reverse, row.key@);
    assert forall|i: int| 0 <= i < list.len() implies m.dom().contains((#[trigger] list[i]).key@)
        && m[list[i].key@] == list[i].value@ && in_range(list[i].key@, start, end) by {
        if i > 0 {
            assert(list[i] == rest[i - 1]);
            lemma_left_of_range(m, start, end, reverse, row, rest[i - 1].key@);
        }
    }
    assert forall|i: int, j: int|
        #![trigger list[i], list[j]]
        0 <= i < j < list.len() implies if !reverse {
        lt(list[i].key@, list[j].key@)
    } else {
        lt(list[j].key@, list[i].key@)
    } by {
        assert(list[j] == rest[j - 1]);
        if i > 0 {
            assert(list[i] == rest[i - 1]);
        } else {
            assert(in_range(rest[j - 1].key@, s, e));
        }
    }
    assert forall|k: Seq<u8>| #[trigger]
        m.dom().contains(k) && in_range(k, start, end) implies lists_key(list, k) by {
        lemma_left_of_range(m, start, end, reverse, row, k);
        if k == row.key@ {
            assert(list[0].key@ == k);
        } else {
            assert(lists_key(rest, k));
            let i = choose|i: int| 0 <= i < rest.len() && (#[trigger] rest[i]).key@ == k;
            assert(list[i + 1].key@ == k);
        }
    }
}

/// A range without rows has the empty scan.
pub proof fn law_cursor_end(m: Rows, start: Bound<Seq<u8>>, end: Bound<Seq<u8>>, reverse: bool)
    requires
        forall|k: Seq<u8>| #[trigger] m.dom().contains(k) ==> !in_range(k, start, end),
    ensures
        is_scan(m, start, end, !reverse, Seq::empty()),
{
}

} // verus!
