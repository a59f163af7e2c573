//! The windows of the prefix allocator: which one an allocation draws from, what it
//! counts and what it leaves of the windows before.

use vstd::prelude::*;

use crate::bytes::{lemma_starts_with_concat, lt, tail};
use crate::flatdir::error::FlatError;
use crate::flatdir::hca::{
    allocate, allocations, in_window, is_last_counter, last_window_start, moved_on, open_from,
    open_window, retouched, window, window_size, CandidateSource,
};
use crate::flatdir::layout::{
    count_bytes, counter_row, inside, le_i64, le_i64_bytes, le_value, lemma_le_i64_round_trip,
    read_count, recent_row, COUNTERS_BASE,
};
use crate::flatdir::tuple::{int_element, int_of_element, is_i64, lemma_int_element_shape};
use crate::rawkv::{row_at, RawKv, Rows};

verus! {

/// The signed number that eight bytes stand for, the least significant first.
pub open spec fn number_in(v: Seq<u8>) -> int {
    let n = v[0] + 0x100 * v[1] + 0x1_0000 * v[2] + 0x100_0000 * v[3] + 0x1_0000_0000 * v[4]
        + 0x100_0000_0000 * v[5] + 0x1_0000_0000_0000 * v[6] + 0x100_0000_0000_0000 * v[7];
    if n > i64::MAX {
        n - 0x1_0000_0000_0000_0000
    } else {
        n
    }
}

proof fn lemma_number(v: Seq<u8>)
    requires
        v.len() == 8,
    ensures
        le_i64(v) == number_in(v),
{
    let a = tail(v, 1);
    let b = tail(a, 1);
    let c = tail(b, 1);
    let d = tail(c, 1);
    let e = tail(d, 1);
    let f = tail(e, 1);
    let g = tail(f, 1);
    assert(le_value(tail(g, 1)) == 0);
    assert(le_value(g) == v[7]);
    assert(le_value(f) == v[6] + 256 * le_value(g));
    assert(le_value(e) == v[5] + 256 * le_value(f));
    assert(le_value(d) == v[4] + 256 * le_value(e));
    assert(le_value(c) == v[3] + 256 * le_value(d));
    assert(le_value(b) == v[2] + 256 * le_value(c));
    assert(le_value(a) == v[1] + 256 * le_value(b));
    assert(le_value(v) == v[0] + 256 * le_value(a));
}

/// A count is written in eight bytes and read back from them.
pub(crate) proof fn law_count(n: i64, written: Vec<u8>, value: &[u8], r: i64)
    requires
        call_ensures(count_bytes, (n,), written),
        value@.len() == 8,
        call_ensures(read_count, (value,), r),
    ensures
        written@.len() == 8,
        number_in(written@) == n,
        r == number_in(value@),
{
    lemma_written(n as int);
    lemma_number(value@);
}

/// The bytes of a count stand for it.
proof fn lemma_written(n: int)
    requires
        is_i64(n),
    ensures
        le_i64_bytes(n).len() == 8,
        number_in(le_i64_bytes(n)) == n,
{
    lemma_le_i64_round_trip(n);
    lemma_number(le_i64_bytes(n));
}

/// The last window begins where the greatest counter key says; without a counter key the
/// first window begins at zero. A counter key is one right below the counters' base.
pub proof fn law_last_window<R: RawKv>(raw: R, last: i64, s: int)
    requires
        raw.wf(),
        call_ensures(
            last_window_start::<R>,
            (&raw,),
            Ok::<i64, FlatError<R::Error>>(last),
        ),
        is_i64(s),
    ensures
        raw.rows().dom().contains(counter_row(s)) ==> exists|t: Seq<u8>|
            raw.rows().dom().contains(#[trigger] (COUNTERS_BASE@ + t)) && int_of_element(t) == Some(
                last as int,
            ) && !lt(t, int_element(s)),
        (forall|t: Seq<u8>| !raw.rows().dom().contains(#[trigger] (COUNTERS_BASE@ + t))) ==> last
            == 0,
{
    let m = raw.rows();
    if exists|k: Seq<u8>| is_last_counter(m, k) {
        let k = choose|k: Seq<u8>| is_last_counter(m, k);
        let t = tail(k, COUNTERS_BASE@.len());
        crate::bytes::lemma_starts_with_split(k, COUNTERS_BASE@);
        assert(k == COUNTERS_BASE@ + t);
        if m.dom().contains(counter_row(s)) {
            lemma_counter_inside(s);
            crate::keyspace::lemma_range_common_prefix(COUNTERS_BASE@, t, int_element(s));
            crate::bytes::lemma_order(k, counter_row(s), k);
        }
    } else if m.dom().contains(counter_row(s)) {
        lemma_counter_inside(s);
    }
}

/// A counter row lies right below the counters' base.
proof fn lemma_counter_inside(s: int)
    requires
        is_i64(s),
    ensures
        inside(COUNTERS_BASE@, counter_row(s)),
{
    lemma_starts_with_concat(COUNTERS_BASE@, int_element(s));
    lemma_int_element_shape(s);
    assert(counter_row(s)[COUNTERS_BASE@.len() as int] == int_element(s)[0]);
}

/// Whether the counter row of a window, if there is one, states this count.
pub open spec fn states_count(m: Rows, start: int, count: int) -> bool {
    match row_at(m, counter_row(start)) {
        Some(v) => v.len() == 8 && number_in(v) == count,
        None => count == 0,
    }
}

proof fn lemma_states_count(m: Rows, start: int, count: int)
    requires
        states_count(m, start, count),
        is_i64(2 * count),
    ensures
        allocations(m, start) == Some(count),
{
    if let Some(v) = row_at(m, counter_row(start)) {
        lemma_number(v);
    }
}

/// As long as less than half of the last window was handed out, an allocation draws from
/// it and counts one more. The value is claimed; claims that were met on the way stay,
/// and nothing else changes.
pub proof fn law_allocate_in_place<R: RawKv, S: CandidateSource>(
    before: R,
    after: R,
    source: S,
    last: i64,
    size: i64,
    count: int,
    c: i64,
    k: Seq<u8>,
)
    requires
        before.wf(),
        exists|x: &mut R, y: &mut S|
            *x == before && *final(x) == after && *y == source && #[trigger] call_ensures(
                allocate::<R, S>,
                (x, y),
                Ok::<i64, FlatError<R::Error>>(c),
            ),
        call_ensures(
            last_window_start::<R>,
            (&before,),
            Ok::<i64, FlatError<R::Error>>(last),
        ),
        call_ensures(window_size, (last,), size),
        states_count(before.rows(), last as int, count),
        is_i64(2 * count),
        2 * count < size,
    ensures
        last <= c < last + size,
        after.rows().dom().contains(counter_row(last as int)),
        states_count(after.rows(), last as int, count + 1),
        k != counter_row(last as int) && k != recent_row(c as int) ==> row_at(after.rows(), k)
            == row_at(before.rows(), k) || (before.rows().dom().contains(k) && row_at(
            after.rows(),
            k,
        ) == Some(Seq::<u8>::empty()) && exists|d: int|
            last <= d < last + size && k == #[trigger] recent_row(d)),
{
    let m = before.rows();
    let start = last as int;
    lemma_states_count(m, start, count);
    crate::flatdir::health::law_allocation_claims(m, after.rows(), c as int);
    let (opened, s) = open_window(m)->0;
    assert(s == start);
    lemma_written(count + 1);
    let mid = choose|mid: Rows| #[trigger]
        retouched(opened, mid, start) && after.rows() == mid.insert(
            recent_row(c as int),
            Seq::empty(),
        );
    assert(mid.dom().contains(k) <==> opened.dom().contains(k));
    if k != counter_row(start) && k != recent_row(c as int) && mid.dom().contains(k) && mid[k]
        != opened[k] {
        let d = choose|d: int| in_window(start, d) && k == #[trigger] recent_row(d);
        assert(last <= d < last + size);
    }
}

/// Once half of the last window was handed out, an allocation moves on to a later window:
/// the counter of the old one and its claims are gone.
pub proof fn law_allocate_moves_on<R: RawKv, S: CandidateSource>(
    before: R,
    after: R,
    source: S,
    last: i64,
    size: i64,
    count: int,
    c: i64,
    d: int,
)
    requires
        before.wf(),
        exists|x: &mut R, y: &mut S|
            *x == before && *final(x) == after && *y == source && #[trigger] call_ensures(
                allocate::<R, S>,
                (x, y),
                Ok::<i64, FlatError<R::Error>>(c),
            ),
        call_ensures(
            last_window_start::<R>,
            (&before,),
            Ok::<i64, FlatError<R::Error>>(last),
        ),
        call_ensures(window_size, (last,), size),
        states_count(before.rows(), last as int, count),
        is_i64(2 * count),
        2 * count >= size,
        is_i64(d),
        d < last + size,
    ensures
        last + size <= c,
        !after.rows().dom().contains(counter_row(d)),
        !after.rows().dom().contains(recent_row(d)),
        !before.rows().dom().contains(counter_row(last + size)) ==> c < last + size + window(
            last + size,
        ) && states_count(after.rows(), last + size, 1),
{
    let m = before.rows();
    let start = last as int;
    let next = start + window(start);
    lemma_states_count(m, start, count);
    crate::flatdir::health::law_allocation_claims(m, after.rows(), c as int);
    let (opened, s) = open_window(m)->0;
    assert(open_from(m, start) == open_from(moved_on(m, next), next));
    crate::flatdir::hca::lemma_open_from_range(moved_on(m, next), next);
    crate::flatdir::health::lemma_moved_on(m, next, d);
    lemma_gone(moved_on(m, next), next, d);
    let mid = choose|mid: Rows| #[trigger]
        retouched(opened, mid, s) && after.rows() == mid.insert(recent_row(c as int), Seq::empty());
    assert(mid.dom().contains(counter_row(d)) <==> opened.dom().contains(counter_row(d)));
    assert(mid.dom().contains(recent_row(d)) <==> opened.dom().contains(recent_row(d)));
    crate::flatdir::health::lemma_hca_key_injective(d, c as int);
    if !m.dom().contains(counter_row(next)) {
        crate::flatdir::health::lemma_moved_on(m, next, next);
        assert(allocations(moved_on(m, next), next) == Some(0int));
        assert(s == next);
        lemma_written(1);
    }
}

/// What is gone below a window stays gone while a window is searched from there.
proof fn lemma_gone(m: Rows, start: int, d: int)
    requires
        open_from(m, start) is Some,
        is_i64(d),
        d < start,
        !m.dom().contains(counter_row(d)),
        !m.dom().contains(recent_row(d)),
    ensures
        !(open_from(m, start)->0).0.dom().contains(counter_row(d)),
        !(open_from(m, start)->0).0.dom().contains(recent_row(d)),
    decreases i64::MAX - start,
{
    let count = allocations(m, start)->0;
    if 2 * count < window(start) {
        crate::flatdir::health::lemma_hca_key_injective(d, start);
        crate::flatdir::health::lemma_hca_key_injective(start, d);
    } else {
        let next = start + window(start);
        crate::flatdir::health::lemma_moved_on(m, next, d);
        lemma_gone(moved_on(m, next), next, d);
    }
}

/// An allocation succeeds where the last window states a count below half of its size and
/// has a candidate that nobody claimed; where every candidate is claimed it is corrupt.
pub proof fn law_allocate_serves<R: RawKv, S: CandidateSource>(
    before: R,
    source: S,
    last: i64,
    size: i64,
    count: int,
    r: Result<i64, FlatError<R::Error>>,
)
    requires
        before.wf(),
        before.terms().readable,
        before.terms().writable,
        exists|x: &mut R, y: &mut S|
            *x == before && *y == source && #[trigger] call_ensures(allocate::<R, S>, (x, y), r),
        call_ensures(
            last_window_start::<R>,
            (&before,),
            Ok::<i64, FlatError<R::Error>>(last),
        ),
        call_ensures(window_size, (last,), size),
        states_count(before.rows(), last as int, count),
        is_i64(2 * count),
        2 * count < size,
        last + size <= i64::MAX,
    ensures
        r is Ok <==> exists|d: int|
            last <= d < last + size && !before.rows().dom().contains(#[trigger] recent_row(d)),
        r is Err ==> r->Err_0 is Corrupt,
{
    let m = before.rows();
    let start = last as int;
    lemma_states_count(m, start, count);
    let (opened, s) = open_window(m)->0;
    assert(s == start);
    assert forall|d: int| start <= d < start + size implies opened.dom().contains(
        #[trigger] recent_row(d),
    ) == m.dom().contains(recent_row(d)) by {
        crate::flatdir::health::lemma_hca_key_injective(start, d);
    }
    if r is Ok {
        let c = r->Ok_0 as int;
        assert(in_window(start, c));
        assert(!m.dom().contains(recent_row(c)));
    } else {
        assert forall|d: int| last <= d < last + size implies m.dom().contains(
            #[trigger] recent_row(d),
        ) by {
            assert(in_window(start, d));
        }
    }
}

/// A last window whose count cannot be read, or that would end beyond the range of an
/// `i64`, is corrupt.
pub proof fn law_allocate_corrupt<R: RawKv, S: CandidateSource>(
    before: R,
    after: R,
    source: S,
    last: i64,
    size: i64,
    value: Seq<u8>,
    r: Result<i64, FlatError<R::Error>>,
)
    requires
        before.wf(),
        before.terms().readable,
        before.terms().writable,
        exists|x: &mut R, y: &mut S|
            *x == before && *final(x) == after && *y == source && #[trigger] call_ensures(
                allocate::<R, S>,
                (x, y),
                r,
            ),
        call_ensures(
            last_window_start::<R>,
            (&before,),
            Ok::<i64, FlatError<R::Error>>(last),
        ),
        call_ensures(window_size, (last,), size),
        last + size > i64::MAX || (row_at(before.rows(), counter_row(last as int)) == Some(value)
            && value.len() != 8),
    ensures
        r matches Err(FlatError::Corrupt),
        after == before,
{
}

} // verus!
