//! The High Contention Allocator.
//!
//! Allocation is windowed: a counter row says how many candidates the current
//! window has handed out, a window that is half full is abandoned for the next
//! one, the abandoned window's counter and recent rows are cleared, and a
//! randomly drawn candidate is claimed by writing its recent row.
//!
//! A view has exactly one writer, so a claim is the check of the recent row
//! plus the row write, and the counter increment is a read-modify-write that
//! follows the window decision.

use core::ops::Bound;

use rand::rngs::ThreadRng;
use rand::RngExt;
use vstd::prelude::*;

use crate::bytes::{
    copy_tail, le, lemma_lt_asymmetric, lemma_starts_with_concat, lemma_starts_with_nested, lt,
    parts_at, starts_with, tail,
};
use crate::flatdir::error::FlatError;
use crate::flatdir::layout::{
    count_bytes, counter_key, counter_row, inside, inside_range, le_i64, le_i64_bytes,
    lemma_layout_constants, read_count, recent_key, recent_row, COUNTERS_BASE, HCA_SUBSPACE,
    RECENT_BASE,
};
use crate::flatdir::touch::touches_hca;
use crate::flatdir::tuple::{int_element, int_of_element, is_i64, unpack_i64_full};
use crate::keyspace::{bound_as_slice, in_range};
use crate::rawkv::{call_fails, lists_key, read_fails, row_at, without_range, RawKv, Rows};

verus! {

/// The random generator of the running thread.
#[verifier::external_type_specification]
#[verifier::external_body]
pub struct ExThreadRng(ThreadRng);

/// A source of random candidates.
pub trait CandidateSource {
    /// A number of the source's choosing in `lo..hi`.
    fn pick(&mut self, lo: i64, hi: i64) -> (c: i64)
        requires
            lo < hi,
        ensures
            lo <= c < hi,
    ;
}

/// `rand::RngExt::random_range` of the thread's generator over `lo..hi`: the
/// result lies in the range, which must not be empty.
#[verifier::external_body]
fn random_range(rng: &mut ThreadRng, lo: i64, hi: i64) -> (c: i64)
    requires
        lo < hi,
    ensures
        lo <= c < hi,
{
    rng.random_range(lo..hi)
}

/// `rand::rng`: the generator of the running thread.
#[verifier::external_body]
pub(crate) fn thread_candidates() -> ThreadRng {
    rand::rng()
}

impl CandidateSource for ThreadRng {
    fn pick(&mut self, lo: i64, hi: i64) -> (c: i64) {
        random_range(self, lo, hi)
    }
}

/// How many random candidates an allocation tries before it takes the first
/// free one of the window.
pub const MAX_DRAWS: u32 = 65536;

/// The size of the window that begins at `start`.
pub open spec fn window(start: int) -> int {
    if start < 255 {
        64
    } else if start < 65535 {
        1024
    } else {
        8192
    }
}

/// Whether `k` is the last counter row.
pub open spec fn is_last_counter(m: Rows, k: Seq<u8>) -> bool {
    &&& m.dom().contains(k)
    &&& inside(COUNTERS_BASE@, k)
    &&& forall|j: Seq<u8>| #[trigger] m.dom().contains(j) && inside(COUNTERS_BASE@, j) ==> le(j, k)
}

/// The window start that the last counter row names: zero where there is no
/// counter row, and `None` where the row's key is malformed.
pub open spec fn latest_start(m: Rows) -> Option<int> {
    if exists|k: Seq<u8>| is_last_counter(m, k) {
        int_of_element(tail(choose|k: Seq<u8>| is_last_counter(m, k), COUNTERS_BASE@.len()))
    } else {
        Some(0)
    }
}

/// The number of allocations that the counter row of a window states; `None`
/// where the row is malformed or states a count beyond half the range of an
/// `i64`.
pub open spec fn allocations(m: Rows, start: int) -> Option<int> {
    match row_at(m, counter_row(start)) {
        None => Some(0),
        Some(v) => if v.len() == 8 && is_i64(2 * le_i64(v)) {
            Some(le_i64(v))
        } else {
            None
        },
    }
}

/// The rows after moving on to the window at `start`: the counter and recent
/// rows below it are gone.
pub open spec fn moved_on(m: Rows, start: int) -> Rows {
    without_range(
        without_range(
            m,
            Bound::Included(COUNTERS_BASE@),
            Bound::Excluded(counter_row(start)),
        ),
        Bound::Included(RECENT_BASE@),
        Bound::Excluded(recent_row(start)),
    )
}

/// The window that an allocation draws from and the rows once its counter has
/// been incremented, beginning the search at `start`. `None` where a counter
/// row is malformed or the windows run out of the range of an `i64`.
pub open spec fn open_from(m: Rows, start: int) -> Option<(Rows, int)>
    decreases i64::MAX - start,
{
    if !is_i64(start) || !is_i64(start + window(start)) {
        None
    } else {
        match allocations(m, start) {
            None => None,
            Some(count) => if 2 * count < window(start) {
                Some((m.insert(counter_row(start), le_i64_bytes(count + 1)), start))
            } else {
                open_from(moved_on(m, start + window(start)), start + window(start))
            },
        }
    }
}

/// The window that an allocation on these rows draws from, and the rows once
/// its counter has been incremented.
pub open spec fn open_window(m: Rows) -> Option<(Rows, int)> {
    match latest_start(m) {
        Some(start) => open_from(m, start),
        None => None,
    }
}

/// Whether the candidate lies in the window.
pub open spec fn in_window(start: int, c: int) -> bool {
    start <= c < start + window(start)
}

/// Whether `k` is the recent row of a candidate of the window.
pub open spec fn is_recent_of(start: int, k: Seq<u8>) -> bool {
    exists|c: int| in_window(start, c) && k == #[trigger] recent_row(c)
}

/// Whether every candidate of the window has been claimed.
pub open spec fn window_full(m: Rows, start: int) -> bool {
    forall|c: int| in_window(start, c) ==> m.dom().contains(#[trigger] recent_row(c))
}

/// `m1` is `m0` but for recent rows of the window whose value was emptied.
pub open spec fn retouched(m0: Rows, m1: Rows, start: int) -> bool {
    &&& m1.dom() == m0.dom()
    &&& forall|k: Seq<u8>| #[trigger]
        m1.dom().contains(k) ==> m1[k] == m0[k] || (is_recent_of(start, k) && m1[k] == Seq::<
            u8,
        >::empty())
}

/// Whether `c` is claimed in the window at `start` by going from `m` to `m1`: it is a
/// candidate that was not claimed, and it is now; recent rows that were drawn and
/// found claimed are left empty; nothing else changed.
pub open spec fn claims(m: Rows, m1: Rows, start: int, c: int) -> bool {
    &&& in_window(start, c)
    &&& !m.dom().contains(recent_row(c))
    &&& exists|mid: Rows| #[trigger]
        retouched(m, mid, start) && m1 == mid.insert(recent_row(c), Seq::empty())
}

/// A claim takes no row away.
proof fn lemma_claims_grow(m: Rows, m1: Rows, start: int, c: int)
    requires
        claims(m, m1, start, c),
    ensures
        m.dom().subset_of(m1.dom()),
{
}

/// Whether `c` is allocated by going from `m` to `m1`: the open window is entered,
/// and `c` is claimed in it.
pub open spec fn is_allocation(m: Rows, m1: Rows, c: int) -> bool {
    match open_window(m) {
        Some((opened, start)) => claims(opened, m1, start, c),
        None => false,
    }
}

/// Whether an allocation on these rows is refused: the counters are corrupt or
/// exhausted, or the open window has no free candidate left.
pub open spec fn allocation_refused(m: Rows) -> bool {
    match open_window(m) {
        Some((opened, start)) => window_full(opened, start),
        None => true,
    }
}

/// Whether the counter rows are malformed or exhausted where the search for a
/// window begins.
pub open spec fn counters_malformed(m: Rows) -> bool {
    match latest_start(m) {
        None => true,
        Some(start) => !is_i64(start + window(start)) || allocations(m, start) is None,
    }
}

/// The rows at which a search for an open window ends that finds none: those of the
/// windows it has moved on from are gone.
pub open spec fn stuck_from(m: Rows, start: int) -> Rows
    decreases i64::MAX - start,
{
    if !is_i64(start) || !is_i64(start + window(start)) {
        m
    } else {
        match allocations(m, start) {
            None => m,
            Some(count) => if 2 * count < window(start) {
                m
            } else {
                stuck_from(moved_on(m, start + window(start)), start + window(start))
            },
        }
    }
}

/// What a refused allocation leaves: a full window opened, with claimed recent rows
/// emptied, or, where the search ran into malformed or exhausted counters, those as
/// they are.
pub open spec fn left_by_refusal(m: Rows, m1: Rows) -> bool {
    match open_window(m) {
        Some((opened, start)) => retouched(opened, m1, start),
        None => m1 == match latest_start(m) {
            Some(start) => stuck_from(m, start),
            None => m,
        },
    }
}

/// The window size for a window start.
pub fn window_size(start: i64) -> (r: i64)
    ensures
        r == window(start as int),
{
    if start < 255 {
        64
    } else if start < 65535 {
        1024
    } else {
        8192
    }
}

/// Read the start of the latest window from the counters subspace.
///
/// The subspace holds at most one live counter row (abandoned rows are cleared
/// on advance). The scan is ascending; the last row is the largest window
/// start.
pub fn last_window_start<R: RawKv>(raw: &R) -> (r: Result<i64, FlatError<R::Error>>)
    requires
        raw.wf(),
    ensures
        match r {
            Ok(start) => {
                &&& latest_start(raw.rows()) == Some(start as int)
                &&& (exists|k: Seq<u8>| is_last_counter(raw.rows(), k)) || forall|k: Seq<u8>|
                    #[trigger] raw.rows().dom().contains(k) ==> !inside(COUNTERS_BASE@, k)
            },
            Err(FlatError::Corrupt) => latest_start(raw.rows()) is None,
            Err(FlatError::Engine(e)) => !raw.terms().readable && read_fails(*raw, e),
            Err(_) => false,
        },
{
    let (start, end) = inside_range(&COUNTERS_BASE);
    let rows = match raw.scan(bound_as_slice(&start), bound_as_slice(&end), true) {
        Ok(rows) => rows,
        Err(e) => return Err(FlatError::Engine(e)),
    };
    let ghost m = raw.rows();
    if rows.len() == 0 {
        proof {
            assert forall|k: Seq<u8>| !is_last_counter(m, k) by {
                if is_last_counter(m, k) {
                    assert(lists_key(rows@, k));
                }
            }
            assert forall|k: Seq<u8>| #[trigger] m.dom().contains(k) implies !inside(
                COUNTERS_BASE@,
                k,
            ) by {
                if inside(COUNTERS_BASE@, k) {
                    assert(lists_key(rows@, k));
                }
            }
        }
        return Ok(0);
    }
    let last = &rows[rows.len() - 1];
    proof {
        let k = last.key@;
        assert(inside(COUNTERS_BASE@, k));
        assert forall|j: Seq<u8>| #[trigger]
            m.dom().contains(j) && inside(COUNTERS_BASE@, j) implies le(j, k) by {
            assert(lists_key(rows@, j));
            let i = choose|i: int| 0 <= i < rows@.len() && (#[trigger] rows@[i]).key@ == j;
            if i < rows@.len() - 1 {
                assert(lt(rows@[i].key@, rows@[rows@.len() - 1].key@));
            }
        }
        assert(is_last_counter(m, k));
        lemma_last_counter_unique(m, k, choose|k: Seq<u8>| is_last_counter(m, k));
    }
    match unpack_i64_full(copy_tail(last.key.as_slice(), COUNTERS_BASE.len()).as_slice()) {
        Some(v) => Ok(v),
        None => Err(FlatError::Corrupt),
    }
}

/// There is at most one last counter row.
proof fn lemma_last_counter_unique(m: Rows, a: Seq<u8>, b: Seq<u8>)
    requires
        is_last_counter(m, a),
        is_last_counter(m, b),
    ensures
        a == b,
{
    if a != b {
        lemma_lt_asymmetric(a, b);
    }
}

/// Opens the window that an allocation draws from: moves on from windows that
/// are half full and increments the counter of the first one that is not.
fn open<R: RawKv>(raw: &mut R) -> (r: Result<i64, FlatError<R::Error>>)
    requires
        old(raw).wf(),
    ensures
        final(raw).wf(),
        final(raw).terms() == old(raw).terms(),
        !(r matches Err(FlatError::Engine(_))) ==> same_outside_hca(
            old(raw).rows(),
            final(raw).rows(),
        ),
        !(r matches Err(FlatError::Engine(_))) ==> touches_hca(
            old(raw).rows(),
            final(raw).rows(),
            old(raw).touched(),
            final(raw).touched(),
        ),
        match r {
            Ok(start) => open_window(old(raw).rows()) == Some((final(raw).rows(), start as int)),
            Err(FlatError::Corrupt) => {
                &&& open_window(old(raw).rows()) is None
                &&& left_by_refusal(old(raw).rows(), final(raw).rows())
                &&& counters_malformed(old(raw).rows()) ==> *final(raw) == *old(raw)
            },
            Err(FlatError::Engine(e)) => (!old(raw).terms().readable || !old(
                raw,
            ).terms().writable) && call_fails::<R>(old(raw).terms(), e),
            Err(_) => false,
        },
{
    let mut start = match last_window_start(raw) {
        Ok(start) => start,
        Err(e) => return Err(e),
    };
    loop
        invariant
            raw.wf(),
            raw.terms() == old(raw).terms(),
            latest_start(old(raw).rows()) is Some,
            open_window(old(raw).rows()) == open_from(raw.rows(), start as int),
            stuck_from(old(raw).rows(), latest_start(old(raw).rows())->0) == stuck_from(
                raw.rows(),
                start as int,
            ),
            same_outside_hca(old(raw).rows(), raw.rows()),
            touches_hca(old(raw).rows(), old(raw).rows(), old(raw).touched(), raw.touched()),
            raw.rows().dom().subset_of(old(raw).rows().dom()),
            counters_malformed(old(raw).rows()) ==> *raw == *old(raw) && latest_start(
                old(raw).rows(),
            ) == Some(start as int),
        decreases i64::MAX - start,
    {
        let size = window_size(start);
        if start > i64::MAX - size {
            return Err(FlatError::Corrupt);
        }
        let ghost before = raw.rows();
        let key = counter_key(start);
        let count: i64 = match raw.get(key.as_slice()) {
            Ok(Some(v)) => {
                if v.len() != 8 {
                    return Err(FlatError::Corrupt);
                }
                read_count(v.as_slice())
            },
            Ok(None) => 0,
            Err(e) => return Err(FlatError::Engine(e)),
        };
        if count > i64::MAX / 2 || count < i64::MIN / 2 {
            return Err(FlatError::Corrupt);
        }
        if count * 2 < size {
            proof {
                lemma_hca_rows(start as int);
                lemma_insert_outside(
                    old(raw).rows(),
                    before,
                    key@,
                    le_i64_bytes(count + 1),
                );
            }
            return match raw.insert(key.as_slice(), count_bytes(count + 1).as_slice()) {
                Ok(()) => Ok(start),
                Err(e) => Err(FlatError::Engine(e)),
            };
        }
        let ghost touched = raw.touched();
        start = start + size;
        let counter = counter_key(start);
        match raw.clear_range(Bound::Included(&COUNTERS_BASE), Bound::Excluded(counter.as_slice())) {
            Ok(()) => {},
            Err(e) => return Err(FlatError::Engine(e)),
        }
        let recent = recent_key(start);
        match raw.clear_range(Bound::Included(&RECENT_BASE), Bound::Excluded(recent.as_slice())) {
            Ok(()) => {},
            Err(e) => return Err(FlatError::Engine(e)),
        }
        proof {
            lemma_moved_on_frame(before, start as int);
            assert(raw.rows() == moved_on(before, start as int));
            assert forall|k: Seq<u8>| #[trigger]
                raw.touched().contains(k) && !old(raw).touched().contains(k) implies starts_with(
                k,
                HCA_SUBSPACE@,
            ) && old(raw).rows().dom().contains(k) by {
                if !touched.contains(k) {
                    lemma_cleared_in_hca(start as int, k);
                }
            }
            lemma_same_outside_transitive(old(raw).rows(), before, raw.rows());
        }
    }
}

/// Claims a candidate by writing its recent row: `true` when nobody had
/// claimed it before.
pub fn claim_candidate<R: RawKv>(raw: &mut R, candidate: i64) -> (r: Result<
    bool,
    FlatError<R::Error>,
>)
    requires
        old(raw).wf(),
    ensures
        final(raw).wf(),
        final(raw).terms() == old(raw).terms(),
        match r {
            Ok(free) => {
                &&& free == !old(raw).rows().dom().contains(recent_row(candidate as int))
                &&& final(raw).rows() == old(raw).rows().insert(
                    recent_row(candidate as int),
                    Seq::empty(),
                )
                &&& final(raw).touched() == old(raw).touched().insert(recent_row(candidate as int))
            },
            Err(FlatError::Engine(e)) => (!old(raw).terms().readable || !old(
                raw,
            ).terms().writable) && call_fails::<R>(old(raw).terms(), e),
            Err(_) => false,
        },
{
    let key = recent_key(candidate);
    let claimed = match raw.get(key.as_slice()) {
        Ok(row) => row,
        Err(e) => return Err(FlatError::Engine(e)),
    };
    let empty: Vec<u8> = Vec::new();
    match raw.insert(key.as_slice(), empty.as_slice()) {
        Ok(()) => {},
        Err(e) => return Err(FlatError::Engine(e)),
    }
    Ok(claimed.is_none())
}

/// Claims a free candidate of the window at `start`: a random one, or the
/// first one where [`MAX_DRAWS`] random candidates in a row were claimed
/// already.
fn claim<R: RawKv, S: CandidateSource>(raw: &mut R, source: &mut S, start: i64) -> (r: Result<
    i64,
    FlatError<R::Error>,
>)
    requires
        old(raw).wf(),
        is_i64(start + window(start as int)),
    ensures
        final(raw).wf(),
        final(raw).terms() == old(raw).terms(),
        !(r matches Err(FlatError::Engine(_))) ==> same_outside_hca(
            old(raw).rows(),
            final(raw).rows(),
        ),
        !(r matches Err(FlatError::Engine(_))) ==> touches_hca(
            old(raw).rows(),
            final(raw).rows(),
            old(raw).touched(),
            final(raw).touched(),
        ),
        match r {
            Ok(c) => claims(old(raw).rows(), final(raw).rows(), start as int, c as int),
            Err(FlatError::Corrupt) => {
                &&& window_full(old(raw).rows(), start as int)
                &&& retouched(old(raw).rows(), final(raw).rows(), start as int)
            },
            Err(FlatError::Engine(e)) => (!old(raw).terms().readable || !old(
                raw,
            ).terms().writable) && call_fails::<R>(old(raw).terms(), e),
            Err(_) => false,
        },
{
    let end: i64 = start + window_size(start);
    let mut draws: u32 = 0;
    while draws < MAX_DRAWS
        invariant
            raw.wf(),
            raw.terms() == old(raw).terms(),
            end == start + window(start as int),
            start < end,
            retouched(old(raw).rows(), raw.rows(), start as int),
            same_outside_hca(old(raw).rows(), raw.rows()),
            touches_hca(old(raw).rows(), raw.rows(), old(raw).touched(), raw.touched()),
        decreases MAX_DRAWS - draws,
    {
        let ghost mid = raw.rows();
        let candidate = source.pick(start, end);
        proof {
            lemma_hca_rows(candidate as int);
            lemma_insert_outside(old(raw).rows(), mid, recent_row(candidate as int), Seq::empty());
        }
        match claim_candidate(raw, candidate) {
            Ok(free) => {
                if free {
                    return Ok(candidate);
                }
                proof {
                    assert(in_window(start as int, candidate as int));
                    let k = recent_row(candidate as int);
                    assert(is_recent_of(start as int, k));
                    assert(raw.rows().dom() =~= mid.dom());
                }
            },
            Err(e) => return Err(e),
        }
        draws = draws + 1;
    }
    let mut candidate: i64 = start;
    while candidate < end
        invariant
            raw.wf(),
            raw.terms() == old(raw).terms(),
            end == start + window(start as int),
            start <= candidate <= end,
            retouched(old(raw).rows(), raw.rows(), start as int),
            same_outside_hca(old(raw).rows(), raw.rows()),
            touches_hca(old(raw).rows(), raw.rows(), old(raw).touched(), raw.touched()),
            forall|c: int|
                start <= c < candidate ==> old(raw).rows().dom().contains(#[trigger] recent_row(c)),
        decreases end - candidate,
    {
        let ghost mid = raw.rows();
        proof {
            lemma_hca_rows(candidate as int);
            lemma_insert_outside(old(raw).rows(), mid, recent_row(candidate as int), Seq::empty());
        }
        match claim_candidate(raw, candidate) {
            Ok(free) => {
                if free {
                    return Ok(candidate);
                }
                proof {
                    assert(in_window(start as int, candidate as int));
                    let k = recent_row(candidate as int);
                    assert(is_recent_of(start as int, k));
                    assert(raw.rows().dom() =~= mid.dom());
                }
            },
            Err(e) => return Err(e),
        }
        candidate = candidate + 1;
    }
    Err(FlatError::Corrupt)
}

/// Allocate a prefix value.
///
/// Returns the allocated `i64` (pack it with
/// [`pack_i64`](crate::flatdir::tuple::pack_i64) for the raw form): a candidate
/// of the open window that nobody had claimed. Which one is left to `source`;
/// a window without a free candidate, or a corrupt counter, is
/// [`FlatError::Corrupt`].
pub fn allocate<R: RawKv, S: CandidateSource>(raw: &mut R, source: &mut S) -> (r: Result<
    i64,
    FlatError<R::Error>,
>)
    requires
        old(raw).wf(),
    ensures
        final(raw).wf(),
        final(raw).terms() == old(raw).terms(),
        !(r matches Err(FlatError::Engine(_))) ==> same_outside_hca(
            old(raw).rows(),
            final(raw).rows(),
        ),
        !(r matches Err(FlatError::Engine(_))) ==> touches_hca(
            old(raw).rows(),
            final(raw).rows(),
            old(raw).touched(),
            final(raw).touched(),
        ),
        match r {
            Ok(c) => is_allocation(old(raw).rows(), final(raw).rows(), c as int),
            Err(FlatError::Corrupt) => {
                &&& allocation_refused(old(raw).rows())
                &&& left_by_refusal(old(raw).rows(), final(raw).rows())
                &&& counters_malformed(old(raw).rows()) ==> *final(raw) == *old(raw)
                    && *final(source) == *old(source)
            },
            Err(FlatError::Engine(e)) => (!old(raw).terms().readable || !old(
                raw,
            ).terms().writable) && call_fails::<R>(old(raw).terms(), e),
            Err(_) => false,
        },
{
    match open(raw) {
        Ok(start) => {
            proof {
                lemma_open_from_range(old(raw).rows(), latest_start(old(raw).rows())->0);
            }
            let ghost opened = raw.rows();
            let r = claim(raw, source, start);
            proof {
                if !(r matches Err(FlatError::Engine(_))) {
                    lemma_same_outside_transitive(old(raw).rows(), opened, raw.rows());
                }
                if r is Ok {
                    lemma_claims_grow(opened, raw.rows(), start as int, r->Ok_0 as int);
                }
            }
            r
        },
        Err(e) => Err(e),
    }
}

/// An open window lies within the range of an `i64`.
pub proof fn lemma_open_from_range(m: Rows, start: int)
    ensures
        match open_from(m, start) {
            Some((opened, s)) => start <= s && is_i64(s) && is_i64(s + window(s)),
            None => true,
        },
    decreases i64::MAX - start,
{
    if is_i64(start) && is_i64(start + window(start)) {
        if let Some(count) = allocations(m, start) {
            if 2 * count >= window(start) {
                lemma_open_from_range(moved_on(m, start + window(start)), start + window(start));
            }
        }
    }
}

/// What lies between `base` and a key that begins with it begins with it too.
pub proof fn lemma_between_begins(base: Seq<u8>, t: Seq<u8>, k: Seq<u8>)
    requires
        le(base, k),
        lt(k, base + t),
    ensures
        starts_with(k, base),
{
    if k == base {
        assert(k.subrange(0, base.len() as int) =~= base);
    } else {
        let i = choose|i: int| parts_at(base, k, i);
        if i < base.len() {
            assert(parts_at(base + t, k, i));
            lemma_lt_asymmetric(k, base + t);
        } else {
            assert(k.subrange(0, base.len() as int) =~= base);
        }
    }
}

/// Whether two stores agree on every key outside of the allocator's subspace.
pub open spec fn same_outside_hca(m0: Rows, m1: Rows) -> bool {
    forall|k: Seq<u8>|
        !starts_with(k, HCA_SUBSPACE@) ==> #[trigger] row_at(m1, k) == row_at(m0, k)
}

/// Writing a row of the allocator's subspace keeps agreement outside of it.
proof fn lemma_insert_outside(m0: Rows, m: Rows, key: Seq<u8>, value: Seq<u8>)
    requires
        same_outside_hca(m0, m),
        starts_with(key, HCA_SUBSPACE@),
    ensures
        same_outside_hca(m0, m.insert(key, value)),
{
    assert forall|k: Seq<u8>| !starts_with(k, HCA_SUBSPACE@) implies #[trigger] row_at(
        m.insert(key, value),
        k,
    ) == row_at(m0, k) by {
        assert(row_at(m, k) == row_at(m0, k));
    }
}

/// Agreement outside of the allocator's subspace is transitive.
proof fn lemma_same_outside_transitive(a: Rows, b: Rows, c: Rows)
    requires
        same_outside_hca(a, b),
        same_outside_hca(b, c),
    ensures
        same_outside_hca(a, c),
{
    assert forall|k: Seq<u8>| !starts_with(k, HCA_SUBSPACE@) implies #[trigger] row_at(c, k)
        == row_at(a, k) by {
        assert(row_at(b, k) == row_at(a, k));
    }
}

/// The counter and recent rows lie in the allocator's subspace.
pub proof fn lemma_hca_rows(c: int)
    ensures
        starts_with(counter_row(c), COUNTERS_BASE@),
        starts_with(counter_row(c), HCA_SUBSPACE@),
        starts_with(recent_row(c), RECENT_BASE@),
        starts_with(recent_row(c), HCA_SUBSPACE@),
{
    lemma_layout_constants();
    lemma_starts_with_concat(COUNTERS_BASE@, int_element(c));
    lemma_starts_with_concat(RECENT_BASE@, int_element(c));
    lemma_starts_with_nested(counter_row(c), HCA_SUBSPACE@, int_element(0));
    lemma_starts_with_nested(recent_row(c), HCA_SUBSPACE@, int_element(1));
}

/// The rows that moving on clears lie in the allocator's subspace.
proof fn lemma_cleared_in_hca(start: int, k: Seq<u8>)
    requires
        in_range(k, Bound::Included(COUNTERS_BASE@), Bound::Excluded(counter_row(start)))
            || in_range(k, Bound::Included(RECENT_BASE@), Bound::Excluded(recent_row(start))),
    ensures
        starts_with(k, HCA_SUBSPACE@),
{
    lemma_layout_constants();
    if in_range(k, Bound::Included(COUNTERS_BASE@), Bound::Excluded(counter_row(start))) {
        lemma_between_begins(COUNTERS_BASE@, int_element(start), k);
        lemma_starts_with_nested(k, HCA_SUBSPACE@, int_element(0));
    } else {
        lemma_between_begins(RECENT_BASE@, int_element(start), k);
        lemma_starts_with_nested(k, HCA_SUBSPACE@, int_element(1));
    }
}

/// Moving on touches nothing outside of the allocator's subspace.
pub proof fn lemma_moved_on_frame(m: Rows, start: int)
    ensures
        same_outside_hca(m, moved_on(m, start)),
{
    assert forall|k: Seq<u8>| !starts_with(k, HCA_SUBSPACE@) implies #[trigger] row_at(
        moved_on(m, start),
        k,
    ) == row_at(m, k) by {
        if in_range(k, Bound::Included(COUNTERS_BASE@), Bound::Excluded(counter_row(start)))
            || in_range(k, Bound::Included(RECENT_BASE@), Bound::Excluded(recent_row(start))) {
            lemma_cleared_in_hca(start, k);
        }
    }
}

/// Opening a window touches nothing outside of the allocator's subspace.
proof fn lemma_open_from_frame(m: Rows, start: int)
    requires
        open_from(m, start) is Some,
    ensures
        same_outside_hca(m, (open_from(m, start)->0).0),
    decreases i64::MAX - start,
{
    let count = allocations(m, start)->0;
    if 2 * count < window(start) {
        lemma_hca_rows(start);
    } else {
        let next = start + window(start);
        let mid = moved_on(m, next);
        lemma_moved_on_frame(m, next);
        lemma_open_from_frame(mid, next);
        let end = (open_from(mid, next)->0).0;
        assert forall|k: Seq<u8>| !starts_with(k, HCA_SUBSPACE@) implies #[trigger] row_at(end, k)
            == row_at(m, k) by {
            assert(row_at(mid, k) == row_at(m, k));
        }
    }
}

/// An allocation touches nothing outside of the allocator's subspace.
pub proof fn lemma_allocation_frame(m: Rows, m1: Rows, c: int)
    requires
        is_allocation(m, m1, c),
    ensures
        same_outside_hca(m, m1),
{
    let (opened, start) = open_window(m)->0;
    lemma_open_from_frame(m, latest_start(m)->0);
    let mid = choose|mid: Rows| #[trigger]
        retouched(opened, mid, start) && m1 == mid.insert(recent_row(c), Seq::empty());
    assert forall|k: Seq<u8>| !starts_with(k, HCA_SUBSPACE@) implies #[trigger] row_at(m1, k)
        == row_at(m, k) by {
        lemma_hca_rows(c);
        assert(row_at(opened, k) == row_at(m, k));
        if is_recent_of(start, k) {
            let d = choose|d: int| in_window(start, d) && k == #[trigger] recent_row(d);
            lemma_hca_rows(d);
        }
        assert(mid.dom().contains(k) <==> opened.dom().contains(k));
    }
}

/// An allocated value is within the range of an `i64`.
pub proof fn lemma_allocation_range(m: Rows, m1: Rows, c: int)
    requires
        is_allocation(m, m1, c),
    ensures
        is_i64(c),
{
    lemma_open_from_range(m, latest_start(m)->0);
}

} // verus!
