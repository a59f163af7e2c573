//! Walking a directory with a cursor that seeks one row at a time.

use core::ops::Bound;

use vstd::prelude::*;

use crate::bytes::{
    bytes_lt, le, lemma_order, lemma_starts_with_concat, lemma_starts_with_split, lt, starts_with,
};
use crate::cursor::{
    advance, is_first, law_cursor, law_cursor_end, left_of_range, lemma_left_of_range,
    lemma_left_within,
};
use crate::durable::error::{RedbBackendError, RedbStorageError};
use crate::durable::table::is_first_row;
use crate::durable::view::RawCursorStep;
use crate::flatdir::error::FlatError;
use crate::flatdir::model::{lemma_packed_successor, lemma_walk_prefix};
use crate::flatengine::{
    anchored, content, dir_content, lemma_passed_is_empty, lemma_raw_range_exact,
    lemma_strip_begins, lemma_strip_scan, lookup, names_no_keys, raw_end, raw_start, DataBounds,
};
use crate::keyspace::{
    bound_as_slice, bound_of, crossed, in_range, law_crossed_is_empty, law_prefix_range_exact,
    next_prefix, owned_bound_of, successor,
};
use crate::rawkv::{all_rows, begins_scan, comes_before, in_key_order, is_scan, lists_key, Rows};
use crate::stream::{KvPair, KvStream};

verus! {

/// The rows of a range that are in the store.
spec fn range_keys(m: Rows, start: Bound<Seq<u8>>, end: Bound<Seq<u8>>) -> Set<Seq<u8>> {
    m.dom().filter(|k: Seq<u8>| in_range(k, start, end))
}

/// Whether the raw rows handed out so far, followed by the scan of what is left,
/// are the scan of the whole range.
spec fn walks(
    m: Rows,
    whole: (Bound<Seq<u8>>, Bound<Seq<u8>>),
    left: (Bound<Seq<u8>>, Bound<Seq<u8>>),
    reverse: bool,
    done: Seq<KvPair>,
) -> bool {
    forall|rest: Seq<KvPair>|
        #![trigger done + rest]
        is_scan(m, left.0, left.1, !reverse, rest) ==> is_scan(
            m,
            whole.0,
            whole.1,
            !reverse,
            done + rest,
        )
}

/// Whether the raw rows handed out so far are those of the whole range that do not
/// lie in what is left of it, and come before all that do.
spec fn passed_by(
    m: Rows,
    whole: (Bound<Seq<u8>>, Bound<Seq<u8>>),
    left: (Bound<Seq<u8>>, Bound<Seq<u8>>),
    reverse: bool,
    done: Seq<KvPair>,
) -> bool {
    &&& all_rows(m, done)
    &&& in_key_order(done, !reverse)
    &&& forall|i: int| 0 <= i < done.len() ==> in_range((#[trigger] done[i]).key@, whole.0, whole.1)
    &&& forall|k: Seq<u8>| #[trigger]
        m.dom().contains(k) && in_range(k, whole.0, whole.1) ==> lists_key(done, k) || in_range(
            k,
            left.0,
            left.1,
        )
    &&& forall|k: Seq<u8>, i: int|
        #![trigger m.dom().contains(k), done[i]]
        m.dom().contains(k) && in_range(k, left.0, left.1) && 0 <= i < done.len() ==> comes_before(
            done[i].key@,
            k,
            !reverse,
        )
}

/// A step passes by the first row of what was left.
proof fn lemma_passes_by(
    m: Rows,
    whole: (Bound<Seq<u8>>, Bound<Seq<u8>>),
    left: (Bound<Seq<u8>>, Bound<Seq<u8>>),
    reverse: bool,
    done: Seq<KvPair>,
    row: KvPair,
)
    requires
        passed_by(m, whole, left, reverse, done),
        is_first(m, left.0, left.1, reverse, row),
        in_range(row.key@, whole.0, whole.1),
    ensures
        passed_by(
            m,
            whole,
            left_of_range(left.0, left.1, reverse, row.key@),
            reverse,
            done.push(row),
        ),
{
    let next = left_of_range(left.0, left.1, reverse, row.key@);
    let list = done.push(row);
    assert forall|i: int, j: int|
        #![trigger list[i], list[j]]
        0 <= i < j < list.len() implies comes_before(list[i].key@, list[j].key@, !reverse) by {
        assert(m.dom().contains(row.key@));
        if j == done.len() {
            assert(list[i] == done[i]);
        } else {
            assert(list[i] == done[i] && list[j] == done[j]);
        }
    }
    assert forall|k: Seq<u8>| #[trigger]
        m.dom().contains(k) && in_range(k, whole.0, whole.1) implies lists_key(list, k) || in_range(
        k,
        next.0,
        next.1,
    ) by {
        lemma_left_of_range(m, left.0, left.1, reverse, row, k);
        if k == row.key@ {
            assert(list[done.len() as int].key@ == k);
        } else if lists_key(done, k) {
            let i = choose|i: int| 0 <= i < done.len() && (#[trigger] done[i]).key@ == k;
            assert(list[i].key@ == k);
        }
    }
    assert forall|k: Seq<u8>, i: int|
        #![trigger m.dom().contains(k), list[i]]
        m.dom().contains(k) && in_range(k, next.0, next.1) && 0 <= i < list.len() implies comes_before(
        list[i].key@,
        k,
        !reverse,
    ) by {
        lemma_left_of_range(m, left.0, left.1, reverse, row, k);
        if i < done.len() {
            assert(list[i] == done[i]);
        }
    }
}

/// Whether a raw range holds only keys behind its prefix.
pub open spec fn confined(b: DataBounds) -> bool {
    forall|k: Seq<u8>| #[trigger]
        in_range(k, owned_bound_of(b.start), owned_bound_of(b.end)) ==> starts_with(k, b.prefix@)
}

/// Whether the two bounds of a raw range hold it behind its prefix: the start is
/// not before the prefix, and the end not past the last key that begins with it.
pub open spec fn held(b: DataBounds) -> bool {
    &&& match owned_bound_of(b.start) {
        Bound::Included(s) | Bound::Excluded(s) => le(b.prefix@, s),
        Bound::Unbounded => b.prefix@.len() == 0,
    }
    &&& match (owned_bound_of(b.end), successor(b.prefix@)) {
        (_, None) => true,
        (Bound::Included(e), Some(n)) => lt(e, n),
        (Bound::Excluded(e), Some(n)) => le(e, n),
        (Bound::Unbounded, Some(_)) => false,
    }
}

/// Bounds that hold a range behind its prefix confine it.
pub proof fn lemma_held_confined(b: DataBounds)
    requires
        held(b),
    ensures
        confined(b),
{
    let p = b.prefix@;
    let s = owned_bound_of(b.start);
    let e = owned_bound_of(b.end);
    assert forall|k: Seq<u8>| #[trigger] in_range(k, s, e) implies starts_with(k, p) by {
        lemma_held_key(b, k);
    }
}

/// A key between bounds that hold a range behind its prefix begins with it.
proof fn lemma_held_key(b: DataBounds, k: Seq<u8>)
    requires
        held(b),
        in_range(k, owned_bound_of(b.start), owned_bound_of(b.end)),
    ensures
        starts_with(k, b.prefix@),
{
    let p = b.prefix@;
    if p.len() == 0 {
        assert(k.subrange(0, 0) =~= p);
    } else {
        match owned_bound_of(b.start) {
            Bound::Included(s) | Bound::Excluded(s) => {
                lemma_order(p, s, k);
            },
            Bound::Unbounded => {},
        }
        if let Some(n) = successor(p) {
            match owned_bound_of(b.end) {
                Bound::Included(e) | Bound::Excluded(e) => {
                    lemma_order(k, e, n);
                },
                Bound::Unbounded => {},
            }
        }
        law_prefix_range_exact(p, k);
    }
}

impl DataBounds {
    /// Whether the bounds hold the range behind its prefix, as those of a
    /// directory's data do: a cursor can walk it.
    pub fn is_held(&self) -> (r: bool)
        ensures
            r == held(*self),
            r ==> confined(*self),
    {
        let start_held = match &self.start {
            Bound::Included(s) => !bytes_lt(s.as_slice(), self.prefix.as_slice()),
            Bound::Excluded(s) => !bytes_lt(s.as_slice(), self.prefix.as_slice()),
            Bound::Unbounded => self.prefix.len() == 0,
        };
        let end_held = match next_prefix(self.prefix.as_slice()) {
            None => true,
            Some(n) => match &self.end {
                Bound::Included(e) => bytes_lt(e.as_slice(), n.as_slice()),
                Bound::Excluded(e) => !bytes_lt(n.as_slice(), e.as_slice()),
                Bound::Unbounded => false,
            },
        };
        proof {
            let p = self.prefix@;
            match owned_bound_of(self.start) {
                Bound::Included(s) | Bound::Excluded(s) => {
                    lemma_order(p, s, s);
                },
                Bound::Unbounded => {},
            }
            if let Some(n) = successor(p) {
                match owned_bound_of(self.end) {
                    Bound::Included(e) | Bound::Excluded(e) => {
                        lemma_order(e, n, n);
                    },
                    Bound::Unbounded => {},
                }
            }
            if held(*self) {
                lemma_held_confined(*self);
            }
        }
        start_held && end_held
    }
}

/// Whether a step of a cursor over a raw range hands out the range's first row,
/// under its key behind the prefix, and goes on with what is left.
pub open spec fn steps_to(
    m: Rows,
    left: DataBounds,
    reverse: bool,
    row: KvPair,
    pair: KvPair,
    next: DataBounds,
) -> bool {
    &&& is_first(m, owned_bound_of(left.start), owned_bound_of(left.end), reverse, row)
    &&& row.key@ == left.prefix@ + pair.key@
    &&& row.value@ == pair.value@
    &&& next.prefix@ == left.prefix@
    &&& (owned_bound_of(next.start), owned_bound_of(next.end)) == left_of_range(
        owned_bound_of(left.start),
        owned_bound_of(left.end),
        reverse,
        row.key@,
    )
}

/// Whether a step of a cursor over a raw range has this result; `None` where the
/// range has no rows.
pub open spec fn is_step(
    m: Rows,
    left: DataBounds,
    reverse: bool,
    r: Option<(KvPair, DataBounds)>,
) -> bool {
    match r {
        Some((pair, next)) => exists|row: KvPair| #[trigger]
            steps_to(m, left, reverse, row, pair, next),
        None => is_first_row(
            m,
            owned_bound_of(left.start),
            owned_bound_of(left.end),
            reverse,
            None,
        ),
    }
}

/// Whether an error hands on that of a seek for one row of a range.
pub open spec fn seek_failed<V: RawCursorStep<Error = RedbBackendError>>(
    view: V,
    start: Bound<Seq<u8>>,
    end: Bound<Seq<u8>>,
    reverse: bool,
    e: RedbStorageError,
) -> bool {
    e.0 matches FlatError::Engine(x) && exists|from: Bound<&[u8]>, to: Bound<&[u8]>|
        bound_of(from) == start && bound_of(to) == end && #[trigger] call_ensures(
            V::first_in_range,
            (&view, from, to, reverse),
            Err::<Option<KvPair>, RedbBackendError>(x),
        )
}

/// Whether an error hands on that of a seek in the course of a walk.
pub open spec fn walk_failed<V: RawCursorStep<Error = RedbBackendError>>(
    view: V,
    reverse: bool,
    e: RedbStorageError,
) -> bool {
    exists|start: Bound<Seq<u8>>, end: Bound<Seq<u8>>| #[trigger]
        seek_failed(view, start, end, reverse, e)
}

/// One step of a directory's cursor: seek the first (or last) raw row in the
/// remaining raw range, strip the directory's prefix from the raw key, and
/// resume just past (or before) that row.
pub(crate) fn cursor_step<V: RawCursorStep<Error = RedbBackendError>>(
    view: &V,
    left: DataBounds,
    reverse: bool,
) -> (r: Result<Option<(KvPair, DataBounds)>, RedbStorageError>)
    requires
        view.wf(),
        confined(left),
    ensures
        match r {
            Ok(step) => {
                &&& is_step(view.rows(), left, reverse, step)
                &&& step matches Some((_, next)) ==> confined(next)
                &&& step matches Some((_, next)) ==> held(left) ==> held(next)
            },
            Err(e) => {
                &&& !view.terms().readable
                &&& seek_failed(
                    *view,
                    owned_bound_of(left.start),
                    owned_bound_of(left.end),
                    reverse,
                    e,
                )
            },
        },
{
    let ghost before = left;
    let row = match view.first_in_range(
        bound_as_slice(&left.start),
        bound_as_slice(&left.end),
        reverse,
    ) {
        Ok(Some(row)) => row,
        Ok(None) => return Ok(None),
        Err(error) => return Err(RedbStorageError(FlatError::Engine(error))),
    };
    let ghost first = row;
    proof {
        assert(starts_with(row.key@, left.prefix@));
        lemma_starts_with_split(row.key@, left.prefix@);
    }
    let (pair, next) = advance(left, row, reverse);
    proof {
        assert(steps_to(view.rows(), before, reverse, first, pair, next));
        let s = owned_bound_of(before.start);
        let e = owned_bound_of(before.end);
        assert forall|k: Seq<u8>| #[trigger]
            in_range(k, owned_bound_of(next.start), owned_bound_of(next.end)) implies starts_with(
            k,
            next.prefix@,
        ) by {
            lemma_left_within(s, e, reverse, first.key@, k);
            assert(in_range(k, s, e));
        }
        if held(before) {
            lemma_held_step(before, reverse, first.key@, next);
        }
    }
    Ok(Some((pair, next)))
}

/// What a step leaves of a range that its bounds hold behind its prefix is held
/// there too.
proof fn lemma_held_step(left: DataBounds, reverse: bool, k: Seq<u8>, next: DataBounds)
    requires
        held(left),
        in_range(k, owned_bound_of(left.start), owned_bound_of(left.end)),
        next.prefix@ == left.prefix@,
        (owned_bound_of(next.start), owned_bound_of(next.end)) == left_of_range(
            owned_bound_of(left.start),
            owned_bound_of(left.end),
            reverse,
            k,
        ),
    ensures
        held(next),
{
    lemma_held_key(left, k);
    law_prefix_range_exact(left.prefix@, k);
}

/// Walks a directory's raw range with a cursor, one row at a time, and hands the
/// rows out under their keys within the directory. A failure on the way ends the
/// stream behind the rows read so far.
pub(crate) fn dir_cursor<V: RawCursorStep<Error = RedbBackendError>>(
    view: &V,
    bounds: DataBounds,
    reverse: bool,
    Ghost(start): Ghost<Bound<Seq<u8>>>,
    Ghost(end): Ghost<Bound<Seq<u8>>>,
) -> (r: KvStream<RedbStorageError>)
    requires
        view.wf(),
        successor(bounds.prefix@) is Some,
        confined(bounds),
        owned_bound_of(bounds.start) == raw_start(bounds.prefix@, start),
        owned_bound_of(bounds.end) == raw_end(bounds.prefix@, end),
    ensures
        match r.failure() {
            None => is_scan(
                content(view.rows(), bounds.prefix@),
                start,
                end,
                !reverse,
                r.items(),
            ),
            Some(e) => {
                &&& !view.terms().readable
                &&& walk_failed(*view, reverse, e)
                &&& begins_scan(
                    content(view.rows(), bounds.prefix@),
                    start,
                    end,
                    !reverse,
                    r.items(),
                )
            },
        },
{
    let ghost m = view.rows();
    let ghost p = bounds.prefix@;
    let ghost whole = (raw_start(p, start), raw_end(p, end));
    let mut left = bounds;
    let mut list: Vec<KvPair> = Vec::new();
    let ghost mut done: Seq<KvPair> = Seq::empty();
    proof {
        view.rows_finite();
        assert forall|rest: Seq<KvPair>|
            #![trigger done + rest]
            is_scan(m, whole.0, whole.1, !reverse, rest) implies is_scan(
            m,
            whole.0,
            whole.1,
            !reverse,
            done + rest,
        ) by {
            assert(done + rest =~= rest);
        }
        m.dom().lemma_len_filter(|k: Seq<u8>| in_range(k, whole.0, whole.1));
    }
    loop
        invariant
            view.wf(),
            m == view.rows(),
            m.dom().finite(),
            p == left.prefix@,
            p == bounds.prefix@,
            successor(p) is Some,
            whole == (raw_start(p, start), raw_end(p, end)),
            range_keys(m, owned_bound_of(left.start), owned_bound_of(left.end)).finite(),
            confined(left),
            forall|k: Seq<u8>|
                m.dom().contains(k) && #[trigger] in_range(
                    k,
                    owned_bound_of(left.start),
                    owned_bound_of(left.end),
                ) ==> in_range(k, whole.0, whole.1),
            walks(
                m,
                whole,
                (owned_bound_of(left.start), owned_bound_of(left.end)),
                reverse,
                done,
            ),
            passed_by(
                m,
                whole,
                (owned_bound_of(left.start), owned_bound_of(left.end)),
                reverse,
                done,
            ),
            list@.len() == done.len(),
            forall|i: int|
                0 <= i < list@.len() ==> done[i].key@ == p + (#[trigger] list@[i]).key@
                    && list@[i].value@ == done[i].value@,
        decreases range_keys(m, owned_bound_of(left.start), owned_bound_of(left.end)).len(),
    {
        let ghost s = owned_bound_of(left.start);
        let ghost e = owned_bound_of(left.end);
        let ghost before = left;
        match cursor_step(view, left, reverse) {
            Err(error) => {
                proof {
                    assert(begins_scan(m, whole.0, whole.1, !reverse, done));
                    lemma_strip_begins(m, p, start, end, !reverse, done, list@);
                }
                return KvStream::from_pairs_then(list, error);
            },
            Ok(None) => {
                proof {
                    law_cursor_end(m, s, e, reverse);
                    assert(is_scan(m, whole.0, whole.1, !reverse, done + Seq::<KvPair>::empty()));
                    assert(done + Seq::<KvPair>::empty() =~= done);
                    lemma_strip_scan(m, p, start, end, !reverse, done, list@);
                }
                return KvStream::from_pairs(list, false);
            },
            Ok(Some((pair, next))) => {
                let ghost first = choose|row: KvPair| #[trigger]
                    steps_to(m, before, reverse, row, pair, next);
                proof {
                    lemma_walk_step(m, whole, (s, e), reverse, done, first);
                    lemma_passes_by(m, whole, (s, e), reverse, done, first);
                }
                left = next;
                list.push(pair);
                proof {
                    done = done.push(first);
                    let (s2, e2) = left_of_range(s, e, reverse, first.key@);
                    assert(s2 == owned_bound_of(left.start) && e2 == owned_bound_of(left.end));
                    assert forall|k: Seq<u8>|
                        m.dom().contains(k) && #[trigger] in_range(k, s2, e2) implies in_range(
                        k,
                        whole.0,
                        whole.1,
                    ) by {
                        lemma_left_of_range(m, s, e, reverse, first, k);
                        assert(in_range(k, s, e));
                    }
                    lemma_range_shrinks(m, (s, e), reverse, first);
                }
            },
        }
    }
}

/// One step of a cursor.
proof fn lemma_walk_step(
    m: Rows,
    whole: (Bound<Seq<u8>>, Bound<Seq<u8>>),
    left: (Bound<Seq<u8>>, Bound<Seq<u8>>),
    reverse: bool,
    done: Seq<KvPair>,
    row: KvPair,
)
    requires
        is_first(m, left.0, left.1, reverse, row),
        walks(m, whole, left, reverse, done),
    ensures
        walks(m, whole, left_of_range(left.0, left.1, reverse, row.key@), reverse, done.push(row)),
{
    let next = left_of_range(left.0, left.1, reverse, row.key@);
    assert forall|rest: Seq<KvPair>|
        #![trigger done.push(row) + rest]
        is_scan(m, next.0, next.1, !reverse, rest) implies is_scan(
        m,
        whole.0,
        whole.1,
        !reverse,
        done.push(row) + rest,
    ) by {
        law_cursor(m, left.0, left.1, reverse, row, rest);
        assert(is_scan(m, whole.0, whole.1, !reverse, done + (seq![row] + rest)));
        assert(done + (seq![row] + rest) =~= done.push(row) + rest);
    }
}

/// A step leaves fewer rows.
proof fn lemma_range_shrinks(
    m: Rows,
    left: (Bound<Seq<u8>>, Bound<Seq<u8>>),
    reverse: bool,
    row: KvPair,
)
    requires
        m.dom().finite(),
        is_first(m, left.0, left.1, reverse, row),
    ensures
        ({
            let next = left_of_range(left.0, left.1, reverse, row.key@);
            &&& range_keys(m, next.0, next.1).finite()
            &&& range_keys(m, next.0, next.1).len() < range_keys(m, left.0, left.1).len()
        }),
{
    let next = left_of_range(left.0, left.1, reverse, row.key@);
    let a = range_keys(m, next.0, next.1);
    let b = range_keys(m, left.0, left.1);
    m.dom().lemma_len_filter(|k: Seq<u8>| in_range(k, left.0, left.1));
    m.dom().lemma_len_filter(|k: Seq<u8>| in_range(k, next.0, next.1));
    assert(a =~= b.remove(row.key@)) by {
        assert forall|k: Seq<u8>| a.contains(k) <==> b.remove(row.key@).contains(k) by {
            if m.dom().contains(k) {
                lemma_left_of_range(m, left.0, left.1, reverse, row, k);
            }
        }
    }
    assert(b.contains(row.key@));
}

/// A directory's raw range holds only keys behind the directory's prefix.
pub proof fn lemma_confined(b: DataBounds, start: Bound<Seq<u8>>, end: Bound<Seq<u8>>)
    requires
        successor(b.prefix@) is Some,
        owned_bound_of(b.start) == raw_start(b.prefix@, start),
        owned_bound_of(b.end) == raw_end(b.prefix@, end),
    ensures
        held(b),
        confined(b),
{
    let p = b.prefix@;
    let n = successor(p)->0;
    assert(p.subrange(0, p.len() as int) =~= p);
    law_prefix_range_exact(p, p);
    match start {
        Bound::Included(k) | Bound::Excluded(k) => {
            lemma_starts_with_concat(p, k);
            law_prefix_range_exact(p, p + k);
        },
        Bound::Unbounded => {},
    }
    match end {
        Bound::Included(k) | Bound::Excluded(k) => {
            lemma_starts_with_concat(p, k);
            law_prefix_range_exact(p, p + k);
            lemma_starts_with_concat(p, k.push(0));
            assert((p + k).push(0) =~= p + k.push(0));
            law_prefix_range_exact(p, p + k.push(0));
        },
        Bound::Unbounded => {},
    }
    lemma_held_confined(b);
}

/// Where a directory does not exist, or the bounds name no keys, the scan is
/// empty.
pub proof fn lemma_no_scan(
    m: Rows,
    dir: Seq<Seq<u8>>,
    start: Bound<Seq<u8>>,
    end: Bound<Seq<u8>>,
    forward: bool,
)
    requires
        match lookup(m, dir) {
            Ok(Some(p)) => names_no_keys(p, start, end),
            Ok(None) => true,
            Err(_) => false,
        },
    ensures
        is_scan(dir_content(m, dir), start, end, forward, Seq::empty()),
{
    if let Ok(Some(p)) = lookup(m, dir) {
        let inner = content(m, p);
        lemma_walk_prefix(m, anchored(dir));
        lemma_packed_successor(p);
        assert forall|k: Seq<u8>| #[trigger] inner.dom().contains(k) implies !in_range(
            k,
            start,
            end,
        ) by {
            lemma_starts_with_concat(p, k);
            lemma_raw_range_exact(p, start, end, p + k);
            if crossed(start, end) {
                law_crossed_is_empty(start, end, k);
            } else {
                lemma_passed_is_empty(raw_start(p, start), raw_end(p, end), p + k);
            }
        }
    }
}

} // verus!
