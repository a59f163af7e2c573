//! Raw views: what is written through one is read through it, whatever is beneath, and
//! what a view hands over.

use core::ops::Bound;

use redb::{ReadTransaction, WriteTransaction};
use vstd::prelude::*;

use crate::btreemap::{BTreeMapStore, BufReadView, BufWriteView, WriteSet};
use crate::bytemap::ByteMap;
use crate::bytes::{lt, starts_with};
use crate::call_laws::cluster::lies_between;
use crate::call_laws::encoding::{lemma_stands_behind, stands_behind};
use crate::call_laws::maps::{law_scanned, law_without_range};
use crate::cursor::{lemma_left_of_range, lemma_left_within};
use crate::durable::scan::{confined, steps_to};
use crate::durable::view::{RedbReadView, RedbWriteView};
use crate::durable::{RedbBackendError, RedbReader, RedbStorageError, RedbTransaction};
use crate::flatdir::error::FlatError;
use crate::flatdir::layout::{child_row, inside, node, VERSION_KEY};
use crate::flatdir::ops::{check_version_read, find, remove_dir};
use crate::flatdir::model::{is_child_key, with_version};
use crate::flatdir::prune::{edge, in_subtree, owns, prunable, reaches, reaches_in};
use crate::flatdir::tuple::{int_element, int_of_element};
use crate::flatengine::{DataBounds, FlatEngine};
use crate::indexeddb::error::{backend_failure, corrupt, IndexedDbError};
use crate::indexeddb::snapshot::{Snapshot, WriteBuffer};
use crate::key::path_of;
use crate::keyspace::{in_range, owned_bound_of};
use crate::overlay::law_overlay_reads;
use crate::rawkv::{RawKv, Rows};
use crate::stream::KvPair;

verus! {

// ---------------------------------------------------------------------------
// Every view
// ---------------------------------------------------------------------------

/// Whether two raw reads give the same.
pub open spec fn same_row(a: Option<Vec<u8>>, b: Option<Vec<u8>>) -> bool {
    match (a, b) {
        (Some(x), Some(y)) => x@ == y@,
        (None, None) => true,
        _ => false,
    }
}

/// What is put into a view is read from it, what is deleted is not, and no other row
/// changes.
pub proof fn law_view_writes<R: RawKv>(
    before: R,
    put: R,
    gone: R,
    key: &[u8],
    value: &[u8],
    other: &[u8],
    was: Option<Vec<u8>>,
    is: Option<Vec<u8>>,
    left: Option<Vec<u8>>,
)
    requires
        before.wf(),
        exists|v: &mut R|
            *v == before && *final(v) == put && #[trigger] call_ensures(
                R::insert,
                (v, key, value),
                Ok::<(), R::Error>(()),
            ),
        exists|v: &mut R|
            *v == before && *final(v) == gone && #[trigger] call_ensures(
                R::delete,
                (v, key),
                Ok::<(), R::Error>(()),
            ),
        call_ensures(R::get, (&before, other), Ok::<Option<Vec<u8>>, R::Error>(was)),
        call_ensures(R::get, (&put, other), Ok::<Option<Vec<u8>>, R::Error>(is)),
        call_ensures(R::get, (&gone, other), Ok::<Option<Vec<u8>>, R::Error>(left)),
    ensures
        if other@ == key@ {
            (is matches Some(v) && v@ == value@) && left is None
        } else {
            same_row(was, is) && same_row(was, left)
        },
{
}

/// A clear takes exactly the rows between its bounds, and a scan lists exactly the rows
/// between its bounds that a read finds, in the direction asked for.
pub proof fn law_view_ranges<R: RawKv>(
    before: R,
    cleared: R,
    start: Bound<&[u8]>,
    end: Bound<&[u8]>,
    forward: bool,
    list: Vec<KvPair>,
    key: &[u8],
    was: Option<Vec<u8>>,
    left: Option<Vec<u8>>,
)
    requires
        before.wf(),
        exists|v: &mut R|
            *v == before && *final(v) == cleared && #[trigger] call_ensures(
                R::clear_range,
                (v, start, end),
                Ok::<(), R::Error>(()),
            ),
        call_ensures(
            R::scan,
            (&before, start, end, forward),
            Ok::<Vec<KvPair>, R::Error>(list),
        ),
        call_ensures(R::get, (&before, key), Ok::<Option<Vec<u8>>, R::Error>(was)),
        call_ensures(R::get, (&cleared, key), Ok::<Option<Vec<u8>>, R::Error>(left)),
    ensures
        if lies_between(key@, start, end) {
            left is None
        } else {
            same_row(was, left)
        },
        was is Some && lies_between(key@, start, end) <==> exists|i: int|
            0 <= i < list@.len() && (#[trigger] list@[i]).key@ == key@,
        forall|i: int|
            0 <= i < list@.len() && (#[trigger] list@[i]).key@ == key@ ==> (was matches Some(v)
                && v@ == list@[i].value@),
        forall|i: int, j: int|
            #![trigger list@[i], list@[j]]
            0 <= i < j < list@.len() ==> if forward {
                lt(list@[i].key@, list@[j].key@)
            } else {
                lt(list@[j].key@, list@[i].key@)
            },
{
    law_scanned(before.rows(), start, end, forward, list@);
    law_without_range(before.rows(), start, end, key@);
}

// ---------------------------------------------------------------------------
// In memory
// ---------------------------------------------------------------------------

/// A buffered view reads what is pending first, and what is beneath where nothing is; it
/// never fails, and a read view takes no write.
pub proof fn law_buffered_views<'b>(
    base: &'b ByteMap<Vec<u8>>,
    buffer: &'b ByteMap<Option<Vec<u8>>>,
    reader: BufReadView<'b>,
    writer: BufWriteView<'b>,
    key: &[u8],
    held: Option<&Vec<u8>>,
    pending: Option<&Option<Vec<u8>>>,
    a: Result<Option<Vec<u8>>, crate::btreemap::BufViewError>,
    b: Result<Option<Vec<u8>>, crate::btreemap::BufViewError>,
)
    requires
        base.wf(),
        buffer.wf(),
        call_ensures(BufReadView::new, (base, buffer), reader),
        call_ensures(BufWriteView::new, (base, *buffer), writer),
        call_ensures(ByteMap::<Vec<u8>>::get, (base, key), held),
        call_ensures(ByteMap::<Option<Vec<u8>>>::get, (buffer, key), pending),
        call_ensures(BufReadView::get, (&reader, key), a),
        call_ensures(BufWriteView::get, (&writer, key), b),
    ensures
        a is Ok,
        b is Ok,
        same_row(a->Ok_0, b->Ok_0),
        match pending {
            Some(Some(v)) => a->Ok_0 matches Some(w) && w@ == v@,
            Some(None) => a->Ok_0 is None,
            None => match held {
                Some(v) => a->Ok_0 matches Some(w) && w@ == v@,
                None => a->Ok_0 is None,
            },
        },
{
    law_overlay_reads(crate::overlay::rows_of(base@), buffer@, key@);
}

/// A default write set has no write, and a default store no row.
pub proof fn law_defaults(
    set: WriteSet,
    n: usize,
    store: BTreeMapStore,
    key: &[u8],
    got: Option<Vec<u8>>,
    empty: bool,
)
    requires
        call_ensures(<WriteSet as Default>::default, (), set),
        call_ensures(WriteSet::len, (&set,), n),
        call_ensures(<BTreeMapStore as Default>::default, (), store),
        call_ensures(BTreeMapStore::get_committed, (&store, key), got),
        call_ensures(BTreeMapStore::is_empty, (&store,), empty),
    ensures
        n == 0,
        got is None,
        empty,
{
    assert(Map::<Seq<u8>, Option<Vec<u8>>>::empty().len() == 0);
    assert(Map::<Seq<u8>, Seq<u8>>::empty().len() == 0);
}

/// A write set holds what it was made of, and applied to a store it puts and takes exactly
/// that.
pub proof fn law_write_set(
    changes: ByteMap<Option<Vec<u8>>>,
    set: WriteSet,
    m: usize,
    n: usize,
    before: BTreeMapStore,
    after: BTreeMapStore,
    key: &[u8],
    change: Option<&Option<Vec<u8>>>,
    was: Option<Vec<u8>>,
    is: Option<Vec<u8>>,
)
    requires
        changes.wf(),
        before.wf(),
        call_ensures(WriteSet::new, (changes,), set),
        call_ensures(WriteSet::len, (&set,), n),
        call_ensures(ByteMap::<Option<Vec<u8>>>::len, (&changes,), m),
        exists|s: &mut BTreeMapStore|
            *s == before && *final(s) == after && #[trigger] call_ensures(
                BTreeMapStore::apply,
                (s, set),
                (),
            ),
        call_ensures(ByteMap::<Option<Vec<u8>>>::get, (&changes, key), change),
        call_ensures(BTreeMapStore::get_committed, (&before, key), was),
        call_ensures(BTreeMapStore::get_committed, (&after, key), is),
    ensures
        n == m,
        match change {
            Some(Some(v)) => is matches Some(w) && w@ == v@,
            Some(None) => is is None,
            None => same_row(was, is),
        },
{
    law_overlay_reads(before.rows(), changes@, key@);
}

/// The buffer of a view that a value was put through holds the value, and where the value
/// was deleted a delete.
pub proof fn law_into_buffer<'b>(
    view: BufWriteView<'b>,
    buffer: ByteMap<Option<Vec<u8>>>,
    key: &[u8],
    got: Option<Vec<u8>>,
    entry: Option<&Option<Vec<u8>>>,
)
    requires
        view.wf(),
        call_ensures(BufWriteView::into_buffer, (view,), buffer),
        call_ensures(
            BufWriteView::get,
            (&view, key),
            Ok::<Option<Vec<u8>>, crate::btreemap::BufViewError>(got),
        ),
        call_ensures(ByteMap::<Option<Vec<u8>>>::get, (&buffer, key), entry),
    ensures
        buffer.wf(),
        match entry {
            Some(Some(v)) => got matches Some(w) && w@ == v@,
            Some(None) => got is None,
            None => match got {
                Some(w) => view.terms().beneath.dom().contains(key@)
                    && view.terms().beneath[key@] == w@,
                None => !view.terms().beneath.dom().contains(key@),
            },
        },
{
    law_overlay_reads(view.terms().beneath, buffer@, key@);
}

// ---------------------------------------------------------------------------
// In the browser
// ---------------------------------------------------------------------------

/// A new snapshot reads the rows that it was made of, and has nothing pending; its buffer
/// is handed over as a list with as many operations as it has keys.
pub proof fn law_new_snapshot(
    rows: ByteMap<Vec<u8>>,
    snapshot: Snapshot,
    key: &[u8],
    put: Option<&Vec<u8>>,
    got: Result<Option<Vec<u8>>, IndexedDbError>,
    shown: &WriteBuffer,
    none: bool,
    given: WriteBuffer,
    n: usize,
    ops: Vec<(Vec<u8>, Option<Vec<u8>>)>,
    fresh: WriteBuffer,
    fresh_none: bool,
)
    requires
        rows.wf(),
        call_ensures(Snapshot::new, (rows,), snapshot),
        call_ensures(ByteMap::<Vec<u8>>::get, (&rows, key), put),
        call_ensures(Snapshot::get, (&snapshot, key), got),
        call_ensures(Snapshot::buffer, (&snapshot,), shown),
        call_ensures(WriteBuffer::is_empty, (shown,), none),
        call_ensures(Snapshot::into_buffer, (snapshot,), given),
        call_ensures(WriteBuffer::len, (&given,), n),
        call_ensures(WriteBuffer::drain_ops, (given,), ops),
        call_ensures(WriteBuffer::new, (), fresh),
        call_ensures(WriteBuffer::is_empty, (&fresh,), fresh_none),
    ensures
        match put {
            Some(v) => got matches Ok(Some(w)) && w@ == v@,
            None => got matches Ok(None),
        },
        none,
        n == 0,
        ops@.len() == 0,
        fresh_none,
{
    snapshot.lemma_terms();
    assert(Map::<Seq<u8>, Option<Vec<u8>>>::empty().len() == 0);
}

/// A drained buffer lists each pending key once, in order, with what the snapshot reads
/// under it.
pub proof fn law_drained(
    snapshot: Snapshot,
    given: WriteBuffer,
    n: usize,
    none: bool,
    ops: Vec<(Vec<u8>, Option<Vec<u8>>)>,
    i: int,
    j: int,
    key: &[u8],
    got: Result<Option<Vec<u8>>, IndexedDbError>,
)
    requires
        snapshot.wf(),
        call_ensures(Snapshot::into_buffer, (snapshot,), given),
        call_ensures(WriteBuffer::len, (&given,), n),
        call_ensures(WriteBuffer::is_empty, (&given,), none),
        call_ensures(WriteBuffer::drain_ops, (given,), ops),
        0 <= i < ops@.len(),
        key@ == ops@[i].0@,
        call_ensures(Snapshot::get, (&snapshot, key), got),
    ensures
        ops@.len() == n,
        !none,
        i < j < ops@.len() ==> lt(ops@[i].0@, ops@[j].0@),
        got matches Ok(v) && same_row(v, ops@[i].1),
{
    snapshot.lemma_terms();
    snapshot.law_delta();
    law_overlay_reads(snapshot.captured(), snapshot.pending(), key@);
    assert(snapshot.pending().dom().contains(ops@[i].0@));
}

/// The constructors of browser errors keep the texts that they are given.
pub proof fn law_error_texts(detail: &str, name: &str, a: IndexedDbError, b: IndexedDbError)
    requires
        call_ensures(corrupt, (detail,), a),
        call_ensures(backend_failure, (name, detail), b),
    ensures
        a matches IndexedDbError::Corrupt { detail: d } && d@ == detail@,
        b matches IndexedDbError::Backend { name: n, message } && n@ == name@ && message@
            == detail@,
{
}

// ---------------------------------------------------------------------------
// Durable
// ---------------------------------------------------------------------------

/// A view and a handle of one transaction read the same rows, and the transaction that is
/// given back is read the same again.
pub proof fn law_durable_views(
    tx: WriteTransaction,
    view: RedbWriteView,
    handle: RedbTransaction,
    back: WriteTransaction,
    handed: WriteTransaction,
    other: RedbTransaction,
    again: RedbWriteView,
    key: &[u8],
    a: Option<Vec<u8>>,
    b: Option<Vec<u8>>,
)
    requires
        call_ensures(RedbWriteView::new, (tx,), view),
        call_ensures(RedbTransaction::new, (tx,), handle),
        call_ensures(RedbTransaction::into_tx, (handle,), back),
        call_ensures(RedbWriteView::into_tx, (view,), handed),
        call_ensures(RedbTransaction::new, (handed,), other),
        call_ensures(RedbWriteView::new, (back,), again),
        call_ensures(
            RedbWriteView::get,
            (&view, key),
            Ok::<Option<Vec<u8>>, RedbBackendError>(a),
        ),
        call_ensures(
            RedbWriteView::get,
            (&again, key),
            Ok::<Option<Vec<u8>>, RedbBackendError>(b),
        ),
    ensures
        same_row(a, b),
        view.rows() == handle.rows(),
        other.rows() == handle.rows(),
{
}

/// A read view takes no write, and a reader reads the rows that a view of its transaction
/// does.
pub proof fn law_durable_read_view(
    tx: ReadTransaction,
    view: RedbReadView,
    reader: RedbReader,
    call: &mut RedbReadView,
    key: &[u8],
    value: &[u8],
    start: Bound<&[u8]>,
    end: Bound<&[u8]>,
    r: Result<(), RedbBackendError>,
)
    requires
        call_ensures(RedbReadView::new, (tx,), view),
        call_ensures(RedbReader::new, (tx,), reader),
        *call == view,
        call_ensures(RedbReadView::insert, (call, key, value), r) || call_ensures(
            RedbReadView::delete,
            (call, key),
            r,
        ) || call_ensures(RedbReadView::clear_range, (call, start, end), r),
    ensures
        r == Err::<(), RedbBackendError>(RedbBackendError::ReadOnly),
        *final(call) == view,
        reader.rows() == view.rows(),
{
}

/// Bounds that are held keep every key between them behind the prefix.
pub proof fn law_is_held(b: DataBounds, r: bool, k: Seq<u8>)
    requires
        call_ensures(DataBounds::is_held, (&b,), r),
        r,
        in_range(k, owned_bound_of(b.start), owned_bound_of(b.end)),
    ensures
        exists|t: Seq<u8>| k == #[trigger] (b.prefix@ + t),
{
    crate::call_laws::order::law_prefix(k, b.prefix@);
}

/// The bounds of a directory's data are held, and stay so behind every row.
pub proof fn law_held_on(
    tx: RedbTransaction,
    dir: &[&[u8]],
    start: Bound<&[u8]>,
    end: Bound<&[u8]>,
    b: DataBounds,
    reverse: bool,
    row: KvPair,
    next: DataBounds,
    r: bool,
    then: bool,
)
    requires
        call_ensures(
            RedbTransaction::data_bounds,
            (&tx, dir, start, end),
            Ok::<Option<DataBounds>, RedbStorageError>(Some(b)),
        ),
        call_ensures(DataBounds::is_held, (&b,), r),
        call_ensures(
            RedbTransaction::next_row,
            (&tx, b, reverse),
            Ok::<Option<(KvPair, DataBounds)>, RedbStorageError>(Some((row, next))),
        ),
        call_ensures(DataBounds::is_held, (&next,), then),
    ensures
        r,
        then,
{
}

/// A step of a cursor hands out the first row of what is left, under its key within the
/// directory, and goes on strictly behind it; it ends only where no row is left.
pub proof fn law_durable_step(
    tx: RedbTransaction,
    left: DataBounds,
    reverse: bool,
    r: Option<(KvPair, DataBounds)>,
    k: Seq<u8>,
)
    requires
        confined(left),
        call_ensures(
            RedbTransaction::next_row,
            (&tx, left, reverse),
            Ok::<Option<(KvPair, DataBounds)>, RedbStorageError>(r),
        ),
    ensures
        match r {
            Some((pair, next)) => {
                let row = left.prefix@ + pair.key@;
                &&& tx.rows().dom().contains(row) && tx.rows()[row] == pair.value@
                &&& in_range(row, owned_bound_of(left.start), owned_bound_of(left.end))
                &&& next.prefix@ == left.prefix@
                &&& in_range(k, owned_bound_of(next.start), owned_bound_of(next.end)) <==> in_range(
                    k,
                    owned_bound_of(left.start),
                    owned_bound_of(left.end),
                ) && (if reverse {
                    lt(k, row)
                } else {
                    lt(row, k)
                })
                &&& tx.rows().dom().contains(k) && in_range(
                    k,
                    owned_bound_of(left.start),
                    owned_bound_of(left.end),
                ) ==> k == row || in_range(
                    k,
                    owned_bound_of(next.start),
                    owned_bound_of(next.end),
                )
            },
            None => tx.rows().dom().contains(k) ==> !in_range(
                k,
                owned_bound_of(left.start),
                owned_bound_of(left.end),
            ),
        },
{
    if let Some((pair, next)) = r {
        let m = tx.rows();
        let row = choose|row: KvPair| #[trigger] steps_to(m, left, reverse, row, pair, next);
        let s = owned_bound_of(left.start);
        let e = owned_bound_of(left.end);
        if in_range(k, owned_bound_of(next.start), owned_bound_of(next.end)) {
            lemma_left_within(s, e, reverse, row.key@, k);
        }
        if m.dom().contains(k) {
            lemma_left_of_range(m, s, e, reverse, row, k);
        }
    }
}

/// A reader's cursor steps in the same way.
pub proof fn law_durable_reader_step(
    tx: RedbReader,
    left: DataBounds,
    reverse: bool,
    r: Option<(KvPair, DataBounds)>,
    k: Seq<u8>,
)
    requires
        confined(left),
        call_ensures(
            RedbReader::next_row,
            (&tx, left, reverse),
            Ok::<Option<(KvPair, DataBounds)>, RedbStorageError>(r),
        ),
    ensures
        match r {
            Some((pair, next)) => {
                let row = left.prefix@ + pair.key@;
                &&& tx.rows().dom().contains(row) && tx.rows()[row] == pair.value@
                &&& in_range(row, owned_bound_of(left.start), owned_bound_of(left.end))
                &&& next.prefix@ == left.prefix@
                &&& in_range(k, owned_bound_of(next.start), owned_bound_of(next.end)) <==> in_range(
                    k,
                    owned_bound_of(left.start),
                    owned_bound_of(left.end),
                ) && (if reverse {
                    lt(k, row)
                } else {
                    lt(row, k)
                })
                &&& tx.rows().dom().contains(k) && in_range(
                    k,
                    owned_bound_of(left.start),
                    owned_bound_of(left.end),
                ) ==> k == row || in_range(
                    k,
                    owned_bound_of(next.start),
                    owned_bound_of(next.end),
                )
            },
            None => tx.rows().dom().contains(k) ==> !in_range(
                k,
                owned_bound_of(left.start),
                owned_bound_of(left.end),
            ),
        },
{
    if let Some((pair, next)) = r {
        let m = tx.rows();
        let row = choose|row: KvPair| #[trigger] steps_to(m, left, reverse, row, pair, next);
        let s = owned_bound_of(left.start);
        let e = owned_bound_of(left.end);
        if in_range(k, owned_bound_of(next.start), owned_bound_of(next.end)) {
            lemma_left_within(s, e, reverse, row.key@, k);
        }
        if m.dom().contains(k) {
            lemma_left_of_range(m, s, e, reverse, row, k);
        }
    }
}

// ---------------------------------------------------------------------------
// The layout over a view
// ---------------------------------------------------------------------------

/// An engine works on the view that it was made of, and gives it back.
pub proof fn law_engine_view<R: RawKv>(view: R, e: FlatEngine<R>, shown: &R, back: R)
    requires
        call_ensures(FlatEngine::<R>::new, (view,), e),
        call_ensures(FlatEngine::<R>::raw, (&e,), shown),
        call_ensures(FlatEngine::<R>::into_raw, (e,), back),
    ensures
        *shown == view,
        back == view,
        e.rows() == view.rows(),
{
}

/// A removal tells whether the path was found. It takes the rows of the directory, in the
/// data region and in the node region, and those of its children, each of which has a
/// packed prefix; no row is new but the version row. The empty path is refused, and where
/// the path is not found nothing changes.
pub proof fn law_remove_rows<R: RawKv>(
    before: R,
    after: R,
    path: &[&[u8]],
    found: Option<Vec<u8>>,
    r: Result<bool, FlatError<R::Error>>,
    k: Seq<u8>,
    link: Seq<u8>,
)
    requires
        before.wf(),
        before.terms().readable,
        before.terms().writable,
        call_ensures(check_version_read::<R>, (&before,), Ok::<(), FlatError<R::Error>>(())),
        call_ensures(
            find::<R>,
            (&before, path),
            Ok::<Option<Vec<u8>>, FlatError<R::Error>>(found),
        ),
        exists|v: &mut R|
            *v == before && *final(v) == after && #[trigger] call_ensures(
                remove_dir::<R>,
                (v, path),
                r,
            ),
    ensures
        path@.len() == 0 ==> (r matches Err(FlatError::Corrupt)) && after == before,
        path@.len() > 0 && found is None ==> (r matches Ok(false)) && after == before,
        path@.len() > 0 && found is Some ==> r == Ok::<bool, FlatError<R::Error>>(true)
            || r matches Err(FlatError::Corrupt),
        r matches Ok(true) ==> {
            &&& starts_with(k, (found->0)@) ==> !after.rows().dom().contains(k)
            &&& inside(node((found->0)@), k) ==> !after.rows().dom().contains(k)
            &&& after.rows().dom().contains(k) && k != VERSION_KEY@ ==> before.rows().dom().contains(
                k,
            ) && after.rows()[k] == before.rows()[k]
            &&& before.rows().dom().contains(link) && link != VERSION_KEY@ && stands_behind(
                node((found->0)@) + seq![0x14u8],
                link,
            ) ==> int_of_element(before.rows()[link]) is Some && (starts_with(
                k,
                before.rows()[link],
            ) ==> !after.rows().dom().contains(k))
        },
{
    if r matches Ok(true) {
        lemma_child_gone(before.rows(), (found->0)@, link, k);
        let p = (found->0)@;
        let m = crate::flatdir::model::with_version(before.rows());
        assert(reaches_in(m, p, p, 0));
        assert(reaches(m, p, p));
        if owns(p, k) {
            assert(in_subtree(m, p, k));
        }
    }
}

/// The rows of a child belong to the directory that is removed.
proof fn lemma_child_gone(m0: Rows, p: Seq<u8>, link: Seq<u8>, k: Seq<u8>)
    requires
        prunable(with_version(m0), p),
    ensures
        m0.dom().contains(link) && link != VERSION_KEY@ && stands_behind(
            node(p) + seq![0x14u8],
            link,
        ) ==> int_of_element(m0[link]) is Some && (starts_with(k, m0[link]) ==> in_subtree(
            with_version(m0),
            p,
            k,
        )),
{
    let m = with_version(m0);
    assert(int_element(0) =~= seq![0x14u8]);
    lemma_stands_behind(node(p) + seq![0x14u8], link);
    if m0.dom().contains(link) && link != VERSION_KEY@ && stands_behind(
        node(p) + seq![0x14u8],
        link,
    ) {
        let v = m0[link];
        assert(m.dom().contains(link) && m[link] == v);
        assert(edge(m, p, v)) by {
            assert(is_child_key(p, link));
        }
        assert(reaches_in(m, v, v, 0));
        assert(reaches_in(m, p, v, 1));
        assert(reaches(m, p, v));
        if starts_with(k, v) {
            assert(owns(v, k));
        }
    }
}

/// Removing a directory without children takes its own rows and the child row that leads
/// to it, and no other.
pub proof fn law_remove_leaf<R: RawKv>(
    before: R,
    after: R,
    path: &[&[u8]],
    found: Vec<u8>,
    k: Seq<u8>,
)
    requires
        before.wf(),
        call_ensures(
            find::<R>,
            (&before, path),
            Ok::<Option<Vec<u8>>, FlatError<R::Error>>(Some(found)),
        ),
        exists|v: &mut R|
            *v == before && *final(v) == after && #[trigger] call_ensures(
                remove_dir::<R>,
                (v, path),
                Ok::<bool, FlatError<R::Error>>(true),
            ),
        before.rows().dom().contains(VERSION_KEY@),
        forall|j: Seq<u8>| #[trigger]
            before.rows().dom().contains(j) ==> !stands_behind(node(found@) + seq![0x14u8], j),
        before.rows().dom().contains(k),
        !starts_with(k, found@),
        !stands_behind(node(found@), k),
    ensures
        (after.rows().dom().contains(k) && after.rows()[k] == before.rows()[k]) || exists|
            w: Seq<u8>,
        | k == #[trigger] child_row(node(w), path@.last()@),
{
    let m = before.rows();
    let p = found@;
    assert(int_element(0) =~= seq![0x14u8]);
    lemma_stands_behind(node(p), k);
    assert forall|v: Seq<u8>| !#[trigger] edge(m, p, v) by {
        if edge(m, p, v) {
            let j = choose|j: Seq<u8>| #[trigger]
                m.dom().contains(j) && is_child_key(p, j) && m[j] == v;
            lemma_stands_behind(node(p) + seq![0x14u8], j);
        }
    }
    assert(with_version(m) == m);
    if in_subtree(m, p, k) {
        let q = choose|q: Seq<u8>| #[trigger] reaches(m, p, q) && owns(q, k);
        let n = choose|n: nat| reaches_in(m, p, q, n);
        assert(n == 0);
    }
    let segs = path_of(path@);
    assert(segs.last() == path@.last()@);
}

} // verus!
