//! The in-memory, durable and browser stores, and the pinned view.

use core::ops::Bound;

use redb::WriteTransaction;
use vstd::prelude::*;

use crate::btreemap::{BTreeMapError, BTreeMapStore, BTreeMapTransaction, WriteSet};
use crate::bytemap::ByteMap;
use crate::bytes::{lemma_order, lt, starts_with};
use crate::call_laws::cluster::{law_lies_between, lies_between};
use crate::call_laws::maps::{law_scanned, law_without_range};
use crate::call_laws::order::law_path;
use crate::call_laws::stores::{is_text_path, same_value};
use crate::commit::Commit;
use crate::cursor::advance;
use crate::directory_laws::law_fresh_store;
use crate::durable::scan::steps_to;
use crate::durable::{
    engine_result, scan_result, version_result, RedbBackendError, RedbReader, RedbStorageError,
    RedbTransaction,
};
use crate::flatdir::error::FlatError;
use crate::flatdir::health::{counts, healthy, room};
use crate::flatdir::layout::{counter_row, parse_version};
use crate::flatdir::tuple::is_i64;
use crate::flatengine::{byte_strings, DataBounds};
use crate::indexeddb::error::IndexedDbError;
use crate::indexeddb::revision::Revision;
use crate::indexeddb::session::{IndexedDbReader, IndexedDbTransaction};
use crate::key::{path_of, valid_path};
use crate::keyspace::{bound_of, in_range, owned_bound_of};
use crate::nav::KvDirNav;
use crate::overlay::rows_of;
use crate::rawkv::Rows;
use crate::scoped::{join_dir, ScopedKvStore};
use crate::store::KvStore;
use crate::stream::{KvPair, KvStream};

verus! {

// ---------------------------------------------------------------------------
// Room
// ---------------------------------------------------------------------------

/// There is room for `n` more directories as long as no window of the allocator begins
/// within that many windows of the end of the range of an `i64`.
pub proof fn law_room(m: Rows, n: nat)
    requires
        8192 * (n + 1) <= i64::MAX,
        forall|s: int|
            is_i64(s) && m.dom().contains(#[trigger] counter_row(s)) ==> s + 8192 * (n + 1)
                <= i64::MAX,
    ensures
        room(m, n),
{
    assert forall|s: int| #[trigger] counts(m, s) implies s + 8192 * (n + 1) <= i64::MAX by {
        assert(m.dom().contains(counter_row(s)));
    }
}

// ---------------------------------------------------------------------------
// In memory
// ---------------------------------------------------------------------------

/// A transaction over a new store is in order, serves reads and takes writes, has room for
/// every path of up to a million segments, and finds nothing.
pub proof fn law_new_store<'a>(
    store: &'a BTreeMapStore,
    tx: BTreeMapTransaction<'a>,
    dir: &[&[u8]],
    key: &[u8],
    got: Result<Option<Vec<u8>>, BTreeMapError>,
    there: Result<bool, BTreeMapError>,
    empty: bool,
    n: usize,
)
    requires
        call_ensures(BTreeMapStore::new, (), *store),
        call_ensures(BTreeMapStore::transaction, (store,), tx),
        call_ensures(BTreeMapStore::is_empty, (store,), empty),
        call_ensures(BTreeMapStore::len, (store,), n),
        is_text_path(dir),
        dir@.len() <= 1_000_000,
        call_ensures(BTreeMapTransaction::get, (&tx, dir, key), got),
        call_ensures(BTreeMapTransaction::dir_exists, (&tx, dir), there),
    ensures
        tx.wf(),
        tx.in_order(),
        tx.can_read(),
        tx.can_write(),
        tx.has_room(path_of(dir@)),
        dir@.len() > 0 ==> tx.removable(path_of(dir@)),
        got matches Ok(None),
        there matches Ok(false),
        empty,
        n == 0,
{
    law_path(dir);
    assert(valid_path(path_of(dir@)));
    law_fresh_store(path_of(dir@));
    law_room(tx.rows(), dir@.len() + 1);
    assert(Map::<Seq<u8>, Seq<u8>>::empty().len() == 0);
}

/// A write uses up the room of at most one directory for each segment of its path, and
/// one more.
pub proof fn law_room_left<'a>(
    before: BTreeMapTransaction<'a>,
    after: BTreeMapTransaction<'a>,
    dir: &[&[u8]],
    key: &[u8],
    value: &[u8],
    n: nat,
)
    requires
        before.wf(),
        before.in_order(),
        room(before.rows(), n + dir@.len() + 1),
        exists|s: &mut BTreeMapTransaction<'a>|
            *s == before && *final(s) == after && #[trigger] call_ensures(
                BTreeMapTransaction::set,
                (s, dir, key, value),
                Ok::<(), BTreeMapError>(()),
            ),
    ensures
        room(after.rows(), n),
{
    law_path(dir);
    crate::directory_laws::law_room(
        before.rows(),
        path_of(dir@),
        key@,
        value@,
        after.rows(),
        n,
    );
}

/// A committed transaction, applied to the store that it was opened over, is what later
/// transactions read.
pub proof fn law_commit_applies<'a, 'b>(
    store: BTreeMapStore,
    tx: BTreeMapTransaction<'a>,
    writes: WriteSet,
    applied: &'b BTreeMapStore,
    later: BTreeMapTransaction<'b>,
    dir: &[&[u8]],
    key: &[u8],
    then: Result<Option<Vec<u8>>, BTreeMapError>,
    now: Result<Option<Vec<u8>>, BTreeMapError>,
    was: Result<bool, BTreeMapError>,
    is: Result<bool, BTreeMapError>,
    pending: usize,
    n: usize,
)
    requires
        store.wf(),
        tx.wf(),
        tx.base_rows() == store.rows(),
        call_ensures(BTreeMapTransaction::pending_len, (&tx,), pending),
        call_ensures(BTreeMapTransaction::commit, (tx,), Ok::<WriteSet, BTreeMapError>(writes)),
        call_ensures(WriteSet::len, (&writes,), n),
        exists|s: &mut BTreeMapStore|
            *s == store && *final(s) == *applied && #[trigger] call_ensures(
                BTreeMapStore::apply,
                (s, writes),
                (),
            ),
        call_ensures(BTreeMapStore::transaction, (applied,), later),
        call_ensures(BTreeMapTransaction::get, (&tx, dir, key), then),
        call_ensures(BTreeMapTransaction::get, (&later, dir, key), now),
        call_ensures(BTreeMapTransaction::dir_exists, (&tx, dir), was),
        call_ensures(BTreeMapTransaction::dir_exists, (&later, dir), is),
        then is Ok,
        now is Ok,
        was is Ok,
        is is Ok,
    ensures
        later.wf(),
        later.in_order() <==> tx.in_order(),
        same_value(then, now),
        was->Ok_0 == is->Ok_0,
        n == pending,
{
    assert(later.rows() == tx.rows());
}

/// A transaction opened over a store reads what is committed, whatever others have
/// pending; it was opened over what it was opened over.
pub proof fn law_transactions_isolated<'a>(
    store: &'a BTreeMapStore,
    first: BTreeMapTransaction<'a>,
    second: BTreeMapTransaction<'a>,
    written: BTreeMapTransaction<'a>,
    wrote_dir: &[&[u8]],
    wrote_key: &[u8],
    value: &[u8],
    r: Result<(), BTreeMapError>,
    dir: &[&[u8]],
    key: &[u8],
    a: Result<Option<Vec<u8>>, BTreeMapError>,
    b: Result<Option<Vec<u8>>, BTreeMapError>,
)
    requires
        store.wf(),
        call_ensures(BTreeMapStore::transaction, (store,), first),
        exists|s: &mut BTreeMapTransaction<'a>|
            *s == first && *final(s) == written && #[trigger] call_ensures(
                BTreeMapTransaction::set,
                (s, wrote_dir, wrote_key, value),
                r,
            ),
        call_ensures(BTreeMapStore::transaction, (store,), second),
        call_ensures(BTreeMapTransaction::get, (&first, dir, key), a),
        call_ensures(BTreeMapTransaction::get, (&second, dir, key), b),
        a is Ok,
        b is Ok,
    ensures
        same_value(a, b),
        written.base_rows() == store.rows(),
{
}

/// A transaction whose writes were set aside reads the same when it is taken up again.
pub proof fn law_resume<'a>(
    store: &'a BTreeMapStore,
    tx: BTreeMapTransaction<'a>,
    writes: WriteSet,
    resumed: BTreeMapTransaction<'a>,
    dir: &[&[u8]],
    key: &[u8],
    a: Result<Option<Vec<u8>>, BTreeMapError>,
    b: Result<Option<Vec<u8>>, BTreeMapError>,
    m: usize,
    n: usize,
)
    requires
        store.wf(),
        tx.wf(),
        tx.base_rows() == store.rows(),
        call_ensures(BTreeMapTransaction::commit, (tx,), Ok::<WriteSet, BTreeMapError>(writes)),
        call_ensures(BTreeMapStore::resume, (store, writes), resumed),
        call_ensures(BTreeMapTransaction::get, (&tx, dir, key), a),
        call_ensures(BTreeMapTransaction::get, (&resumed, dir, key), b),
        call_ensures(BTreeMapTransaction::pending_len, (&tx,), m),
        call_ensures(BTreeMapTransaction::pending_len, (&resumed,), n),
        a is Ok,
        b is Ok,
    ensures
        same_value(a, b),
        m == n,
{
    assert(resumed.rows() == tx.rows());
}

/// The committed keys, ascending, are those under which something is committed; cleared,
/// the store has none.
pub proof fn law_committed(
    store: BTreeMapStore,
    keys: Vec<Vec<u8>>,
    key: &[u8],
    got: Option<Vec<u8>>,
    n: usize,
    cleared: BTreeMapStore,
    left: Option<Vec<u8>>,
    empty: bool,
)
    requires
        store.wf(),
        call_ensures(BTreeMapStore::keys, (&store,), keys),
        call_ensures(BTreeMapStore::get_committed, (&store, key), got),
        call_ensures(BTreeMapStore::len, (&store,), n),
        exists|s: &mut BTreeMapStore|
            *s == store && *final(s) == cleared && #[trigger] call_ensures(
                BTreeMapStore::clear,
                (s,),
                (),
            ),
        call_ensures(BTreeMapStore::get_committed, (&cleared, key), left),
        call_ensures(BTreeMapStore::is_empty, (&cleared,), empty),
    ensures
        forall|i: int, j: int|
            #![trigger keys@[i], keys@[j]]
            0 <= i < j < keys@.len() ==> lt(keys@[i]@, keys@[j]@),
        got is Some <==> exists|i: int| 0 <= i < keys@.len() && (#[trigger] keys@[i])@ == key@,
        n == keys@.len(),
        left is None,
        empty,
{
    let list = byte_strings(keys@);
    assert forall|i: int, j: int|
        #![trigger keys@[i], keys@[j]]
        0 <= i < j < keys@.len() implies lt(keys@[i]@, keys@[j]@) by {
        assert(lt(list[i], list[j]));
    }
    if got is Some {
        assert(store.rows().dom().contains(key@));
        assert(list.contains(key@));
        let i = choose|i: int| 0 <= i < list.len() && list[i] == key@;
        assert(keys@[i]@ == key@);
    }
    if exists|i: int| 0 <= i < keys@.len() && (#[trigger] keys@[i])@ == key@ {
        let i = choose|i: int| 0 <= i < keys@.len() && (#[trigger] keys@[i])@ == key@;
        assert(list[i] == key@);
        assert(list.contains(key@));
    }
    assert(list.no_duplicates()) by {
        assert forall|i: int, j: int|
            0 <= i < list.len() && 0 <= j < list.len() && i != j implies list[i] != list[j] by {
            crate::bytes::lemma_lt_irreflexive(list[i]);
        }
    }
    list.unique_seq_to_set();
    assert(store.rows().dom() =~= list.to_set()) by {
        assert forall|k: Seq<u8>|
            store.rows().dom().contains(k) <==> list.to_set().contains(k) by {
            assert(list.contains(k) <==> store.rows().dom().contains(k));
        }
    }
}

/// A store over a map holds what the map holds, and shows it; a transaction over it reads
/// the raw rows that the map has.
pub proof fn law_from_map(
    map: ByteMap<Vec<u8>>,
    store: BTreeMapStore,
    raw: &ByteMap<Vec<u8>>,
    key: &[u8],
    put: Option<&Vec<u8>>,
    shown: Option<&Vec<u8>>,
    got: Option<Vec<u8>>,
    n: usize,
    rows: usize,
)
    requires
        map.wf(),
        call_ensures(BTreeMapStore::from_map, (map,), store),
        call_ensures(BTreeMapStore::raw, (&store,), raw),
        call_ensures(ByteMap::<Vec<u8>>::get, (&map, key), put),
        call_ensures(ByteMap::<Vec<u8>>::get, (raw, key), shown),
        call_ensures(BTreeMapStore::get_committed, (&store, key), got),
        call_ensures(ByteMap::<Vec<u8>>::len, (&map,), n),
        call_ensures(BTreeMapStore::len, (&store,), rows),
    ensures
        match put {
            Some(v) => (shown matches Some(w) && w@ == v@) && (got matches Some(x) && x@ == v@),
            None => shown is None && got is None,
        },
        rows == n,
{
    let m = rows_of(map@);
    assert(m.dom() =~= map@.dom());
    assert(rows_of(raw@) == m);
    assert(rows_of(raw@).dom().contains(key@) <==> raw@.dom().contains(key@));
    assert(m.dom().contains(key@) <==> map@.dom().contains(key@));
    if put is Some {
        assert(m[key@] == (put->0)@);
        assert(rows_of(raw@)[key@] == (shown->0)@);
    }
}

// ---------------------------------------------------------------------------
// In the browser
// ---------------------------------------------------------------------------

/// A session over no rows is in order, serves reads and takes writes, has room, and finds
/// nothing; it has the revision that it was opened with.
pub proof fn law_new_session(
    map: ByteMap<Vec<u8>>,
    expected: Revision,
    tx: IndexedDbTransaction,
    fence: Revision,
    pending: usize,
    dir: &[&[u8]],
    key: &[u8],
    got: Result<Option<Vec<u8>>, IndexedDbError>,
)
    requires
        call_ensures(ByteMap::<Vec<u8>>::new, (), map),
        call_ensures(IndexedDbTransaction::new, (expected, map), tx),
        call_ensures(IndexedDbTransaction::expected_revision, (&tx,), fence),
        call_ensures(IndexedDbTransaction::pending_len, (&tx,), pending),
        is_text_path(dir),
        dir@.len() <= 1_000_000,
        call_ensures(IndexedDbTransaction::get, (&tx, dir, key), got),
    ensures
        tx.wf(),
        tx.in_order(),
        tx.can_read(),
        tx.can_write(),
        tx.has_room(path_of(dir@)),
        dir@.len() > 0 ==> tx.removable(path_of(dir@)),
        got matches Ok(None),
        fence == expected,
        pending == 0,
{
    law_path(dir);
    assert(valid_path(path_of(dir@)));
    assert(tx.rows() =~= Map::<Seq<u8>, Seq<u8>>::empty());
    law_fresh_store(path_of(dir@));
    law_room(tx.rows(), dir@.len() + 1);
    assert(Map::<Seq<u8>, Option<Vec<u8>>>::empty().len() == 0);
}

/// A reader and a session over the same rows read the same.
pub proof fn law_reader_reads(
    map: ByteMap<Vec<u8>>,
    expected: Revision,
    tx: IndexedDbTransaction,
    reader: IndexedDbReader,
    dir: &[&[u8]],
    key: &[u8],
    a: Result<Option<Vec<u8>>, IndexedDbError>,
    b: Result<Option<Vec<u8>>, IndexedDbError>,
)
    requires
        map.wf(),
        call_ensures(IndexedDbTransaction::new, (expected, map), tx),
        call_ensures(IndexedDbReader::new, (map,), reader),
        call_ensures(IndexedDbTransaction::get, (&tx, dir, key), a),
        call_ensures(IndexedDbReader::get, (&reader, dir, key), b),
    ensures
        a is Ok <==> b is Ok,
        a is Ok ==> same_value(a, b),
{
}

/// A reader refuses every change: with the path's own error where it is no text, and as
/// read-only otherwise. It stays as it is.
pub proof fn law_reader_refuses(
    before: IndexedDbReader,
    after: IndexedDbReader,
    kept: IndexedDbReader,
    dir: &[&[u8]],
    key: &[u8],
    value: &[u8],
    start: Bound<&[u8]>,
    end: Bound<&[u8]>,
    removal: Result<bool, IndexedDbError>,
    r: Result<(), IndexedDbError>,
)
    requires
        before.wf(),
        exists|s: &mut IndexedDbReader|
            *s == before && *final(s) == after && ((#[trigger] call_ensures(
                IndexedDbReader::set,
                (s, dir, key, value),
                r,
            )) || call_ensures(IndexedDbReader::delete, (s, dir, key), r) || call_ensures(
                IndexedDbReader::clear_range,
                (s, dir, start, end),
                r,
            )),
        exists|s: &mut IndexedDbReader|
            *s == before && *final(s) == kept && #[trigger] call_ensures(
                IndexedDbReader::remove_dir,
                (s, dir),
                removal,
            ),
    ensures
        after == before,
        kept == before,
        removal is Err,
        if is_text_path(dir) {
            removal->Err_0 is ReadOnly
        } else {
            removal->Err_0 is Key
        },
        if is_text_path(dir) {
            r == Err::<(), IndexedDbError>(IndexedDbError::ReadOnly)
        } else {
            r matches Err(e) && e is Key
        },
{
    law_path(dir);
}

// ---------------------------------------------------------------------------
// Durable
// ---------------------------------------------------------------------------

/// A committed transaction hands over what it saw: a handle over the outcome reads the
/// same.
pub proof fn law_durable_commit(
    tx: RedbTransaction,
    outcome: Result<WriteTransaction, RedbStorageError>,
    later: RedbTransaction,
    dir: &[&[u8]],
    key: &[u8],
    a: Result<Option<Vec<u8>>, RedbStorageError>,
    b: Result<Option<Vec<u8>>, RedbStorageError>,
)
    requires
        call_ensures(RedbTransaction::commit, (tx,), outcome),
        outcome matches Ok(t) ==> call_ensures(RedbTransaction::new, (t,), later),
        call_ensures(RedbTransaction::get, (&tx, dir, key), a),
        call_ensures(RedbTransaction::get, (&later, dir, key), b),
        a is Ok,
        b is Ok,
    ensures
        outcome is Ok,
        same_value(a, b),
{
    assert(later.rows() == tx.rows());
}

/// The first step of a cursor over a directory's keys between bounds gives the first of
/// them, or the last one backwards, with the value that a read finds; there is none only
/// where no key between the bounds is found.
pub proof fn law_durable_step(
    tx: RedbTransaction,
    dir: &[&[u8]],
    start: Bound<&[u8]>,
    end: Bound<&[u8]>,
    reverse: bool,
    bounds: Option<DataBounds>,
    step: Option<(KvPair, DataBounds)>,
    key: &[u8],
    got: Option<Vec<u8>>,
)
    requires
        call_ensures(
            RedbTransaction::data_bounds,
            (&tx, dir, start, end),
            Ok::<Option<DataBounds>, RedbStorageError>(bounds),
        ),
        bounds matches Some(b) ==> call_ensures(
            RedbTransaction::next_row,
            (&tx, b, reverse),
            Ok::<Option<(KvPair, DataBounds)>, RedbStorageError>(step),
        ),
        call_ensures(
            RedbTransaction::get,
            (&tx, dir, key),
            Ok::<Option<Vec<u8>>, RedbStorageError>(got),
        ),
        got is Some,
        lies_between(key@, start, end),
    ensures
        bounds is Some,
        step is Some,
        step matches Some((pair, _)) ==> lies_between(pair.key@, start, end),
        step matches Some((pair, _)) ==> if reverse {
            !lt(pair.key@, key@)
        } else {
            !lt(key@, pair.key@)
        },
        step matches Some((pair, _)) ==> (pair.key@ == key@ ==> pair.value@ == (got->0)@),
{
    let m = tx.rows();
    law_lies_between(key@, start, end);
    let p = (crate::flatengine::lookup(m, path_of(dir@))->Ok_0)->0;
    crate::flatdir::model::lemma_walk_prefix(m, crate::flatengine::anchored(path_of(dir@)));
    crate::flatdir::model::lemma_packed_successor(p);
    let raw = p + key@;
    assert(m.dom().contains(raw));
    crate::bytes::lemma_starts_with_concat(p, key@);
    crate::flatengine::lemma_raw_range_exact(p, bound_of(start), bound_of(end), raw);
    if bounds is None {
        if crate::keyspace::crossed(bound_of(start), bound_of(end)) {
            crate::keyspace::law_crossed_is_empty(bound_of(start), bound_of(end), key@);
        } else {
            crate::flatengine::lemma_passed_is_empty(
                crate::flatengine::raw_start(p, bound_of(start)),
                crate::flatengine::raw_end(p, bound_of(end)),
                raw,
            );
        }
    } else if step is Some {
        let b = bounds->0;
        let (pair, next) = step->0;
        let row = choose|row: KvPair| #[trigger] steps_to(m, b, reverse, row, pair, next);
        crate::flatengine::lemma_raw_range_exact(p, bound_of(start), bound_of(end), row.key@);
        crate::bytes::lemma_starts_with_concat(p, pair.key@);
        law_lies_between(pair.key@, start, end);
        crate::keyspace::lemma_range_common_prefix(p, pair.key@, key@);
        crate::keyspace::lemma_range_common_prefix(p, key@, pair.key@);
        lemma_order(pair.key@, key@, pair.key@);
        lemma_order(key@, pair.key@, key@);
    }
}

/// A reader's cursor steps likewise: the first step gives the first of
/// them, or the last one backwards, with the value that a read finds; there is none only
/// where no key between the bounds is found.
pub proof fn law_durable_reader_step(
    tx: RedbReader,
    dir: &[&[u8]],
    start: Bound<&[u8]>,
    end: Bound<&[u8]>,
    reverse: bool,
    bounds: Option<DataBounds>,
    step: Option<(KvPair, DataBounds)>,
    key: &[u8],
    got: Option<Vec<u8>>,
)
    requires
        call_ensures(
            RedbReader::data_bounds,
            (&tx, dir, start, end),
            Ok::<Option<DataBounds>, RedbStorageError>(bounds),
        ),
        bounds matches Some(b) ==> call_ensures(
            RedbReader::next_row,
            (&tx, b, reverse),
            Ok::<Option<(KvPair, DataBounds)>, RedbStorageError>(step),
        ),
        call_ensures(
            RedbReader::get,
            (&tx, dir, key),
            Ok::<Option<Vec<u8>>, RedbStorageError>(got),
        ),
        got is Some,
        lies_between(key@, start, end),
    ensures
        bounds is Some,
        step is Some,
        step matches Some((pair, _)) ==> lies_between(pair.key@, start, end),
        step matches Some((pair, _)) ==> if reverse {
            !lt(pair.key@, key@)
        } else {
            !lt(key@, pair.key@)
        },
        step matches Some((pair, _)) ==> (pair.key@ == key@ ==> pair.value@ == (got->0)@),
{
    let m = tx.rows();
    law_lies_between(key@, start, end);
    let p = (crate::flatengine::lookup(m, path_of(dir@))->Ok_0)->0;
    crate::flatdir::model::lemma_walk_prefix(m, crate::flatengine::anchored(path_of(dir@)));
    crate::flatdir::model::lemma_packed_successor(p);
    let raw = p + key@;
    assert(m.dom().contains(raw));
    crate::bytes::lemma_starts_with_concat(p, key@);
    crate::flatengine::lemma_raw_range_exact(p, bound_of(start), bound_of(end), raw);
    if bounds is None {
        if crate::keyspace::crossed(bound_of(start), bound_of(end)) {
            crate::keyspace::law_crossed_is_empty(bound_of(start), bound_of(end), key@);
        } else {
            crate::flatengine::lemma_passed_is_empty(
                crate::flatengine::raw_start(p, bound_of(start)),
                crate::flatengine::raw_end(p, bound_of(end)),
                raw,
            );
        }
    } else if step is Some {
        let b = bounds->0;
        let (pair, next) = step->0;
        let row = choose|row: KvPair| #[trigger] steps_to(m, b, reverse, row, pair, next);
        crate::flatengine::lemma_raw_range_exact(p, bound_of(start), bound_of(end), row.key@);
        crate::bytes::lemma_starts_with_concat(p, pair.key@);
        law_lies_between(pair.key@, start, end);
        crate::keyspace::lemma_range_common_prefix(p, pair.key@, key@);
        crate::keyspace::lemma_range_common_prefix(p, key@, pair.key@);
        lemma_order(pair.key@, key@, pair.key@);
        lemma_order(key@, pair.key@, key@);
    }
}

/// A cursor goes on strictly behind the row that it handed out.
pub proof fn law_advance(
    bounds: DataBounds,
    row: KvPair,
    reverse: bool,
    r: (KvPair, DataBounds),
    k: Seq<u8>,
)
    requires
        starts_with(row.key@, bounds.prefix@),
        in_range(row.key@, owned_bound_of(bounds.start), owned_bound_of(bounds.end)),
        call_ensures(advance, (bounds, row, reverse), r),
    ensures
        row.key@ == bounds.prefix@ + r.0.key@,
        r.0.value@ == row.value@,
        r.1.prefix@ == bounds.prefix@,
        in_range(k, owned_bound_of(r.1.start), owned_bound_of(r.1.end)) <==> in_range(
            k,
            owned_bound_of(bounds.start),
            owned_bound_of(bounds.end),
        ) && (if reverse {
            lt(k, row.key@)
        } else {
            lt(row.key@, k)
        }),
{
    crate::bytes::lemma_starts_with_split(row.key@, bounds.prefix@);
    let s = owned_bound_of(bounds.start);
    let e = owned_bound_of(bounds.end);
    if in_range(k, owned_bound_of(r.1.start), owned_bound_of(r.1.end)) {
        crate::cursor::lemma_left_within(s, e, reverse, row.key@, k);
    }
}

/// The durable reader refuses every change of a directory's keys.
pub proof fn law_durable_reader_refuses(
    before: RedbReader,
    after: RedbReader,
    dir: &[&[u8]],
    key: &[u8],
    value: &[u8],
    start: Bound<&[u8]>,
    end: Bound<&[u8]>,
    r: Result<(), RedbStorageError>,
)
    requires
        exists|s: &mut RedbReader|
            *s == before && *final(s) == after && ((#[trigger] call_ensures(
                RedbReader::set,
                (s, dir, key, value),
                r,
            )) || call_ensures(RedbReader::delete, (s, dir, key), r) || call_ensures(
                RedbReader::clear_range,
                (s, dir, start, end),
                r,
            )),
    ensures
        after == before,
        if is_text_path(dir) {
            r == Err::<(), RedbStorageError>(
                RedbStorageError(FlatError::Engine(RedbBackendError::ReadOnly)),
            )
        } else {
            r matches Err(e) && e.0 is Key
        },
{
    law_path(dir);
}

/// A database opens exactly if it has no version row or one of a version that this layout
/// reads.
pub proof fn law_version_result(
    value: &[u8],
    parsed: Option<(u32, u32, u32)>,
    r: Result<(), RedbStorageError>,
    fresh: Result<(), RedbStorageError>,
)
    requires
        call_ensures(parse_version, (value,), parsed),
        call_ensures(version_result, (Some(value),), r),
        call_ensures(version_result, (None::<&[u8]>,), fresh),
    ensures
        fresh is Ok,
        if parsed matches Some((major, minor, _)) && major <= 1 && minor == 0 {
            r is Ok
        } else {
            r == Err::<(), RedbStorageError>(
                RedbStorageError(FlatError::Engine(RedbBackendError::LayoutVersionMismatch)),
            )
        },
{
}

/// An answer of the engine is handed on as it is, rows in the direction asked for, and a
/// failure with the engine's text.
pub proof fn law_answers<T>(
    answer: Result<T, String>,
    r: Result<T, RedbBackendError>,
    rows: Result<Vec<KvPair>, String>,
    forward: bool,
    s: Result<Vec<KvPair>, RedbBackendError>,
)
    requires
        call_ensures(engine_result::<T>, (answer,), r),
        call_ensures(scan_result, (rows, forward), s),
    ensures
        match answer {
            Ok(v) => r == Ok::<T, RedbBackendError>(v),
            Err(text) => r == Err::<T, RedbBackendError>(RedbBackendError::Backend(text)),
        },
        match rows {
            Ok(list) => s matches Ok(given) && given@.len() == list@.len() && forall|i: int|
                0 <= i < list@.len() ==> #[trigger] given@[i] == list@[if forward {
                    i
                } else {
                    list@.len() - 1 - i
                }],
            Err(text) => s == Err::<Vec<KvPair>, RedbBackendError>(RedbBackendError::Backend(text)),
        },
{
}

// ---------------------------------------------------------------------------
// Pinned views
// ---------------------------------------------------------------------------

/// A joined path is the pin and behind it the relative path.
pub proof fn law_join_dir<'a>(pin: &'a Vec<Vec<u8>>, rel: &[&'a [u8]], r: Vec<&'a [u8]>)
    requires
        call_ensures(join_dir, (pin, rel), r),
    ensures
        r@.len() == pin@.len() + rel@.len(),
        forall|i: int| 0 <= i < pin@.len() ==> (#[trigger] r@[i])@ == pin@[i]@,
        forall|i: int| 0 <= i < rel@.len() ==> r@[pin@.len() + i]@ == (#[trigger] rel@[i])@,
{
    let a = path_of(r@);
    let b = byte_strings(pin@) + path_of(rel@);
    assert(a.len() == b.len());
    assert forall|i: int| 0 <= i < pin@.len() implies (#[trigger] r@[i])@ == pin@[i]@ by {
        assert(a[i] == b[i]);
    }
    assert forall|i: int| 0 <= i < rel@.len() implies r@[pin@.len() + i]@ == (
    #[trigger] rel@[i])@ by {
        assert(a[pin@.len() + i] == b[pin@.len() + i]);
    }
}

/// A pinned view has the pin that it was made with, and one segment more when it is
/// nested; it gives its store back.
pub proof fn law_pin<KV>(
    inner: KV,
    dir: Vec<Vec<u8>>,
    s: ScopedKvStore<KV>,
    shown: &[Vec<u8>],
    seg: Vec<u8>,
    deeper: ScopedKvStore<KV>,
    shown_deeper: &[Vec<u8>],
    back: KV,
)
    requires
        call_ensures(ScopedKvStore::<KV>::new, (inner, dir), s),
        call_ensures(ScopedKvStore::<KV>::dir, (&s,), shown),
        call_ensures(ScopedKvStore::<KV>::nested, (s, seg), deeper),
        call_ensures(ScopedKvStore::<KV>::dir, (&deeper,), shown_deeper),
        call_ensures(ScopedKvStore::<KV>::into_inner, (deeper,), back),
    ensures
        shown@.len() == dir@.len(),
        forall|i: int| 0 <= i < dir@.len() ==> (#[trigger] shown@[i])@ == dir@[i]@,
        shown_deeper@.len() == dir@.len() + 1,
        forall|i: int| 0 <= i < dir@.len() ==> (#[trigger] shown_deeper@[i])@ == dir@[i]@,
        shown_deeper@[dir@.len() as int]@ == seg@,
        back == inner,
{
    let a = byte_strings(shown@);
    let b = byte_strings(dir@);
    assert(a == b);
    assert(a.len() == b.len());
    assert forall|i: int| 0 <= i < dir@.len() implies (#[trigger] shown@[i])@ == dir@[i]@ by {
        assert(a[i] == b[i]);
    }
    let c = byte_strings(shown_deeper@);
    assert(c == b.push(seg@));
    assert(c.len() == b.len() + 1);
    assert forall|i: int| 0 <= i < dir@.len() implies (#[trigger] shown_deeper@[i])@ == dir@[i]@ by {
        assert(c[i] == b[i]);
    }
    assert(c[dir@.len() as int] == seg@);
}

/// A pinned view reads in its directory what the store beneath reads in the directory
/// behind the pin, and so are the keys of its scans.
pub proof fn law_pinned_get<KV: KvStore>(
    s: ScopedKvStore<KV>,
    dir: &[&[u8]],
    joined: &[&[u8]],
    key: &[u8],
    through: Result<Option<Vec<u8>>, KV::Error>,
    inner: &KV,
    beneath: Result<Option<Vec<u8>>, KV::Error>,
)
    requires
        s.wf(),
        path_of(joined@) == s.pin() + path_of(dir@),
        call_ensures(ScopedKvStore::<KV>::inner, (&s,), inner),
        call_ensures(ScopedKvStore::<KV>::get, (&s, dir, key), through),
        call_ensures(KV::get, (inner, joined, key), beneath),
        through is Ok,
        beneath is Ok,
    ensures
        same_value(through, beneath),
{
}

/// A write through a pinned view is read beneath it, in the directory behind the pin.
pub proof fn law_pinned_set<KV: KvStore>(
    before: ScopedKvStore<KV>,
    after: ScopedKvStore<KV>,
    dir: &[&[u8]],
    joined: &[&[u8]],
    key: &[u8],
    value: &[u8],
    beneath: Result<Option<Vec<u8>>, KV::Error>,
)
    requires
        before.wf(),
        before.in_order(),
        path_of(joined@) == before.pin() + path_of(dir@),
        exists|s: &mut ScopedKvStore<KV>|
            *s == before && *final(s) == after && #[trigger] call_ensures(
                ScopedKvStore::<KV>::set,
                (s, dir, key, value),
                Ok::<(), KV::Error>(()),
            ),
        call_ensures(KV::get, (&after.store(), joined, key), beneath),
        beneath is Ok,
    ensures
        beneath matches Ok(Some(v)) && v@ == value@,
        after.pin() == before.pin(),
{
    assert(after.content_of(path_of(dir@)).dom().contains(key@));
}

/// A directory of a pinned view is the one behind the pin: it exists, is listed and is
/// removed there.
pub proof fn law_pinned_dirs<KV: KvDirNav>(
    before: ScopedKvStore<KV>,
    after: ScopedKvStore<KV>,
    dir: &[&[u8]],
    joined: &[&[u8]],
    through: Result<bool, KV::Error>,
    beneath: Result<bool, KV::Error>,
    names: Result<Vec<Vec<u8>>, KV::Error>,
    names_beneath: Result<Vec<Vec<u8>>, KV::Error>,
    removed: bool,
    left: Result<bool, KV::Error>,
)
    requires
        before.wf(),
        before.in_order(),
        path_of(joined@) == before.pin() + path_of(dir@),
        call_ensures(ScopedKvStore::<KV>::dir_exists, (&before, dir), through),
        call_ensures(KV::dir_exists, (&before.store(), joined), beneath),
        call_ensures(ScopedKvStore::<KV>::list_dirs, (&before, dir), names),
        call_ensures(KV::list_dirs, (&before.store(), joined), names_beneath),
        exists|s: &mut ScopedKvStore<KV>|
            *s == before && *final(s) == after && #[trigger] call_ensures(
                ScopedKvStore::<KV>::remove_dir,
                (s, dir),
                Ok::<bool, KV::Error>(removed),
            ),
        call_ensures(KV::dir_exists, (&after.store(), joined), left),
        through is Ok,
        beneath is Ok,
        names is Ok,
        names_beneath is Ok,
        left is Ok,
    ensures
        through->Ok_0 == beneath->Ok_0,
        removed == beneath->Ok_0,
        !left->Ok_0,
        after.pin() == before.pin(),
        !beneath->Ok_0 ==> (names->Ok_0)@.len() == 0 && (names_beneath->Ok_0)@.len() == 0,
{
    let path = path_of(dir@);
    assert(path.subrange(0, path.len() as int) =~= path);
    assert(crate::directory_laws::extends(path, path));
    assert(!after.dir_there(path));
}

/// A scan through a pinned view lists what a read beneath finds, in the directory behind
/// the pin.
pub proof fn law_pinned_range<KV: KvStore>(
    s: ScopedKvStore<KV>,
    dir: &[&[u8]],
    joined: &[&[u8]],
    start: Bound<&[u8]>,
    end: Bound<&[u8]>,
    reverse: bool,
    stream: KvStream<KV::Error>,
    list: Vec<KvPair>,
    key: &[u8],
    got: Result<Option<Vec<u8>>, KV::Error>,
)
    requires
        s.wf(),
        path_of(joined@) == s.pin() + path_of(dir@),
        call_ensures(ScopedKvStore::<KV>::range, (&s, dir, start, end, reverse), stream),
        call_ensures(
            KvStream::<KV::Error>::collect,
            (stream,),
            Ok::<Vec<KvPair>, KV::Error>(list),
        ),
        call_ensures(KV::get, (&s.store(), joined, key), got),
        got is Ok,
    ensures
        (got matches Ok(Some(_))) && lies_between(key@, start, end) <==> exists|i: int|
            0 <= i < list@.len() && (#[trigger] list@[i]).key@ == key@,
        forall|i: int|
            0 <= i < list@.len() && (#[trigger] list@[i]).key@ == key@ ==> (got matches Ok(Some(v))
                && v@ == list@[i].value@),
{
    law_scanned(s.content_of(path_of(dir@)), start, end, !reverse, list@);
}

/// A delete or a clear through a pinned view is seen beneath it, in the directory behind
/// the pin.
pub proof fn law_pinned_delete<KV: KvStore>(
    before: ScopedKvStore<KV>,
    deleted: ScopedKvStore<KV>,
    cleared: ScopedKvStore<KV>,
    dir: &[&[u8]],
    joined: &[&[u8]],
    key: &[u8],
    start: Bound<&[u8]>,
    end: Bound<&[u8]>,
    had: Result<Option<Vec<u8>>, KV::Error>,
    got: Result<Option<Vec<u8>>, KV::Error>,
    left: Result<Option<Vec<u8>>, KV::Error>,
)
    requires
        before.wf(),
        before.in_order(),
        path_of(joined@) == before.pin() + path_of(dir@),
        exists|s: &mut ScopedKvStore<KV>|
            *s == before && *final(s) == deleted && #[trigger] call_ensures(
                ScopedKvStore::<KV>::delete,
                (s, dir, key),
                Ok::<(), KV::Error>(()),
            ),
        exists|s: &mut ScopedKvStore<KV>|
            *s == before && *final(s) == cleared && #[trigger] call_ensures(
                ScopedKvStore::<KV>::clear_range,
                (s, dir, start, end),
                Ok::<(), KV::Error>(()),
            ),
        call_ensures(KV::get, (&before.store(), joined, key), had),
        call_ensures(KV::get, (&deleted.store(), joined, key), got),
        call_ensures(KV::get, (&cleared.store(), joined, key), left),
        had is Ok,
        got is Ok,
        left is Ok,
    ensures
        got matches Ok(None),
        if lies_between(key@, start, end) {
            left matches Ok(None)
        } else {
            same_value(had, left)
        },
{
    let m = before.content_of(path_of(dir@));
    law_without_range(m, start, end, key@);
    assert(deleted.content_of(path_of(dir@)) == m.remove(key@));
    assert(cleared.content_of(path_of(dir@)) == crate::rawkv::without_range(
        m,
        bound_of(start),
        bound_of(end),
    ));
}

/// A pinned view is committed as the store beneath it is.
pub proof fn law_pinned_commit<KV: Commit>(
    inner: KV,
    dir: Vec<Vec<u8>>,
    s: ScopedKvStore<KV>,
    r: Result<KV::Outcome, KV::Error>,
)
    requires
        call_ensures(ScopedKvStore::<KV>::new, (inner, dir), s),
        call_ensures(ScopedKvStore::<KV>::commit, (s,), r),
    ensures
        call_ensures(KV::commit, (inner,), r),
{
}

// ---------------------------------------------------------------------------
// All handles
// ---------------------------------------------------------------------------

/// Whether a handle is in order and has room rests on the rows that it shows, and on
/// nothing else; a handle that holds its rows itself always serves.
pub proof fn law_handles<'s>(
    map: BTreeMapTransaction<'s>,
    session: IndexedDbTransaction,
    snapshot: IndexedDbReader,
    tx: RedbTransaction,
    reader: RedbReader,
    dir: &[&[u8]],
)
    ensures
        map.in_order() <==> healthy(map.rows()),
        session.in_order() <==> healthy(session.rows()),
        snapshot.in_order() <==> healthy(snapshot.rows()),
        tx.in_order() <==> healthy(tx.rows()),
        reader.in_order() <==> healthy(reader.rows()),
        map.has_room(path_of(dir@)) <==> room(map.rows(), dir@.len() + 1),
        session.has_room(path_of(dir@)) <==> room(session.rows(), dir@.len() + 1),
        tx.has_room(path_of(dir@)) <==> room(tx.rows(), dir@.len() + 1),
        map.can_read() && map.can_write(),
        session.can_read() && session.can_write(),
        snapshot.can_read(),
        map.removable(path_of(dir@)) <==> dir@.len() > 0,
        session.removable(path_of(dir@)) <==> dir@.len() > 0,
        tx.removable(path_of(dir@)) <==> dir@.len() > 0,
        map.wf() ==> map.ready(),
        session.wf() ==> session.ready(),
        tx.wf() && tx.ready(),
{
    law_path(dir);
}

/// An in-memory commit always succeeds, and a durable one hands the transaction over.
pub proof fn law_commits<'s>(
    map: BTreeMapTransaction<'s>,
    r: Result<WriteSet, BTreeMapError>,
    tx: RedbTransaction,
    outcome: Result<WriteTransaction, RedbStorageError>,
)
    requires
        map.wf(),
        call_ensures(BTreeMapTransaction::commit, (map,), r),
        call_ensures(RedbTransaction::commit, (tx,), outcome),
    ensures
        r is Ok,
        outcome is Ok,
{
}

} // verus!
