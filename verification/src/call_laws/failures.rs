//! Why an operation fails: what each error says of the path that was asked for, of the
//! store and of the engine beneath.

use core::ops::Bound;

use redb::ReadTransaction;
use vstd::prelude::*;
use vstd::utf8::valid_utf8;

use crate::btreemap::{BTreeMapError, BTreeMapTransaction, BufViewError};
use crate::call_laws::order::law_path;
use crate::call_laws::stores::is_text_path;
use crate::directory_laws::{
    law_create_succeeds, law_listing_succeeds, law_lookup_succeeds, law_remove_succeeds,
};
use crate::durable::view::{engine_read_failed, engine_reader_failed, engine_write_failed};
use crate::durable::{
    probe_layout_version, RedbBackendError, RedbReader, RedbStorageError, RedbTransaction,
};
use crate::flatdir::error::FlatError;
use crate::flatdir::health::{healthy, room};
use crate::flatdir::layout::{parse_version, VERSION_KEY};
use crate::flatengine::{bad_path, refusal_of, DataBounds, FlatEngine, Refusal};
use crate::indexeddb::error::IndexedDbError;
use crate::indexeddb::session::{IndexedDbReader, IndexedDbTransaction};
use crate::key::{first_bad_segment, path_of, valid_path, KeyError};
use crate::nav::KvDirNav;
use crate::rawkv::{RawKv, Rows};
use crate::store::KvStore;
use crate::stream::{KvPair, KvStream};

verus! {

/// Whether an error names the first segment of a path that is no text.
pub open spec fn names_bad_segment(dir: &[&[u8]], k: KeyError) -> bool {
    k matches KeyError::DirSegmentNotUtf8 { segment } && segment < dir@.len() && !valid_utf8(
        dir@[segment as int]@,
    ) && forall|i: int| 0 <= i < segment ==> valid_utf8((#[trigger] dir@[i])@)
}

/// Whether a store states a version, as it was parsed, that this layout does not read.
pub open spec fn states_foreign(m: Rows, parsed: Option<(u32, u32, u32)>) -> bool {
    m.dom().contains(VERSION_KEY@) && !(parsed matches Some((major, minor, _)) && major <= 1
        && minor == 0)
}

/// Whether a refusal is the right one: the first bad segment comes first, then a foreign
/// version, and only then what is malformed, which is owed to a store out of order.
pub open spec fn is_right_refusal<E>(
    dir: &[&[u8]],
    foreign: bool,
    ordered: bool,
    e: FlatError<E>,
) -> bool {
    match e {
        FlatError::Key(k) => names_bad_segment(dir, k),
        FlatError::Foreign => is_text_path(dir) && foreign,
        FlatError::Corrupt => is_text_path(dir) && !foreign && !ordered,
        FlatError::Engine(_) => is_text_path(dir),
    }
}

/// A path that is refused is refused for its first bad segment.
proof fn lemma_bad_segment(dir: &[&[u8]])
    ensures
        is_text_path(dir) <==> valid_path(path_of(dir@)),
        !is_text_path(dir) ==> (bad_path(path_of(dir@)) matches Refusal::Key(k)
            && names_bad_segment(dir, k)),
{
    let path = path_of(dir@);
    law_path(dir);
    assert(dir.len() == dir@.len());
    if !is_text_path(dir) {
        let n = choose|n: int| 0 <= n < dir@.len() && !valid_utf8((#[trigger] dir@[n])@);
        let i = lemma_first_bad(dir, n);
        assert(first_bad_segment(path, (i as usize) as int)) by {
            assert forall|j: int| 0 <= j < i implies valid_utf8(#[trigger] path[j]) by {
                assert(valid_utf8(dir@[j]@));
            }
        }
        let s = choose|s: usize| first_bad_segment(path, s as int);
        assert(first_bad_segment(path, s as int));
        assert forall|j: int| 0 <= j < s implies valid_utf8((#[trigger] dir@[j])@) by {
            assert(valid_utf8(path[j]));
        }
    }
}

/// Where a segment is no text, there is a first one.
proof fn lemma_first_bad(dir: &[&[u8]], n: int) -> (i: int)
    requires
        0 <= n < dir@.len(),
        !valid_utf8(dir@[n]@),
    ensures
        0 <= i <= n,
        !valid_utf8(dir@[i]@),
        forall|j: int| 0 <= j < i ==> valid_utf8((#[trigger] dir@[j])@),
    decreases n,
{
    if exists|m: int| 0 <= m < n && !valid_utf8((#[trigger] dir@[m])@) {
        let m = choose|m: int| 0 <= m < n && !valid_utf8((#[trigger] dir@[m])@);
        lemma_first_bad(dir, m)
    } else {
        n
    }
}

// ---------------------------------------------------------------------------
// The layout
// ---------------------------------------------------------------------------

/// A read of a directory that fails says why: it names the first bad segment, or the
/// store is foreign, or it is out of order, or the view failed.
pub proof fn law_read_fails<R: RawKv>(
    e: FlatEngine<R>,
    dir: &[&[u8]],
    key: &[u8],
    start: Bound<&[u8]>,
    end: Bound<&[u8]>,
    forward: bool,
    version: &[u8],
    parsed: Option<(u32, u32, u32)>,
    error: FlatError<R::Error>,
)
    requires
        e.wf(),
        e.rows().dom().contains(VERSION_KEY@) ==> e.rows()[VERSION_KEY@] == version@,
        call_ensures(parse_version, (version,), parsed),
        call_ensures(
            FlatEngine::<R>::get,
            (&e, dir, key),
            Err::<Option<Vec<u8>>, FlatError<R::Error>>(error),
        ) || call_ensures(
            FlatEngine::<R>::scan,
            (&e, dir, start, end, forward),
            Err::<Vec<KvPair>, FlatError<R::Error>>(error),
        ) || call_ensures(
            FlatEngine::<R>::prefix_of,
            (&e, dir),
            Err::<Option<Vec<u8>>, FlatError<R::Error>>(error),
        ) || call_ensures(
            FlatEngine::<R>::data_bounds,
            (&e, dir, start, end),
            Err::<Option<DataBounds>, FlatError<R::Error>>(error),
        ) || call_ensures(
            FlatEngine::<R>::dir_exists,
            (&e, dir),
            Err::<bool, FlatError<R::Error>>(error),
        ) || call_ensures(
            FlatEngine::<R>::list_dirs,
            (&e, dir),
            Err::<Vec<Vec<u8>>, FlatError<R::Error>>(error),
        ),
    ensures
        is_right_refusal(dir, states_foreign(e.rows(), parsed), healthy(e.rows()), error),
        error is Engine ==> !e.terms().readable,
{
    lemma_bad_segment(dir);
    if is_text_path(dir) && healthy(e.rows()) {
        law_lookup_succeeds(e.rows(), path_of(dir@));
        law_listing_succeeds(e.rows(), path_of(dir@));
    }
}

/// A change of a directory that fails says why: it names the first bad segment, or the
/// root, which is not removed, or the store is foreign, or it is out of order or out of
/// room, or the view failed.
pub proof fn law_change_fails<R: RawKv>(
    before: FlatEngine<R>,
    dir: &[&[u8]],
    key: &[u8],
    value: &[u8],
    start: Bound<&[u8]>,
    end: Bound<&[u8]>,
    version: &[u8],
    parsed: Option<(u32, u32, u32)>,
    call: &mut FlatEngine<R>,
    error: FlatError<R::Error>,
)
    requires
        before.wf(),
        *call == before,
        before.rows().dom().contains(VERSION_KEY@) ==> before.rows()[VERSION_KEY@] == version@,
        call_ensures(parse_version, (version,), parsed),
        call_ensures(
            FlatEngine::<R>::set,
            (call, dir, key, value),
            Err::<(), FlatError<R::Error>>(error),
        ) || call_ensures(
            FlatEngine::<R>::delete,
            (call, dir, key),
            Err::<(), FlatError<R::Error>>(error),
        ) || call_ensures(
            FlatEngine::<R>::clear_range,
            (call, dir, start, end),
            Err::<(), FlatError<R::Error>>(error),
        ),
    ensures
        is_right_refusal(
            dir,
            states_foreign(before.rows(), parsed),
            healthy(before.rows()) && room(before.rows(), dir@.len() + 1),
            error,
        ),
        error is Engine ==> !before.terms().readable || !before.terms().writable,
        error is Key || error is Foreign ==> final(call).rows() == before.rows(),
{
    lemma_bad_segment(dir);
    let m = before.rows();
    let path = path_of(dir@);
    if is_text_path(dir) && healthy(m) {
        law_lookup_succeeds(m, path);
        if refusal_of(error) is Some && room(m, path.len() + 1) && crate::flatengine::create_refused(
            m,
            path,
            refusal_of(error)->0,
        ) {
            law_create_succeeds(m, path, refusal_of(error)->0);
        }
    }
}

/// A removal that fails says why: the root is never removed, and otherwise it fails as a
/// read does.
pub proof fn law_removal_fails<R: RawKv>(
    before: FlatEngine<R>,
    dir: &[&[u8]],
    version: &[u8],
    parsed: Option<(u32, u32, u32)>,
    call: &mut FlatEngine<R>,
    r: Result<bool, FlatError<R::Error>>,
)
    requires
        before.wf(),
        *call == before,
        before.rows().dom().contains(VERSION_KEY@) ==> before.rows()[VERSION_KEY@] == version@,
        call_ensures(parse_version, (version,), parsed),
        call_ensures(FlatEngine::<R>::remove_dir, (call, dir), r),
    ensures
        dir@.len() == 0 <==> (r matches Err(FlatError::Key(KeyError::RootNotRemovable))),
        dir@.len() > 0 ==> (r matches Err(error) ==> is_right_refusal(
            dir,
            states_foreign(before.rows(), parsed),
            healthy(before.rows()),
            error,
        )),
        r matches Err(error) ==> (error is Key || error is Foreign ==> final(call).rows()
            == before.rows()),
{
    lemma_bad_segment(dir);
    let m = before.rows();
    let path = path_of(dir@);
    if is_text_path(dir) && healthy(m) && dir@.len() > 0 && r is Err && refusal_of(r->Err_0) is Some {
        law_remove_succeeds(m, path, refusal_of(r->Err_0)->0);
    }
}

// ---------------------------------------------------------------------------
// In memory
// ---------------------------------------------------------------------------

/// An operation of an in-memory transaction that fails says why; the view beneath never
/// fails.
pub proof fn law_map_fails<'s>(
    before: BTreeMapTransaction<'s>,
    call: &mut BTreeMapTransaction<'s>,
    dir: &[&[u8]],
    key: &[u8],
    value: &[u8],
    start: Bound<&[u8]>,
    end: Bound<&[u8]>,
    version: &[u8],
    parsed: Option<(u32, u32, u32)>,
    error: BTreeMapError,
)
    requires
        before.wf(),
        *call == before,
        before.rows().dom().contains(VERSION_KEY@) ==> before.rows()[VERSION_KEY@] == version@,
        call_ensures(parse_version, (version,), parsed),
        call_ensures(
            BTreeMapTransaction::get,
            (&before, dir, key),
            Err::<Option<Vec<u8>>, BTreeMapError>(error),
        ) || call_ensures(
            BTreeMapTransaction::dir_exists,
            (&before, dir),
            Err::<bool, BTreeMapError>(error),
        ) || call_ensures(
            BTreeMapTransaction::list_dirs,
            (&before, dir),
            Err::<Vec<Vec<u8>>, BTreeMapError>(error),
        ) || call_ensures(
            BTreeMapTransaction::set,
            (call, dir, key, value),
            Err::<(), BTreeMapError>(error),
        ) || call_ensures(
            BTreeMapTransaction::delete,
            (call, dir, key),
            Err::<(), BTreeMapError>(error),
        ) || call_ensures(
            BTreeMapTransaction::clear_range,
            (call, dir, start, end),
            Err::<(), BTreeMapError>(error),
        ) || (dir@.len() > 0 && call_ensures(
            BTreeMapTransaction::remove_dir,
            (call, dir),
            Err::<bool, BTreeMapError>(error),
        )),
    ensures
        is_right_refusal(
            dir,
            states_foreign(before.rows(), parsed),
            before.in_order() && before.has_room(path_of(dir@)),
            error.0,
        ),
        !(error.0 is Engine),
{
    lemma_bad_segment(dir);
    let m = before.rows();
    let path = path_of(dir@);
    let f = error.refusal()->0;
    if is_text_path(dir) && healthy(m) {
        law_lookup_succeeds(m, path);
        law_listing_succeeds(m, path);
        if room(m, path.len() + 1) && crate::flatengine::create_refused(m, path, f) {
            law_create_succeeds(m, path, f);
        }
        if dir@.len() > 0 && crate::directory_laws::remove_refused(m, path, f) {
            law_remove_succeeds(m, path, f);
        }
    }
}

/// A scan of an in-memory transaction that fails says why, before any pair.
pub proof fn law_map_scan_fails<'s>(
    tx: BTreeMapTransaction<'s>,
    dir: &[&[u8]],
    start: Bound<&[u8]>,
    end: Bound<&[u8]>,
    reverse: bool,
    stream: KvStream<BTreeMapError>,
    version: &[u8],
    parsed: Option<(u32, u32, u32)>,
    error: BTreeMapError,
)
    requires
        tx.wf(),
        tx.rows().dom().contains(VERSION_KEY@) ==> tx.rows()[VERSION_KEY@] == version@,
        call_ensures(parse_version, (version,), parsed),
        call_ensures(BTreeMapTransaction::range, (&tx, dir, start, end, reverse), stream),
        call_ensures(
            KvStream::<BTreeMapError>::collect,
            (stream,),
            Err::<Vec<KvPair>, BTreeMapError>(error),
        ),
    ensures
        is_right_refusal(dir, states_foreign(tx.rows(), parsed), tx.in_order(), error.0),
        !(error.0 is Engine),
        stream.items().len() == 0,
{
    lemma_bad_segment(dir);
    if is_text_path(dir) && healthy(tx.rows()) {
        law_lookup_succeeds(tx.rows(), path_of(dir@));
    }
}

// ---------------------------------------------------------------------------
// In the browser
// ---------------------------------------------------------------------------

/// Whether a browser error is the right refusal.
pub open spec fn is_right_session_error(
    dir: &[&[u8]],
    foreign: bool,
    ordered: bool,
    e: IndexedDbError,
) -> bool {
    match e {
        IndexedDbError::Key(k) => names_bad_segment(dir, k),
        IndexedDbError::Foreign => is_text_path(dir) && foreign,
        IndexedDbError::Corrupt { detail } => detail@ == "directory layout is malformed"@
            && is_text_path(dir) && !foreign && !ordered,
        _ => false,
    }
}

/// An operation of a browser session that fails says why; the snapshot beneath never
/// fails.
pub proof fn law_session_fails(
    before: IndexedDbTransaction,
    call: &mut IndexedDbTransaction,
    dir: &[&[u8]],
    key: &[u8],
    value: &[u8],
    start: Bound<&[u8]>,
    end: Bound<&[u8]>,
    version: &[u8],
    parsed: Option<(u32, u32, u32)>,
    error: IndexedDbError,
)
    requires
        before.wf(),
        *call == before,
        before.rows().dom().contains(VERSION_KEY@) ==> before.rows()[VERSION_KEY@] == version@,
        call_ensures(parse_version, (version,), parsed),
        call_ensures(
            IndexedDbTransaction::get,
            (&before, dir, key),
            Err::<Option<Vec<u8>>, IndexedDbError>(error),
        ) || call_ensures(
            IndexedDbTransaction::dir_exists,
            (&before, dir),
            Err::<bool, IndexedDbError>(error),
        ) || call_ensures(
            IndexedDbTransaction::list_dirs,
            (&before, dir),
            Err::<Vec<Vec<u8>>, IndexedDbError>(error),
        ) || call_ensures(
            IndexedDbTransaction::set,
            (call, dir, key, value),
            Err::<(), IndexedDbError>(error),
        ) || call_ensures(
            IndexedDbTransaction::delete,
            (call, dir, key),
            Err::<(), IndexedDbError>(error),
        ) || call_ensures(
            IndexedDbTransaction::clear_range,
            (call, dir, start, end),
            Err::<(), IndexedDbError>(error),
        ) || (dir@.len() > 0 && call_ensures(
            IndexedDbTransaction::remove_dir,
            (call, dir),
            Err::<bool, IndexedDbError>(error),
        )),
    ensures
        is_right_session_error(
            dir,
            states_foreign(before.rows(), parsed),
            before.in_order() && before.has_room(path_of(dir@)),
            error,
        ),
{
    lemma_bad_segment(dir);
    let m = before.rows();
    let path = path_of(dir@);
    if is_text_path(dir) && healthy(m) {
        law_lookup_succeeds(m, path);
        law_listing_succeeds(m, path);
        assert forall|f: Refusal| room(m, path.len() + 1) implies !#[trigger]
            crate::flatengine::create_refused(m, path, f) by {
            if crate::flatengine::create_refused(m, path, f) {
                law_create_succeeds(m, path, f);
            }
        }
        assert forall|f: Refusal| dir@.len() > 0 implies !#[trigger]
            crate::directory_laws::remove_refused(m, path, f) by {
            if crate::directory_laws::remove_refused(m, path, f) {
                law_remove_succeeds(m, path, f);
            }
        }
    }
}

/// A read of a browser reader that fails says why.
pub proof fn law_reader_fails(
    reader: IndexedDbReader,
    dir: &[&[u8]],
    key: &[u8],
    version: &[u8],
    parsed: Option<(u32, u32, u32)>,
    error: IndexedDbError,
)
    requires
        reader.wf(),
        reader.rows().dom().contains(VERSION_KEY@) ==> reader.rows()[VERSION_KEY@] == version@,
        call_ensures(parse_version, (version,), parsed),
        call_ensures(
            IndexedDbReader::get,
            (&reader, dir, key),
            Err::<Option<Vec<u8>>, IndexedDbError>(error),
        ) || call_ensures(
            IndexedDbReader::dir_exists,
            (&reader, dir),
            Err::<bool, IndexedDbError>(error),
        ) || call_ensures(
            IndexedDbReader::list_dirs,
            (&reader, dir),
            Err::<Vec<Vec<u8>>, IndexedDbError>(error),
        ),
    ensures
        is_right_session_error(
            dir,
            states_foreign(reader.rows(), parsed),
            reader.in_order(),
            error,
        ),
{
    lemma_bad_segment(dir);
    if is_text_path(dir) && healthy(reader.rows()) {
        law_lookup_succeeds(reader.rows(), path_of(dir@));
        law_listing_succeeds(reader.rows(), path_of(dir@));
    }
}

// ---------------------------------------------------------------------------
// Durable
// ---------------------------------------------------------------------------

/// An operation of a durable transaction that fails says why; where it is the engine that
/// failed, the text is what the engine answered.
pub(crate) proof fn law_durable_fails(
    before: RedbTransaction,
    call: &mut RedbTransaction,
    dir: &[&[u8]],
    key: &[u8],
    value: &[u8],
    start: Bound<&[u8]>,
    end: Bound<&[u8]>,
    version: &[u8],
    parsed: Option<(u32, u32, u32)>,
    error: RedbStorageError,
)
    requires
        *call == before,
        before.rows().dom().contains(VERSION_KEY@) ==> before.rows()[VERSION_KEY@] == version@,
        call_ensures(parse_version, (version,), parsed),
        call_ensures(
            RedbTransaction::get,
            (&before, dir, key),
            Err::<Option<Vec<u8>>, RedbStorageError>(error),
        ) || call_ensures(
            RedbTransaction::dir_exists,
            (&before, dir),
            Err::<bool, RedbStorageError>(error),
        ) || call_ensures(
            RedbTransaction::list_dirs,
            (&before, dir),
            Err::<Vec<Vec<u8>>, RedbStorageError>(error),
        ) || call_ensures(
            RedbTransaction::data_bounds,
            (&before, dir, start, end),
            Err::<Option<DataBounds>, RedbStorageError>(error),
        ) || call_ensures(
            RedbTransaction::set,
            (call, dir, key, value),
            Err::<(), RedbStorageError>(error),
        ) || call_ensures(
            RedbTransaction::delete,
            (call, dir, key),
            Err::<(), RedbStorageError>(error),
        ) || call_ensures(
            RedbTransaction::clear_range,
            (call, dir, start, end),
            Err::<(), RedbStorageError>(error),
        ) || (dir@.len() > 0 && call_ensures(
            RedbTransaction::remove_dir,
            (call, dir),
            Err::<bool, RedbStorageError>(error),
        )),
    ensures
        is_right_refusal(
            dir,
            states_foreign(before.rows(), parsed),
            before.in_order() && before.has_room(path_of(dir@)),
            error.0,
        ),
        error.0 matches FlatError::Engine(x) ==> (x matches RedbBackendError::Backend(text) && (
        engine_read_failed(text) || engine_write_failed(text))),
{
    lemma_bad_segment(dir);
    let m = before.rows();
    let path = path_of(dir@);
    if refusal_of(error.0) is Some {
        let f = refusal_of(error.0)->0;
        if is_text_path(dir) && healthy(m) {
            law_lookup_succeeds(m, path);
            law_listing_succeeds(m, path);
            if room(m, path.len() + 1) && crate::flatengine::create_refused(m, path, f) {
                law_create_succeeds(m, path, f);
            }
            if dir@.len() > 0 && crate::directory_laws::remove_refused(m, path, f) {
                law_remove_succeeds(m, path, f);
            }
        }
    } else {
        crate::durable::transaction::lemma_reported(before, false, error);
    }
}

/// A scan or a cursor step of a durable transaction that fails says why.
pub(crate) proof fn law_durable_scan_fails(
    tx: RedbTransaction,
    dir: &[&[u8]],
    start: Bound<&[u8]>,
    end: Bound<&[u8]>,
    reverse: bool,
    stream: KvStream<RedbStorageError>,
    left: DataBounds,
    version: &[u8],
    parsed: Option<(u32, u32, u32)>,
    error: RedbStorageError,
    step_error: RedbStorageError,
)
    requires
        tx.rows().dom().contains(VERSION_KEY@) ==> tx.rows()[VERSION_KEY@] == version@,
        call_ensures(parse_version, (version,), parsed),
        call_ensures(RedbTransaction::range, (&tx, dir, start, end, reverse), stream),
        call_ensures(
            KvStream::<RedbStorageError>::collect,
            (stream,),
            Err::<Vec<KvPair>, RedbStorageError>(error),
        ),
        call_ensures(
            RedbTransaction::next_row,
            (&tx, left, reverse),
            Err::<Option<(KvPair, DataBounds)>, RedbStorageError>(step_error),
        ),
    ensures
        is_right_refusal(dir, states_foreign(tx.rows(), parsed), tx.in_order(), error.0),
        error.0 matches FlatError::Engine(x) ==> (x matches RedbBackendError::Backend(text)
            && engine_read_failed(text)),
        step_error.0 matches FlatError::Engine(RedbBackendError::Backend(text))
            && engine_read_failed(text),
{
    lemma_bad_segment(dir);
    if is_text_path(dir) && healthy(tx.rows()) {
        law_lookup_succeeds(tx.rows(), path_of(dir@));
    }
    if refusal_of(error.0) is None {
        crate::durable::transaction::lemma_reported(tx, reverse, error);
    }
    assert(tx.walk_reported(reverse, step_error));
    crate::durable::transaction::lemma_reported(tx, reverse, step_error);
}

/// A read of a durable reader that fails says why.
pub(crate) proof fn law_durable_reader_fails(
    before: RedbReader,
    dir: &[&[u8]],
    key: &[u8],
    start: Bound<&[u8]>,
    end: Bound<&[u8]>,
    version: &[u8],
    parsed: Option<(u32, u32, u32)>,
    error: RedbStorageError,
)
    requires
        before.rows().dom().contains(VERSION_KEY@) ==> before.rows()[VERSION_KEY@] == version@,
        call_ensures(parse_version, (version,), parsed),
        call_ensures(
            RedbReader::get,
            (&before, dir, key),
            Err::<Option<Vec<u8>>, RedbStorageError>(error),
        ) || call_ensures(
            RedbReader::dir_exists,
            (&before, dir),
            Err::<bool, RedbStorageError>(error),
        ) || call_ensures(
            RedbReader::list_dirs,
            (&before, dir),
            Err::<Vec<Vec<u8>>, RedbStorageError>(error),
        ) || call_ensures(
            RedbReader::data_bounds,
            (&before, dir, start, end),
            Err::<Option<DataBounds>, RedbStorageError>(error),
        ),
    ensures
        is_right_refusal(dir, states_foreign(before.rows(), parsed), before.in_order(), error.0),
        error.0 matches FlatError::Engine(x) ==> (x matches RedbBackendError::Backend(text)
            && engine_reader_failed(text)),
{
    lemma_bad_segment(dir);
    if is_text_path(dir) && healthy(before.rows()) {
        law_lookup_succeeds(before.rows(), path_of(dir@));
        law_listing_succeeds(before.rows(), path_of(dir@));
    }
    if refusal_of(error.0) is None {
        crate::durable::reader::lemma_reported(before, false, error);
    }
}

/// A durable reader removes nothing: where there is such a directory the removal fails,
/// where there is none it reports that none was removed.
pub(crate) proof fn law_durable_reader_keeps(
    before: RedbReader,
    call: &mut RedbReader,
    dir: &[&[u8]],
    there: Result<bool, RedbStorageError>,
    removal: Result<bool, RedbStorageError>,
)
    requires
        *call == before,
        before.in_order(),
        dir@.len() > 0,
        is_text_path(dir),
        call_ensures(RedbReader::dir_exists, (&before, dir), there),
        call_ensures(RedbReader::remove_dir, (call, dir), removal),
    ensures
        final(call).rows() == before.rows(),
        !(removal matches Ok(true)),
        there matches Ok(true) ==> removal is Err,
        removal matches Err(e) ==> (e.0 matches FlatError::Engine(x) && match x {
            RedbBackendError::Backend(text) => engine_reader_failed(text),
            RedbBackendError::ReadOnly => !(there matches Ok(false)),
            RedbBackendError::LayoutVersionMismatch => false,
        }),
{
    lemma_bad_segment(dir);
    let m = before.rows();
    let path = path_of(dir@);
    law_lookup_succeeds(m, path);
    if removal is Err {
        let e = removal->Err_0;
        if refusal_of(e.0) is Some {
            law_remove_succeeds(m, path, refusal_of(e.0)->0);
        } else if crate::durable::error::is_engine_failure(e) {
            crate::durable::reader::lemma_reported(before, false, e);
        }
    }
}

/// A change that is refused for its path or for the version of the store changes nothing,
/// and a delete or a clear that is refused changes nothing at all.
pub proof fn law_map_refused<'s>(
    before: BTreeMapTransaction<'s>,
    call: &mut BTreeMapTransaction<'s>,
    dir: &[&[u8]],
    key: &[u8],
    value: &[u8],
    start: Bound<&[u8]>,
    end: Bound<&[u8]>,
    error: BTreeMapError,
)
    requires
        before.wf(),
        *call == before,
        ((error.0 is Key || error.0 is Foreign) && (call_ensures(
            BTreeMapTransaction::set,
            (call, dir, key, value),
            Err::<(), BTreeMapError>(error),
        ) || call_ensures(
            BTreeMapTransaction::remove_dir,
            (call, dir),
            Err::<bool, BTreeMapError>(error),
        ))) || ((call_ensures(
            BTreeMapTransaction::delete,
            (call, dir, key),
            Err::<(), BTreeMapError>(error),
        ) || call_ensures(
            BTreeMapTransaction::clear_range,
            (call, dir, start, end),
            Err::<(), BTreeMapError>(error),
        ))),
    ensures
        final(call).rows() == before.rows(),
{
    lemma_bad_segment(dir);
}

/// A change that is refused for its path or for the version of the store changes nothing,
/// and a delete or a clear that is refused changes nothing at all.
pub proof fn law_session_refused(
    before: IndexedDbTransaction,
    call: &mut IndexedDbTransaction,
    dir: &[&[u8]],
    key: &[u8],
    value: &[u8],
    start: Bound<&[u8]>,
    end: Bound<&[u8]>,
    error: IndexedDbError,
)
    requires
        before.wf(),
        *call == before,
        ((error is Key || error is Foreign) && (call_ensures(
            IndexedDbTransaction::set,
            (call, dir, key, value),
            Err::<(), IndexedDbError>(error),
        ) || call_ensures(
            IndexedDbTransaction::remove_dir,
            (call, dir),
            Err::<bool, IndexedDbError>(error),
        ))) || ((call_ensures(
            IndexedDbTransaction::delete,
            (call, dir, key),
            Err::<(), IndexedDbError>(error),
        ) || call_ensures(
            IndexedDbTransaction::clear_range,
            (call, dir, start, end),
            Err::<(), IndexedDbError>(error),
        ))),
    ensures
        final(call).rows() == before.rows(),
{
    lemma_bad_segment(dir);
}

/// A change that is refused for its path or for the version of the store changes nothing,
/// and a delete or a clear that is refused changes nothing at all.
pub proof fn law_durable_refused(
    before: RedbTransaction,
    call: &mut RedbTransaction,
    dir: &[&[u8]],
    key: &[u8],
    value: &[u8],
    start: Bound<&[u8]>,
    end: Bound<&[u8]>,
    error: RedbStorageError,
)
    requires
        before.wf(),
        *call == before,
        ((error.0 is Key || error.0 is Foreign) && (call_ensures(
            RedbTransaction::set,
            (call, dir, key, value),
            Err::<(), RedbStorageError>(error),
        ) || call_ensures(
            RedbTransaction::remove_dir,
            (call, dir),
            Err::<bool, RedbStorageError>(error),
        ))) || (!(error.0 is Engine) && (call_ensures(
            RedbTransaction::delete,
            (call, dir, key),
            Err::<(), RedbStorageError>(error),
        ) || call_ensures(
            RedbTransaction::clear_range,
            (call, dir, start, end),
            Err::<(), RedbStorageError>(error),
        ))),
    ensures
        final(call).rows() == before.rows(),
{
    lemma_bad_segment(dir);
}

/// A scan of a browser session that fails says why, before any pair.
pub proof fn law_session_scan_fails(
    tx: IndexedDbTransaction,
    dir: &[&[u8]],
    start: Bound<&[u8]>,
    end: Bound<&[u8]>,
    reverse: bool,
    stream: KvStream<IndexedDbError>,
    version: &[u8],
    parsed: Option<(u32, u32, u32)>,
    error: IndexedDbError,
)
    requires
        tx.wf(),
        tx.rows().dom().contains(VERSION_KEY@) ==> tx.rows()[VERSION_KEY@] == version@,
        call_ensures(parse_version, (version,), parsed),
        call_ensures(IndexedDbTransaction::range, (&tx, dir, start, end, reverse), stream),
        call_ensures(
            KvStream::<IndexedDbError>::collect,
            (stream,),
            Err::<Vec<KvPair>, IndexedDbError>(error),
        ),
    ensures
        is_right_session_error(dir, states_foreign(tx.rows(), parsed), tx.in_order(), error),
        stream.items().len() == 0,
{
    lemma_bad_segment(dir);
    if is_text_path(dir) && healthy(tx.rows()) {
        law_lookup_succeeds(tx.rows(), path_of(dir@));
    }
}

/// A scan of a browser reader that fails says why, before any pair.
pub proof fn law_reader_scan_fails(
    tx: IndexedDbReader,
    dir: &[&[u8]],
    start: Bound<&[u8]>,
    end: Bound<&[u8]>,
    reverse: bool,
    stream: KvStream<IndexedDbError>,
    version: &[u8],
    parsed: Option<(u32, u32, u32)>,
    error: IndexedDbError,
)
    requires
        tx.wf(),
        tx.rows().dom().contains(VERSION_KEY@) ==> tx.rows()[VERSION_KEY@] == version@,
        call_ensures(parse_version, (version,), parsed),
        call_ensures(IndexedDbReader::range, (&tx, dir, start, end, reverse), stream),
        call_ensures(
            KvStream::<IndexedDbError>::collect,
            (stream,),
            Err::<Vec<KvPair>, IndexedDbError>(error),
        ),
    ensures
        is_right_session_error(dir, states_foreign(tx.rows(), parsed), tx.in_order(), error),
        stream.items().len() == 0,
{
    lemma_bad_segment(dir);
    if is_text_path(dir) && healthy(tx.rows()) {
        law_lookup_succeeds(tx.rows(), path_of(dir@));
    }
}

/// A scan of a durable reader that fails says why, and so does a step of its cursor.
pub(crate) proof fn law_durable_reader_scan_fails(
    tx: RedbReader,
    dir: &[&[u8]],
    start: Bound<&[u8]>,
    end: Bound<&[u8]>,
    reverse: bool,
    stream: KvStream<RedbStorageError>,
    left: DataBounds,
    version: &[u8],
    parsed: Option<(u32, u32, u32)>,
    error: RedbStorageError,
    step_error: RedbStorageError,
)
    requires
        tx.rows().dom().contains(VERSION_KEY@) ==> tx.rows()[VERSION_KEY@] == version@,
        call_ensures(parse_version, (version,), parsed),
        call_ensures(RedbReader::range, (&tx, dir, start, end, reverse), stream),
        call_ensures(
            KvStream::<RedbStorageError>::collect,
            (stream,),
            Err::<Vec<KvPair>, RedbStorageError>(error),
        ),
        call_ensures(
            RedbReader::next_row,
            (&tx, left, reverse),
            Err::<Option<(KvPair, DataBounds)>, RedbStorageError>(step_error),
        ),
    ensures
        is_right_refusal(dir, states_foreign(tx.rows(), parsed), tx.in_order(), error.0),
        error.0 matches FlatError::Engine(x) ==> (x matches RedbBackendError::Backend(text)
            && engine_reader_failed(text)),
        step_error.0 matches FlatError::Engine(RedbBackendError::Backend(text))
            && engine_reader_failed(text),
{
    lemma_bad_segment(dir);
    if is_text_path(dir) && healthy(tx.rows()) {
        law_lookup_succeeds(tx.rows(), path_of(dir@));
    }
    if refusal_of(error.0) is None {
        crate::durable::reader::lemma_reported(tx, reverse, error);
    }
    assert(tx.walk_reported(reverse, step_error));
    crate::durable::reader::lemma_reported(tx, reverse, step_error);
}

/// A database that is probed opens exactly if it has no version row or one of a version
/// that this layout reads, unless the engine fails.
pub proof fn law_probe(
    tx: &ReadTransaction,
    version: &[u8],
    parsed: Option<(u32, u32, u32)>,
    reader: RedbReader,
    r: Result<(), RedbStorageError>,
)
    requires
        call_ensures(RedbReader::new, (*tx,), reader),
        reader.rows().dom().contains(VERSION_KEY@) ==> reader.rows()[VERSION_KEY@] == version@,
        call_ensures(parse_version, (version,), parsed),
        call_ensures(probe_layout_version, (tx,), r),
    ensures
        match r {
            Ok(()) => !states_foreign(reader.rows(), parsed),
            Err(RedbStorageError(FlatError::Engine(RedbBackendError::LayoutVersionMismatch))) => {
                states_foreign(reader.rows(), parsed)
            },
            Err(e) => e.0 matches FlatError::Engine(RedbBackendError::Backend(_)),
        },
{
}

/// An error that is wrapped keeps what it says.
pub proof fn law_wrapped(
    a: FlatError<BufViewError>,
    b: FlatError<RedbBackendError>,
    c: RedbBackendError,
    x: BTreeMapError,
    y: RedbStorageError,
    z: RedbStorageError,
)
    requires
        call_ensures(<BTreeMapError as From<FlatError<BufViewError>>>::from, (a,), x),
        call_ensures(<RedbStorageError as From<FlatError<RedbBackendError>>>::from, (b,), y),
        call_ensures(<RedbStorageError as From<RedbBackendError>>::from, (c,), z),
    ensures
        x.0 == a,
        y.0 == b,
        z.0 == FlatError::<RedbBackendError>::Engine(c),
{
}

} // verus!
