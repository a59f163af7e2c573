//! The read-only handle.

use core::ops::Bound;

use redb::ReadTransaction;
use vstd::prelude::*;

use crate::directory_laws::{
    dir_found, extends, law_listing_everywhere, law_remove_everywhere, lists, removes,
};
use crate::durable::error::{
    is_engine_failure, is_read_only, listing_fails, lookup_fails, removal_fails, RedbBackendError,
    RedbStorageError,
};
use crate::durable::scan::{
    confined, cursor_step, dir_cursor, held, is_step, lemma_confined, lemma_no_scan, seek_failed,
};
use crate::durable::table::{read_table, table_rows, TABLE_NAME};
use crate::durable::view::{engine_reader_failed, lemma_engine_reader_failed, RedbReadView};
use crate::flatdir::error::FlatError;
use crate::flatdir::health::{healthy, room};
use crate::flatengine::{
    bad_path, byte_strings, dir_content, lemma_bad_path, lookup, names_no_keys, raw_end, raw_start,
    refusal_of, DataBounds, FlatEngine, Refusal,
};
use crate::key::{path_of, valid_path, validate_dir};
use crate::keyspace::{bound_of, owned_bound_of, successor};
use crate::nav::KvDirNav;
use crate::rawkv::Rows;
use crate::store::{KvStore, Origin};
use crate::stream::{KvPair, KvStream};

verus! {

/// A read-only handle over one redb read transaction. Every mutation is refused.
pub struct RedbReader {
    engine: FlatEngine<RedbReadView>,
}

impl RedbReader {
    /// The rows that the reader sees.
    pub closed spec fn rows(&self) -> Rows {
        self.engine.rows()
    }

    /// Whether an error hands on what the engine answered to a read of the
    /// transaction.
    pub closed spec fn read_reported(&self, e: RedbStorageError) -> bool {
        e.0 matches FlatError::Engine(RedbBackendError::Backend(text))
            && self.engine.view_of().read_reported(text)
    }

    /// Whether an error hands on what the engine answered to a seek for one row.
    pub closed spec fn seek_reported(
        &self,
        start: Bound<Seq<u8>>,
        end: Bound<Seq<u8>>,
        reverse: bool,
        e: RedbStorageError,
    ) -> bool {
        e.0 matches FlatError::Engine(RedbBackendError::Backend(text))
            && self.engine.view_of().seek_reported(start, end, reverse, text)
    }

    /// Whether an error hands on what the engine answered to a seek in the course of
    /// a walk.
    pub open spec fn walk_reported(&self, reverse: bool, e: RedbStorageError) -> bool {
        exists|start: Bound<Seq<u8>>, end: Bound<Seq<u8>>| #[trigger]
            self.seek_reported(start, end, reverse, e)
    }

    /// Whether an error hands on what the engine answered to a read, on the way of an
    /// operation that makes several.
    pub closed spec fn engine_reported(e: RedbStorageError) -> bool {
        e.0 matches FlatError::Engine(RedbBackendError::Backend(text)) && exists|
            view: RedbReadView,
        | #[trigger]
            view.read_reported(text)
    }

    /// A handle over a read transaction.
    pub fn new(tx: ReadTransaction) -> (r: Self)
        ensures
            r.wf(),
            r.rows() == table_rows(read_table(tx, TABLE_NAME@)),
    {
        RedbReader { engine: FlatEngine::new(RedbReadView::new(tx)) }
    }

    /// The raw range holding `dir`'s data for the keys between `start` and `end`,
    /// for a cursor over it; `None` where there is no such directory or the
    /// bounds name no keys.
    pub fn data_bounds(&self, dir: &[&[u8]], start: Bound<&[u8]>, end: Bound<&[u8]>) -> (r: Result<
        Option<DataBounds>,
        RedbStorageError,
    >)
        ensures
            match r {
                Ok(Some(b)) => {
                    &&& lookup(self.rows(), path_of(dir@)) == Ok::<Option<Seq<u8>>, Refusal>(
                        Some(b.prefix@),
                    )
                    &&& owned_bound_of(b.start) == raw_start(b.prefix@, bound_of(start))
                    &&& owned_bound_of(b.end) == raw_end(b.prefix@, bound_of(end))
                    &&& successor(b.prefix@) is Some
                    &&& !names_no_keys(b.prefix@, bound_of(start), bound_of(end))
                    &&& confined(b)
                    &&& held(b)
                },
                Ok(None) => match lookup(self.rows(), path_of(dir@)) {
                    Ok(Some(p)) => names_no_keys(p, bound_of(start), bound_of(end)),
                    Ok(None) => true,
                    Err(_) => false,
                },
                Err(e) => {
                    &&& lookup_fails(self.rows(), path_of(dir@), e)
                    &&& is_engine_failure(e) ==> self.read_reported(e)
                },
            },
    {
        match self.engine.data_bounds(dir, start, end) {
            Ok(Some(b)) => {
                proof {
                    lemma_confined(b, bound_of(start), bound_of(end));
                }
                Ok(Some(b))
            },
            Ok(None) => Ok(None),
            Err(e) => Err(RedbStorageError(e)),
        }
    }

    /// One step of a cursor over what is left of a raw range.
    pub fn next_row(&self, left: DataBounds, reverse: bool) -> (r: Result<
        Option<(KvPair, DataBounds)>,
        RedbStorageError,
    >)
        requires
            confined(left),
        ensures
            match r {
                Ok(step) => {
                    &&& is_step(self.rows(), left, reverse, step)
                    &&& step matches Some((_, next)) ==> confined(next)
                    &&& step matches Some((_, next)) ==> held(left) ==> held(next)
                },
                Err(e) => self.seek_reported(
                    owned_bound_of(left.start),
                    owned_bound_of(left.end),
                    reverse,
                    e,
                ),
            },
    {
        cursor_step(self.engine.raw(), left, reverse)
    }
}

/// Whether an error is the one that a reader refuses a write with: an invalid path
/// is reported before the refusal.
pub open spec fn is_write_refused(dir: Seq<Seq<u8>>, e: RedbStorageError) -> bool {
    if valid_path(dir) {
        e.0 == FlatError::<RedbBackendError>::Engine(RedbBackendError::ReadOnly)
    } else {
        refusal_of(e.0) == Some(bad_path(dir))
    }
}

/// Refuses a write.
fn refuse(dir: &[&[u8]]) -> (r: RedbStorageError)
    ensures
        is_write_refused(path_of(dir@), r),
{
    match validate_dir(dir) {
        Ok(()) => RedbStorageError(FlatError::Engine(RedbBackendError::ReadOnly)),
        Err(e) => {
            proof {
                lemma_bad_path(path_of(dir@), e);
            }
            RedbStorageError(FlatError::Key(e))
        },
    }
}

impl KvStore for RedbReader {
    type Error = RedbStorageError;

    open spec fn wf(&self) -> bool {
        true
    }

    open spec fn in_order(&self) -> bool {
        healthy(self.rows())
    }

    open spec fn can_read(&self) -> bool {
        false
    }

    open spec fn can_write(&self) -> bool {
        false
    }

    open spec fn content_of(&self, dir: Seq<Seq<u8>>) -> Rows {
        dir_content(self.rows(), dir)
    }

    open spec fn dir_there(&self, dir: Seq<Seq<u8>>) -> bool {
        dir_found(self.rows(), dir)
    }

    open spec fn origin(&self) -> Origin {
        Origin { rows: self.rows(), revision: None }
    }

    open spec fn has_room(&self, dir: Seq<Seq<u8>>) -> bool {
        room(self.rows(), dir.len() + 1)
    }

    fn get(&self, dir: &[&[u8]], key: &[u8]) -> (r: Result<Option<Vec<u8>>, RedbStorageError>)
        ensures
            match r {
                Ok(_) => lookup(self.rows(), path_of(dir@)) is Ok,
                Err(e) => {
                    &&& lookup_fails(self.rows(), path_of(dir@), e)
                    &&& is_engine_failure(e) ==> self.read_reported(e)
                },
            },
    {
        match self.engine.get(dir, key) {
            Ok(v) => Ok(v),
            Err(e) => Err(RedbStorageError(e)),
        }
    }

    fn set(&mut self, dir: &[&[u8]], key: &[u8], value: &[u8]) -> (r: Result<(), RedbStorageError>)
        ensures
            *final(self) == *old(self),
            r matches Err(e) && is_write_refused(path_of(dir@), e),
    {
        Err(refuse(dir))
    }

    fn delete(&mut self, dir: &[&[u8]], key: &[u8]) -> (r: Result<(), RedbStorageError>)
        ensures
            *final(self) == *old(self),
            r matches Err(e) && is_write_refused(path_of(dir@), e),
    {
        Err(refuse(dir))
    }

    fn range(&self, dir: &[&[u8]], start: Bound<&[u8]>, end: Bound<&[u8]>, reverse: bool) -> (r:
        KvStream<RedbStorageError>)
        ensures
            match r.failure() {
                None => lookup(self.rows(), path_of(dir@)) is Ok,
                Some(e) => {
                    &&& lookup_fails(self.rows(), path_of(dir@), e)
                    &&& is_engine_failure(e) ==> self.read_reported(e) || self.walk_reported(
                        reverse,
                        e,
                    )
                },
            },
    {
        let ghost from = bound_of(start);
        let ghost to = bound_of(end);
        match self.data_bounds(dir, start, end) {
            Ok(Some(b)) => {
                let stream = dir_cursor(self.engine.raw(), b, reverse, Ghost(from), Ghost(to));
                proof {
                    if let Some(e) = stream.failure() {
                        let (s, t) = choose|s: Bound<Seq<u8>>, t: Bound<Seq<u8>>| #[trigger]
                            seek_failed(self.engine.view_of(), s, t, reverse, e);
                        assert(self.seek_reported(s, t, reverse, e));
                    }
                }
                stream
            },
            Ok(None) => {
                proof {
                    lemma_no_scan(self.rows(), path_of(dir@), from, to, !reverse);
                }
                KvStream::empty()
            },
            Err(e) => KvStream::failed(e),
        }
    }

    fn clear_range(&mut self, dir: &[&[u8]], start: Bound<&[u8]>, end: Bound<&[u8]>) -> (r: Result<
        (),
        RedbStorageError,
    >)
        ensures
            *final(self) == *old(self),
            r matches Err(e) && is_write_refused(path_of(dir@), e),
    {
        Err(refuse(dir))
    }
}

impl KvDirNav for RedbReader {
    open spec fn removable(&self, dir: Seq<Seq<u8>>) -> bool {
        dir.len() > 0
    }

    fn list_dirs(&self, dir: &[&[u8]]) -> (r: Result<Vec<Vec<u8>>, RedbStorageError>)
        ensures
            match r {
                Ok(names) => lists(self.rows(), path_of(dir@), byte_strings(names@)),
                Err(e) => {
                    &&& listing_fails(self.rows(), path_of(dir@), e)
                    &&& is_engine_failure(e) ==> self.read_reported(e)
                },
            },
    {
        let r = self.engine.list_dirs(dir);
        proof {
            let m = self.rows();
            let path = path_of(dir@);
            if r is Ok && healthy(m) && dir_found(m, path) {
                law_listing_everywhere(
                    m,
                    path,
                    (lookup(m, path)->Ok_0)->0,
                    byte_strings((r->Ok_0)@),
                );
            }
        }
        match r {
            Ok(names) => Ok(names),
            Err(e) => Err(RedbStorageError(e)),
        }
    }

    fn dir_exists(&self, dir: &[&[u8]]) -> (r: Result<bool, RedbStorageError>)
        ensures
            match r {
                Ok(_) => lookup(self.rows(), path_of(dir@)) is Ok,
                Err(e) => {
                    &&& lookup_fails(self.rows(), path_of(dir@), e)
                    &&& is_engine_failure(e) ==> self.read_reported(e)
                },
            },
    {
        match self.engine.dir_exists(dir) {
            Ok(b) => Ok(b),
            Err(e) => Err(RedbStorageError(e)),
        }
    }

    fn remove_dir(&mut self, dir: &[&[u8]]) -> (r: Result<bool, RedbStorageError>)
        ensures
            final(self).rows() == old(self).rows(),
            match r {
                Ok(removed) => {
                    &&& removes(old(self).rows(), path_of(dir@), removed, final(self).rows())
                    &&& old(self).in_order() ==> !removed
                },
                Err(e) => {
                    &&& removal_fails(old(self).rows(), path_of(dir@), e)
                    &&& is_read_only(e) ==> dir_found(old(self).rows(), path_of(dir@))
                    &&& is_engine_failure(e) ==> if dir_found(old(self).rows(), path_of(dir@)) {
                        Self::engine_reported(e)
                    } else {
                        old(self).read_reported(e)
                    }
                },
            },
    {
        let ghost before = self.rows();
        let ghost path = path_of(dir@);
        match self.engine.remove_dir(dir) {
            Ok(removed) => {
                proof {
                    if healthy(before) {
                        law_remove_everywhere(before, path, removed, self.rows());
                        assert(path.subrange(0, path.len() as int) =~= path);
                        assert(extends(path, path));
                        assert(!dir_found(self.rows(), path));
                    }
                }
                Ok(removed)
            },
            Err(e) => Err(RedbStorageError(e)),
        }
    }
}

/// A failure that the reader hands on was the engine's answer.
pub(crate) proof fn lemma_reported(tx: RedbReader, reverse: bool, e: RedbStorageError)
    requires
        tx.read_reported(e) || tx.walk_reported(reverse, e) || RedbReader::engine_reported(e),
    ensures
        e.0 matches FlatError::Engine(RedbBackendError::Backend(text)) && engine_reader_failed(text),
{
    let text = e.0->Engine_0->Backend_0;
    let view = tx.engine.view_of();
    let all = Bound::<Seq<u8>>::Unbounded;
    if view.read_reported(text) {
        lemma_engine_reader_failed(view, all, all, reverse, text);
    }
    if tx.walk_reported(reverse, e) {
        let (start, end) = choose|start: Bound<Seq<u8>>, end: Bound<Seq<u8>>| #[trigger]
            tx.seek_reported(start, end, reverse, e);
        lemma_engine_reader_failed(view, start, end, reverse, text);
    }
    if RedbReader::engine_reported(e) {
        let other = choose|other: RedbReadView| #[trigger] other.read_reported(text);
        lemma_engine_reader_failed(other, all, all, reverse, text);
    }
}

} // verus!
