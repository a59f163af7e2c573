//! The [`KvStore`] trait: a byte-to-byte map scoped by directory.

use core::ops::Bound;

use vstd::prelude::*;

use crate::directory_laws::extends;
use crate::error::RetryableStorageError;
use crate::key::{path_of, valid_path};
use crate::keyspace::bound_of;
use crate::maybe_send::{MaybeSend, MaybeSync};
use crate::rawkv::{begins_scan, is_scan, row_at, value_of, without_range, Rows};
use crate::stream::KvStream;

verus! {

/// What a handle was opened over. No operation through the handle changes it.
pub ghost struct Origin {
    /// The committed rows beneath the handle; none where the handle does not show
    /// them.
    pub rows: Rows,
    /// The revision that the rows were captured at, where there is one.
    pub revision: Option<nat>,
}

/// Ordered key-value store, scoped by directory.
///
/// # Directories and keys
///
/// Every operation names a **directory** and a **key**. A directory is a
/// sequence of segments (the empty slice is the root directory); a key is an
/// arbitrary byte sequence. The pair is the store's real key: the same key
/// bytes in different directories are distinct entries, and a scan of one
/// directory never yields another's keys.
///
/// **Directory segments are UTF-8**: every operation validates its directory
/// with [`validate_dir`](crate::key::validate_dir) and rejects a non-UTF-8
/// segment before touching the engine. Keys have no such restriction.
///
/// Directories are created **lazily by the first write**: a `set` into a
/// never-written directory allocates it (and any missing ancestor). Reads on a
/// missing directory are empty, not an error.
///
/// # Ordering
///
/// Keys are ordered **lexicographically by unsigned byte value** within their
/// directory. The empty key is a legal key and sorts first.
///
/// # Atomicity
///
/// Transactional backends **buffer writes until commit**. Reads issued through
/// a handle observe that handle's own buffered writes, but nothing becomes
/// visible to other handles until the atomic commit is applied.
///
/// # Errors
///
/// An operation fails on an invalid path, and on a store that is not in order:
/// one whose content the layout does not own or finds malformed. On a store in
/// order, with a valid path and an engine that serves it, reads do not fail, and
/// writes do not fail as long as there is room for the directories they create.
pub trait KvStore: MaybeSend + MaybeSync {
    /// The error type for this store.
    type Error: RetryableStorageError + MaybeSend + MaybeSync;

    /// The store's own invariant.
    spec fn wf(&self) -> bool;

    /// Whether the store's content is in order.
    spec fn in_order(&self) -> bool;

    /// Whether the engine beneath is known to serve reads.
    spec fn can_read(&self) -> bool;

    /// Whether the engine beneath is known to take writes.
    spec fn can_write(&self) -> bool;

    /// The keys and values of a directory; none where there is no such
    /// directory.
    spec fn content_of(&self, dir: Seq<Seq<u8>>) -> Rows;

    /// Whether a directory exists.
    spec fn dir_there(&self, dir: Seq<Seq<u8>>) -> bool;

    /// What the handle was opened over.
    spec fn origin(&self) -> Origin;

    /// Whether there is room to create a directory and its ancestors.
    spec fn has_room(&self, dir: Seq<Seq<u8>>) -> bool;

    /// Get a value by directory and key.
    ///
    /// Returns `Ok(Some(value))` if the key is present in the directory,
    /// `Ok(None)` if it is not or the directory does not exist.
    fn get(&self, dir: &[&[u8]], key: &[u8]) -> (r: Result<Option<Vec<u8>>, Self::Error>)
        requires
            self.wf(),
        ensures
            match r {
                Ok(v) => valid_path(path_of(dir@)) && value_of(v) == row_at(
                    self.content_of(path_of(dir@)),
                    key@,
                ),
                Err(_) => !valid_path(path_of(dir@)) || !self.in_order() || !self.can_read(),
            },
    ;

    /// Set a key-value pair in a directory, overwriting any existing value for
    /// the key. The directory (and any missing ancestor) is allocated if
    /// needed; no other directory appears.
    fn set(&mut self, dir: &[&[u8]], key: &[u8], value: &[u8]) -> (r: Result<(), Self::Error>)
        requires
            old(self).wf(),
        ensures
            final(self).wf(),
            final(self).origin() == old(self).origin(),
            final(self).can_read() == old(self).can_read(),
            final(self).can_write() == old(self).can_write(),
            !valid_path(path_of(dir@)) ==> {
                &&& forall|other: Seq<Seq<u8>>|
                    (#[trigger] (final(self).content_of(other))) == old(self).content_of(other)
                &&& forall|other: Seq<Seq<u8>>|
                    (#[trigger] (final(self).dir_there(other))) == old(self).dir_there(other)
            },
            match r {
                Ok(()) => {
                    &&& valid_path(path_of(dir@))
                    &&& old(self).in_order() ==> {
                        &&& final(self).in_order()
                        &&& final(self).dir_there(path_of(dir@))
                        &&& final(self).content_of(path_of(dir@)) == old(self).content_of(
                            path_of(dir@),
                        ).insert(key@, value@)
                        &&& forall|other: Seq<Seq<u8>>|
                            valid_path(other) && other != path_of(dir@)
                                ==> (#[trigger] (final(self).content_of(other))) == old(
                                self,
                            ).content_of(other)
                        &&& forall|other: Seq<Seq<u8>>|
                            valid_path(other) ==> ((#[trigger] (final(self).dir_there(other)))
                                <==> old(self).dir_there(other) || extends(
                                path_of(dir@),
                                other,
                            ))
                    }
                },
                Err(_) => {
                    ||| !valid_path(path_of(dir@))
                    ||| !old(self).in_order()
                    ||| !old(self).can_write()
                    ||| !old(self).has_room(path_of(dir@))
                },
            },
    ;

    /// Delete a key from a directory.
    ///
    /// Deleting an absent key or a key in a missing directory is a no-op, not
    /// an error.
    fn delete(&mut self, dir: &[&[u8]], key: &[u8]) -> (r: Result<(), Self::Error>)
        requires
            old(self).wf(),
        ensures
            final(self).wf(),
            final(self).origin() == old(self).origin(),
            final(self).can_read() == old(self).can_read(),
            final(self).can_write() == old(self).can_write(),
            !valid_path(path_of(dir@)) ==> {
                &&& forall|other: Seq<Seq<u8>>|
                    (#[trigger] (final(self).content_of(other))) == old(self).content_of(other)
                &&& forall|other: Seq<Seq<u8>>|
                    (#[trigger] (final(self).dir_there(other))) == old(self).dir_there(other)
            },
            match r {
                Ok(()) => {
                    &&& valid_path(path_of(dir@))
                    &&& old(self).in_order() ==> {
                        &&& final(self).in_order()
                        &&& final(self).content_of(path_of(dir@)) == old(self).content_of(
                            path_of(dir@),
                        ).remove(key@)
                        &&& forall|other: Seq<Seq<u8>>|
                            valid_path(other) && other != path_of(dir@)
                                ==> (#[trigger] (final(self).content_of(other))) == old(
                                self,
                            ).content_of(other)
                        &&& forall|other: Seq<Seq<u8>>|
                            valid_path(other) ==> (#[trigger] (final(self).dir_there(other))) == old(
                                self,
                            ).dir_there(other)
                    }
                },
                Err(_) => !valid_path(path_of(dir@)) || !old(self).in_order() || !old(
                    self,
                ).can_write(),
            },
    ;

    /// Check whether a key exists in a directory.
    ///
    /// The default implementation goes through [`get`](KvStore::get) and
    /// therefore pays for transferring the value.
    fn contains_key(&self, dir: &[&[u8]], key: &[u8]) -> (r: Result<bool, Self::Error>)
        requires
            self.wf(),
        ensures
            match r {
                Ok(b) => valid_path(path_of(dir@)) && b == self.content_of(
                    path_of(dir@),
                ).dom().contains(key@),
                Err(_) => !valid_path(path_of(dir@)) || !self.in_order() || !self.can_read(),
            },
    {
        match self.get(dir, key) {
            Ok(v) => Ok(v.is_some()),
            Err(e) => Err(e),
        }
    }

    /// Scan the keys of one directory between two key bounds, in lexicographic
    /// order.
    ///
    /// * `dir`: the exact directory to scan (validated UTF-8 segments).
    /// * `start`, `end`: bounds over the within-directory key.
    /// * `reverse`: if `true`, produce the same set of pairs in descending key
    ///   order. It changes the iteration direction only; it never reinterprets
    ///   which bound is which.
    ///
    /// A failure on the way ends the stream behind the pairs read so far.
    fn range(&self, dir: &[&[u8]], start: Bound<&[u8]>, end: Bound<&[u8]>, reverse: bool) -> (r:
        KvStream<Self::Error>)
        requires
            self.wf(),
        ensures
            match r.failure() {
                None => valid_path(path_of(dir@)) && is_scan(
                    self.content_of(path_of(dir@)),
                    bound_of(start),
                    bound_of(end),
                    !reverse,
                    r.items(),
                ),
                Some(_) => {
                    &&& !valid_path(path_of(dir@)) || !self.in_order() || !self.can_read()
                    &&& begins_scan(
                        self.content_of(path_of(dir@)),
                        bound_of(start),
                        bound_of(end),
                        !reverse,
                        r.items(),
                    )
                },
            },
    ;

    /// Delete every key in a range within one directory.
    ///
    /// Semantically identical to scanning the range and deleting each key.
    /// Clearing a range that matches nothing is a no-op, not an error,
    /// including a missing directory.
    ///
    /// Clearing a directory's whole range removes all of its keys but **not**
    /// the directory itself.
    fn clear_range(&mut self, dir: &[&[u8]], start: Bound<&[u8]>, end: Bound<&[u8]>) -> (r: Result<
        (),
        Self::Error,
    >)
        requires
            old(self).wf(),
        ensures
            final(self).wf(),
            final(self).origin() == old(self).origin(),
            final(self).can_read() == old(self).can_read(),
            final(self).can_write() == old(self).can_write(),
            !valid_path(path_of(dir@)) ==> {
                &&& forall|other: Seq<Seq<u8>>|
                    (#[trigger] (final(self).content_of(other))) == old(self).content_of(other)
                &&& forall|other: Seq<Seq<u8>>|
                    (#[trigger] (final(self).dir_there(other))) == old(self).dir_there(other)
            },
            match r {
                Ok(()) => {
                    &&& valid_path(path_of(dir@))
                    &&& old(self).in_order() ==> {
                        &&& final(self).in_order()
                        &&& final(self).content_of(path_of(dir@)) == without_range(
                            old(self).content_of(path_of(dir@)),
                            bound_of(start),
                            bound_of(end),
                        )
                        &&& forall|other: Seq<Seq<u8>>|
                            valid_path(other) && other != path_of(dir@)
                                ==> (#[trigger] (final(self).content_of(other))) == old(
                                self,
                            ).content_of(other)
                        &&& forall|other: Seq<Seq<u8>>|
                            valid_path(other) ==> (#[trigger] (final(self).dir_there(other))) == old(
                                self,
                            ).dir_there(other)
                    }
                },
                Err(_) => !valid_path(path_of(dir@)) || !old(self).in_order() || !old(
                    self,
                ).can_write(),
            },
    ;
}

} // verus!
