//! Snapshot state-transition sessions and read-only snapshot handles.

use core::ops::Bound;

use vstd::prelude::*;

use crate::bytemap::ByteMap;
use crate::commit::Commit;
use crate::directory_laws::{
    clears, deletes, dir_found, law_clear_everywhere, law_create_succeeds, law_delete_everywhere,
    law_listing_everywhere, law_listing_succeeds, law_lookup_succeeds, law_remove_everywhere,
    law_remove_succeeds, law_set_everywhere, listing_refused, lists, remove_refused, removes,
};
use crate::flatdir::touch::{only_adds, swept};
use crate::flatdir::health::{healthy, room};
use crate::flatdir::model::same_data;
use crate::flatengine::{
    bad_path, broken_off, byte_strings, create_leaves, create_refused, creates_dir, dir_content,
    gone_touched, lemma_bad_path, lookup, refusal_of, set_touches, sets, FlatEngine, Refusal,
};
use crate::indexeddb::commit::CommitPlan;
use crate::indexeddb::error::{is_corrupt_with, layout_error, IndexedDbError};
use crate::indexeddb::revision::{MAX_REVISION, Revision};
use crate::indexeddb::snapshot::{is_op_list, Snapshot};
use crate::key::{path_of, valid_path, validate_dir};
use crate::keyspace::bound_of;
use crate::nav::KvDirNav;
use crate::overlay::{overlay, rows_of, Pending};
use crate::rawkv::Rows;
use crate::store::{KvStore, Origin};
use crate::stream::KvStream;
use crate::text::{decimal, push_decimal, with_number};

verus! {

/// Whether an error reports a refusal.
pub open spec fn reports(e: IndexedDbError, f: Refusal) -> bool {
    match f {
        Refusal::Foreign => e is Foreign,
        Refusal::Corrupt => is_corrupt_with(e, "directory layout is malformed"@),
        Refusal::Key(k) => e == IndexedDbError::Key(k),
    }
}

/// One state transition over a consistent, owned database snapshot.
///
/// Opening the session copies the whole raw database and its revision. Later
/// reads use this snapshot plus the session's writes, even when another tab
/// commits. Only its buffered changes are submitted at commit; a changed
/// revision rejects the entire write set. Dropping the session discards every
/// change.
pub struct IndexedDbTransaction {
    engine: FlatEngine<Snapshot>,
    expected: Revision,
}

impl IndexedDbTransaction {
    /// The rows that the session sees.
    pub closed spec fn rows(&self) -> Rows {
        self.engine.rows()
    }

    /// The rows as they were captured.
    pub closed spec fn captured(&self) -> Rows {
        self.engine.terms().beneath
    }

    /// The pending writes.
    pub closed spec fn pending(&self) -> Pending {
        self.engine.view_of().pending()
    }

    /// The revision that was captured with the rows.
    pub closed spec fn fence(&self) -> Revision {
        self.expected
    }

    /// A session over these rows, captured with this revision.
    pub fn new(expected: Revision, rows: ByteMap<Vec<u8>>) -> (r: Self)
        requires
            rows.wf(),
        ensures
            r.wf(),
            r.rows() == rows_of(rows@),
            r.captured() == rows_of(rows@),
            r.pending() == Map::<Seq<u8>, Option<Vec<u8>>>::empty(),
            r.fence() == expected,
    {
        let snapshot = Snapshot::new(rows);
        proof {
            snapshot.lemma_terms();
        }
        IndexedDbTransaction { engine: FlatEngine::new(snapshot), expected }
    }

    /// What the session shows is its write set over the captured rows.
    pub proof fn law_read_your_writes(&self)
        requires
            self.wf(),
        ensures
            self.rows() == overlay(self.captured(), self.pending()),
    {
        self.engine.view_of().law_delta();
        self.engine.view_of().lemma_terms();
    }

    /// Finitely many keys are pending.
    pub proof fn lemma_pending_finite(&self)
        requires
            self.wf(),
        ensures
            self.pending().dom().finite(),
    {
        self.engine.view_of().lemma_pending_finite();
    }

    /// Number of raw keys with a pending value or tombstone, including layout
    /// rows.
    pub fn pending_len(&self) -> (n: usize)
        requires
            self.wf(),
        ensures
            n == self.pending().len(),
    {
        self.engine.raw().buffer().len()
    }

    /// Revision captured atomically with this session's snapshot.
    pub fn expected_revision(&self) -> (r: Revision)
        ensures
            r == self.fence(),
    {
        self.expected
    }

    /// A rendering that gives the number of pending writes and the revision
    /// only.
    pub fn describe(&self) -> (r: String)
        requires
            self.wf(),
        ensures
            r@ == "IndexedDbTransaction { pending_len: "@ + decimal(self.pending().len())
                + ", expected_revision: Revision("@ + decimal(self.fence().value() as nat) + ") }"@,
    {
        let mut out = with_number(
            "IndexedDbTransaction { pending_len: ",
            self.pending_len() as u64,
            ", expected_revision: Revision(",
        );
        push_decimal(&mut out, self.expected.get());
        crate::text::joined(out.as_str(), ") }")
    }
}

/// Maps a layout error that reports a refusal.
fn mapped(e: crate::flatdir::error::FlatError<IndexedDbError>) -> (r: IndexedDbError)
    ensures
        refusal_of(e) matches Some(f) ==> reports(r, f),
{
    layout_error(e)
}

impl KvStore for IndexedDbTransaction {
    type Error = IndexedDbError;

    closed spec fn wf(&self) -> bool {
        &&& self.engine.wf()
        &&& self.engine.terms().readable
        &&& self.engine.terms().writable
    }

    open spec fn in_order(&self) -> bool {
        healthy(self.rows())
    }

    open spec fn can_read(&self) -> bool {
        true
    }

    open spec fn can_write(&self) -> bool {
        true
    }

    open spec fn content_of(&self, dir: Seq<Seq<u8>>) -> Rows {
        dir_content(self.rows(), dir)
    }

    open spec fn dir_there(&self, dir: Seq<Seq<u8>>) -> bool {
        dir_found(self.rows(), dir)
    }

    open spec fn origin(&self) -> Origin {
        Origin { rows: self.captured(), revision: Some(self.fence().value() as nat) }
    }

    open spec fn has_room(&self, dir: Seq<Seq<u8>>) -> bool {
        room(self.rows(), dir.len() + 1)
    }

    fn get(&self, dir: &[&[u8]], key: &[u8]) -> (r: Result<Option<Vec<u8>>, IndexedDbError>)
        ensures
            match r {
                Ok(_) => lookup(self.rows(), path_of(dir@)) is Ok,
                Err(e) => lookup(self.rows(), path_of(dir@)) matches Err(f) && reports(e, f),
            },
    {
        proof {
            if valid_path(path_of(dir@)) && healthy(self.rows()) {
                law_lookup_succeeds(self.rows(), path_of(dir@));
            }
        }
        match self.engine.get(dir, key) {
            Ok(v) => Ok(v),
            Err(e) => Err(mapped(e)),
        }
    }

    fn set(&mut self, dir: &[&[u8]], key: &[u8], value: &[u8]) -> (r: Result<(), IndexedDbError>)
        ensures
            final(self).captured() == old(self).captured(),
            final(self).fence() == old(self).fence(),
            match r {
                Ok(()) => {
                    &&& sets(
                        old(self).rows(),
                        path_of(dir@),
                        key@,
                        value@,
                        final(self).rows(),
                    )
                    &&& set_touches(
                        old(self).rows(),
                        path_of(dir@),
                        key@,
                        old(self).pending().dom(),
                        final(self).pending().dom(),
                    )
                },
                Err(e) => {
                    &&& exists|f: Refusal| #[trigger]
                        reports(e, f) && create_refused(old(self).rows(), path_of(dir@), f)
                            && create_leaves(
                            old(self).rows(),
                            path_of(dir@),
                            f,
                            final(self).rows(),
                        )
                    &&& same_data(old(self).rows(), final(self).rows())
                    &&& only_adds(
                        old(self).rows(),
                        final(self).rows(),
                        old(self).pending().dom(),
                        final(self).pending().dom(),
                    )
                    &&& creates_dir(old(self).rows(), path_of(dir@)) || (final(self).pending()
                        == old(self).pending() && final(self).rows() == old(self).rows())
                },
            },
    {
        let ghost before = self.rows();
        let ghost path = path_of(dir@);
        proof {
            self.engine.view_of().lemma_terms();
        }
        let r = self.engine.set(dir, key, value);
        proof {
            self.engine.view_of().lemma_terms();
            if healthy(before) {
                if r is Ok {
                    law_set_everywhere(before, path, key@, value@, self.rows());
                } else if valid_path(path) && room(before, path.len() + 1) {
                    law_create_succeeds(before, path, refusal_of(r->Err_0)->0);
                }
            }
        }
        match r {
            Ok(()) => Ok(()),
            Err(e) => {
                let ghost f = refusal_of(e)->0;
                let mapped_error = mapped(e);
                assert(reports(mapped_error, f));
                Err(mapped_error)
            },
        }
    }

    fn delete(&mut self, dir: &[&[u8]], key: &[u8]) -> (r: Result<(), IndexedDbError>)
        ensures
            final(self).captured() == old(self).captured(),
            final(self).fence() == old(self).fence(),
            match r {
                Ok(()) => {
                    &&& deletes(old(self).rows(), path_of(dir@), key@, final(self).rows())
                    &&& final(self).pending().dom() == match lookup(
                        old(self).rows(),
                        path_of(dir@),
                    ) {
                        Ok(Some(p)) => old(self).pending().dom().insert(p + key@),
                        _ => old(self).pending().dom(),
                    }
                },
                Err(e) => {
                    &&& lookup(old(self).rows(), path_of(dir@)) matches Err(f) && reports(e, f)
                    &&& final(self).rows() == old(self).rows()
                    &&& final(self).pending() == old(self).pending()
                },
            },
    {
        let ghost before = self.rows();
        let ghost path = path_of(dir@);
        proof {
            self.engine.view_of().lemma_terms();
        }
        let r = self.engine.delete(dir, key);
        proof {
            self.engine.view_of().lemma_terms();
            if healthy(before) && valid_path(path) {
                law_lookup_succeeds(before, path);
                if r is Ok {
                    law_delete_everywhere(before, path, key@, self.rows());
                }
            }
        }
        match r {
            Ok(()) => Ok(()),
            Err(e) => Err(mapped(e)),
        }
    }

    fn range(&self, dir: &[&[u8]], start: Bound<&[u8]>, end: Bound<&[u8]>, reverse: bool) -> (r:
        KvStream<IndexedDbError>)
        ensures
            match r.failure() {
                None => lookup(self.rows(), path_of(dir@)) is Ok,
                Some(e) => r.items().len() == 0 && (lookup(
                    self.rows(),
                    path_of(dir@),
                ) matches Err(f) && reports(e, f)),
            },
    {
        proof {
            if valid_path(path_of(dir@)) && healthy(self.rows()) {
                law_lookup_succeeds(self.rows(), path_of(dir@));
            }
        }
        match self.engine.scan(dir, start, end, !reverse) {
            Ok(pairs) => KvStream::from_pairs(pairs, false),
            Err(e) => KvStream::failed(mapped(e)),
        }
    }

    fn clear_range(&mut self, dir: &[&[u8]], start: Bound<&[u8]>, end: Bound<&[u8]>) -> (r: Result<
        (),
        IndexedDbError,
    >)
        ensures
            final(self).captured() == old(self).captured(),
            final(self).fence() == old(self).fence(),
            match r {
                Ok(()) => {
                    &&& clears(
                        old(self).rows(),
                        path_of(dir@),
                        bound_of(start),
                        bound_of(end),
                        final(self).rows(),
                    )
                    &&& final(self).pending().dom() == gone_touched(
                        old(self).rows(),
                        final(self).rows(),
                        old(self).pending().dom(),
                    )
                },
                Err(e) => {
                    &&& lookup(old(self).rows(), path_of(dir@)) matches Err(f) && reports(e, f)
                    &&& final(self).rows() == old(self).rows()
                    &&& final(self).pending() == old(self).pending()
                },
            },
    {
        let ghost before = self.rows();
        let ghost path = path_of(dir@);
        let ghost from = bound_of(start);
        let ghost to = bound_of(end);
        proof {
            self.engine.view_of().lemma_terms();
        }
        let r = self.engine.clear_range(dir, start, end);
        proof {
            self.engine.view_of().lemma_terms();
            if healthy(before) && valid_path(path) {
                law_lookup_succeeds(before, path);
                if r is Ok {
                    law_clear_everywhere(before, path, from, to, self.rows());
                }
            }
        }
        match r {
            Ok(()) => Ok(()),
            Err(e) => Err(mapped(e)),
        }
    }
}

impl KvDirNav for IndexedDbTransaction {
    open spec fn removable(&self, dir: Seq<Seq<u8>>) -> bool {
        dir.len() > 0
    }

    fn list_dirs(&self, dir: &[&[u8]]) -> (r: Result<Vec<Vec<u8>>, IndexedDbError>)
        ensures
            match r {
                Ok(names) => lists(self.rows(), path_of(dir@), byte_strings(names@)),
                Err(e) => exists|f: Refusal| #[trigger]
                    reports(e, f) && listing_refused(self.rows(), path_of(dir@), f),
            },
    {
        let r = self.engine.list_dirs(dir);
        proof {
            let m = self.rows();
            let path = path_of(dir@);
            if valid_path(path) && healthy(m) {
                law_listing_succeeds(m, path);
                if r is Ok && dir_found(m, path) {
                    law_listing_everywhere(
                        m,
                        path,
                        (lookup(m, path)->Ok_0)->0,
                        byte_strings((r->Ok_0)@),
                    );
                }
            }
        }
        match r {
            Ok(names) => Ok(names),
            Err(e) => {
                let ghost f = refusal_of(e)->0;
                let mapped_error = mapped(e);
                assert(reports(mapped_error, f));
                Err(mapped_error)
            },
        }
    }

    fn dir_exists(&self, dir: &[&[u8]]) -> (r: Result<bool, IndexedDbError>)
        ensures
            match r {
                Ok(_) => lookup(self.rows(), path_of(dir@)) is Ok,
                Err(e) => lookup(self.rows(), path_of(dir@)) matches Err(f) && reports(e, f),
            },
    {
        proof {
            if valid_path(path_of(dir@)) && healthy(self.rows()) {
                law_lookup_succeeds(self.rows(), path_of(dir@));
            }
        }
        match self.engine.dir_exists(dir) {
            Ok(b) => Ok(b),
            Err(e) => Err(mapped(e)),
        }
    }

    fn remove_dir(&mut self, dir: &[&[u8]]) -> (r: Result<bool, IndexedDbError>)
        ensures
            final(self).captured() == old(self).captured(),
            final(self).fence() == old(self).fence(),
            match r {
                Ok(removed) => {
                    &&& removes(old(self).rows(), path_of(dir@), removed, final(self).rows())
                    &&& final(self).pending().dom() == if removed {
                        swept(old(self).rows(), final(self).rows(), old(self).pending().dom())
                    } else {
                        old(self).pending().dom()
                    }
                },
                Err(e) => {
                    &&& exists|f: Refusal| #[trigger]
                        reports(e, f) && remove_refused(old(self).rows(), path_of(dir@), f)
                    &&& if dir@.len() == 0 || !dir_found(old(self).rows(), path_of(dir@)) {
                        final(self).rows() == old(self).rows() && final(self).pending() == old(
                            self,
                        ).pending()
                    } else {
                        &&& broken_off(old(self).rows(), path_of(dir@), final(self).rows())
                        &&& final(self).pending().dom() == swept(
                            old(self).rows(),
                            final(self).rows(),
                            old(self).pending().dom(),
                        )
                    }
                },
            },
    {
        let ghost before = self.rows();
        let ghost path = path_of(dir@);
        proof {
            self.engine.view_of().lemma_terms();
        }
        let r = self.engine.remove_dir(dir);
        proof {
            self.engine.view_of().lemma_terms();
            if healthy(before) && valid_path(path) && path.len() > 0 {
                if r is Ok {
                    law_remove_everywhere(before, path, r->Ok_0, self.rows());
                } else {
                    law_remove_succeeds(before, path, refusal_of(r->Err_0)->0);
                }
            }
        }
        match r {
            Ok(removed) => Ok(removed),
            Err(e) => {
                let ghost f = refusal_of(e)->0;
                let mapped_error = mapped(e);
                assert(reports(mapped_error, f));
                Err(mapped_error)
            },
        }
    }
}

impl Commit for IndexedDbTransaction {
    type Error = IndexedDbError;

    type Outcome = CommitPlan;

    open spec fn ready(&self) -> bool {
        self.wf()
    }

    open spec fn ends_with(&self, outcome: CommitPlan) -> bool {
        match outcome {
            CommitPlan::CheckFence { expected } => {
                &&& self.pending() == Map::<Seq<u8>, Option<Vec<u8>>>::empty()
                &&& expected == self.fence()
            },
            CommitPlan::Write { expected, next, ops } => {
                &&& self.pending() != Map::<Seq<u8>, Option<Vec<u8>>>::empty()
                &&& expected == self.fence()
                &&& next.value() == self.fence().value() + 1
                &&& is_op_list(self.pending(), ops@)
                &&& ops@.len() == self.pending().len()
            },
        }
    }

    open spec fn may_fail(&self) -> bool {
        &&& self.pending() != Map::<Seq<u8>, Option<Vec<u8>>>::empty()
        &&& self.fence().value() == MAX_REVISION
    }

    fn commit(self) -> (r: Result<CommitPlan, IndexedDbError>)
        ensures
            self.may_fail() ==> r is Err,
            r matches Err(e) ==> is_corrupt_with(
                e,
                "revision exhausted the JavaScript safe-integer range"@,
            ),
    {
        let expected = self.expected;
        if self.engine.raw().buffer().is_empty() {
            return Ok(CommitPlan::CheckFence { expected });
        }
        let next = match expected.next() {
            Ok(next) => next,
            Err(e) => return Err(e),
        };
        let buffer = self.engine.into_raw().into_buffer();
        Ok(CommitPlan::Write { expected, next, ops: buffer.drain_ops() })
    }
}

/// Whether an error is the one that a read-only snapshot refuses a write with: an
/// invalid path is reported before the refusal.
pub open spec fn is_write_refused(dir: Seq<Seq<u8>>, e: IndexedDbError) -> bool {
    if valid_path(dir) {
        e is ReadOnly
    } else {
        reports(e, bad_path(dir))
    }
}

/// A read-only snapshot of committed data.
///
/// All operations, including scans, see the same data. Every mutation is
/// refused, once the directory path is known to be valid.
pub struct IndexedDbReader {
    engine: FlatEngine<Snapshot>,
}

impl IndexedDbReader {
    /// The rows of the snapshot.
    pub closed spec fn rows(&self) -> Rows {
        self.engine.rows()
    }

    /// A reader over these rows.
    pub fn new(rows: ByteMap<Vec<u8>>) -> (r: Self)
        requires
            rows.wf(),
        ensures
            r.wf(),
            r.rows() == rows_of(rows@),
    {
        let snapshot = Snapshot::new(rows);
        proof {
            snapshot.lemma_terms();
        }
        IndexedDbReader { engine: FlatEngine::new(snapshot) }
    }

    /// Refuses a mutation.
    fn refuse(dir: &[&[u8]]) -> (r: IndexedDbError)
        ensures
            is_write_refused(path_of(dir@), r),
    {
        match validate_dir(dir) {
            Ok(()) => IndexedDbError::ReadOnly,
            Err(e) => {
                proof {
                    lemma_bad_path(path_of(dir@), e);
                }
                IndexedDbError::Key(e)
            },
        }
    }
}

impl KvStore for IndexedDbReader {
    type Error = IndexedDbError;

    closed spec fn wf(&self) -> bool {
        self.engine.wf() && self.engine.terms().readable
    }

    open spec fn in_order(&self) -> bool {
        healthy(self.rows())
    }

    open spec fn can_read(&self) -> bool {
        true
    }

    open spec fn can_write(&self) -> bool {
        false
    }

    open spec fn content_of(&self, dir: Seq<Seq<u8>>) -> Rows {
        dir_content(self.rows(), dir)
    }

    open spec fn dir_there(&self, dir: Seq<Seq<u8>>) -> bool {
        dir_found(self.rows(), dir)
    }

    open spec fn origin(&self) -> Origin {
        Origin { rows: self.rows(), revision: None }
    }

    open spec fn has_room(&self, dir: Seq<Seq<u8>>) -> bool {
        room(self.rows(), dir.len() + 1)
    }

    fn get(&self, dir: &[&[u8]], key: &[u8]) -> (r: Result<Option<Vec<u8>>, IndexedDbError>)
        ensures
            match r {
                Ok(_) => lookup(self.rows(), path_of(dir@)) is Ok,
                Err(e) => lookup(self.rows(), path_of(dir@)) matches Err(f) && reports(e, f),
            },
    {
        proof {
            if valid_path(path_of(dir@)) && healthy(self.rows()) {
                law_lookup_succeeds(self.rows(), path_of(dir@));
            }
        }
        match self.engine.get(dir, key) {
            Ok(v) => Ok(v),
            Err(e) => Err(mapped(e)),
        }
    }

    fn set(&mut self, dir: &[&[u8]], key: &[u8], value: &[u8]) -> (r: Result<(), IndexedDbError>)
        ensures
            *final(self) == *old(self),
            r matches Err(e) && is_write_refused(path_of(dir@), e),
    {
        Err(IndexedDbReader::refuse(dir))
    }

    fn delete(&mut self, dir: &[&[u8]], key: &[u8]) -> (r: Result<(), IndexedDbError>)
        ensures
            *final(self) == *old(self),
            r matches Err(e) && is_write_refused(path_of(dir@), e),
    {
        Err(IndexedDbReader::refuse(dir))
    }

    fn range(&self, dir: &[&[u8]], start: Bound<&[u8]>, end: Bound<&[u8]>, reverse: bool) -> (r:
        KvStream<IndexedDbError>)
        ensures
            match r.failure() {
                None => lookup(self.rows(), path_of(dir@)) is Ok,
                Some(e) => r.items().len() == 0 && (lookup(
                    self.rows(),
                    path_of(dir@),
                ) matches Err(f) && reports(e, f)),
            },
    {
        proof {
            if valid_path(path_of(dir@)) && healthy(self.rows()) {
                law_lookup_succeeds(self.rows(), path_of(dir@));
            }
        }
        match self.engine.scan(dir, start, end, !reverse) {
            Ok(pairs) => KvStream::from_pairs(pairs, false),
            Err(e) => KvStream::failed(mapped(e)),
        }
    }

    fn clear_range(&mut self, dir: &[&[u8]], start: Bound<&[u8]>, end: Bound<&[u8]>) -> (r: Result<
        (),
        IndexedDbError,
    >)
        ensures
            *final(self) == *old(self),
            r matches Err(e) && is_write_refused(path_of(dir@), e),
    {
        Err(IndexedDbReader::refuse(dir))
    }
}

impl KvDirNav for IndexedDbReader {
    open spec fn removable(&self, dir: Seq<Seq<u8>>) -> bool {
        false
    }

    fn list_dirs(&self, dir: &[&[u8]]) -> (r: Result<Vec<Vec<u8>>, IndexedDbError>)
        ensures
            match r {
                Ok(names) => lists(self.rows(), path_of(dir@), byte_strings(names@)),
                Err(e) => exists|f: Refusal| #[trigger]
                    reports(e, f) && listing_refused(self.rows(), path_of(dir@), f),
            },
    {
        let r = self.engine.list_dirs(dir);
        proof {
            let m = self.rows();
            let path = path_of(dir@);
            if valid_path(path) && healthy(m) {
                law_listing_succeeds(m, path);
                if r is Ok && dir_found(m, path) {
                    law_listing_everywhere(
                        m,
                        path,
                        (lookup(m, path)->Ok_0)->0,
                        byte_strings((r->Ok_0)@),
                    );
                }
            }
        }
        match r {
            Ok(names) => Ok(names),
            Err(e) => {
                let ghost f = refusal_of(e)->0;
                let mapped_error = mapped(e);
                assert(reports(mapped_error, f));
                Err(mapped_error)
            },
        }
    }

    fn dir_exists(&self, dir: &[&[u8]]) -> (r: Result<bool, IndexedDbError>)
        ensures
            match r {
                Ok(_) => lookup(self.rows(), path_of(dir@)) is Ok,
                Err(e) => lookup(self.rows(), path_of(dir@)) matches Err(f) && reports(e, f),
            },
    {
        proof {
            if valid_path(path_of(dir@)) && healthy(self.rows()) {
                law_lookup_succeeds(self.rows(), path_of(dir@));
            }
        }
        match self.engine.dir_exists(dir) {
            Ok(b) => Ok(b),
            Err(e) => Err(mapped(e)),
        }
    }

    fn remove_dir(&mut self, dir: &[&[u8]]) -> (r: Result<bool, IndexedDbError>)
        ensures
            *final(self) == *old(self),
            r matches Err(e) && is_write_refused(path_of(dir@), e),
    {
        Err(IndexedDbReader::refuse(dir))
    }
}

} // verus!
