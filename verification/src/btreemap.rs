//! In-memory [`KvStore`] backend for tests and single-process hosts.
//!
//! [`BTreeMapStore`] is the base (the committed raw map) and
//! [`BTreeMapTransaction`] is a read-write handle over it that **buffers its
//! writes** rather than applying them in place. Reads inside a transaction see
//! the transaction's own uncommitted writes; [`Commit`] turns the buffer into
//! the [`WriteSet`] that the base applies as one, and dropping the transaction
//! discards it: a state transition that fails partway drops its transaction and
//! the base store is left exactly as it was.
//!
//! The committed map holds the flat directory layout's raw rows.
//! [`BTreeMapTransaction`] routes every operation through [`FlatEngine`] over a
//! raw view of the merged base-plus-buffer.

use core::ops::Bound;

use vstd::prelude::*;

use crate::bytemap::ByteMap;
use crate::bytes::copy_bytes;
use crate::commit::Commit;
use crate::directory_laws::{
    clears, deletes, dir_found, law_clear_everywhere, law_create_succeeds, law_delete_everywhere,
    law_listing_everywhere, law_listing_succeeds, law_lookup_succeeds, law_remove_everywhere,
    law_remove_succeeds, law_set_everywhere, listing_refused, lists, remove_refused, removes,
};
use crate::error::{ErrorMessage, RetryableStorageError};
use crate::flatdir::touch::{only_adds, swept};
use crate::flatdir::error::FlatError;
use crate::flatdir::health::{healthy, room};
use crate::flatdir::model::same_data;
use crate::flatengine::{
    broken_off, byte_strings, create_leaves, create_refused, creates_dir, dir_content, gone_touched,
    lookup, refusal_of, set_touches, sets, FlatEngine, Refusal,
};
use crate::key::{path_of, valid_path};
use crate::keyspace::{bound_of, in_range, key_in_bounds};
use crate::nav::{ascending, KvDirNav};
use crate::overlay::{
    law_overlay_delete, law_overlay_empty, law_overlay_reads, law_overlay_set, lemma_overlay_finite,
    merged_clear, merged_get, merged_scan, overlay, rows_of, Pending,
};
use crate::rawkv::{directed, is_scan, keys_within, row_at, value_of, RawKv, Rows, Terms};
use crate::store::{KvStore, Origin};
use crate::stream::{KvPair, KvStream};
use crate::text::{decimal, with_number};

verus! {

/// The committed in-memory key-value map and the opener for transactions over
/// it.
///
/// It is deliberately *not* a [`KvStore`]: the only write path is through a
/// [`BTreeMapTransaction`] and [`apply`](BTreeMapStore::apply), so there is no
/// way to bypass the commit/rollback boundary.
pub struct BTreeMapStore {
    data: ByteMap<Vec<u8>>,
}

/// The writes of a committed transaction, to be applied to its base as one.
pub struct WriteSet {
    changes: ByteMap<Option<Vec<u8>>>,
}

impl WriteSet {
    /// The write set with these pending changes.
    pub fn new(changes: ByteMap<Option<Vec<u8>>>) -> (r: Self)
        requires
            changes.wf(),
        ensures
            r.wf(),
            r.pending() == changes@,
    {
        WriteSet { changes }
    }

    /// The writes: values to set and tombstones.
    pub closed spec fn pending(&self) -> Pending {
        self.changes@
    }

    /// The set's own invariant.
    pub closed spec fn wf(&self) -> bool {
        self.changes.wf()
    }

    /// The number of writes.
    pub fn len(&self) -> (n: usize)
        requires
            self.wf(),
        ensures
            n == self.pending().len(),
    {
        self.changes.len()
    }
}

impl Default for WriteSet {
    fn default() -> (r: Self)
        ensures
            r.wf(),
            r.pending() == Map::<Seq<u8>, Option<Vec<u8>>>::empty(),
    {
        WriteSet { changes: ByteMap::new() }
    }
}

impl Default for BTreeMapStore {
    fn default() -> (r: Self)
        ensures
            r.wf(),
            r.rows() == Map::<Seq<u8>, Seq<u8>>::empty(),
    {
        BTreeMapStore::new()
    }
}

impl BTreeMapStore {
    /// The committed rows.
    pub closed spec fn rows(&self) -> Rows {
        rows_of(self.data@)
    }

    /// The store's own invariant.
    pub closed spec fn wf(&self) -> bool {
        self.data.wf()
    }

    /// An empty store.
    pub fn new() -> (r: Self)
        ensures
            r.wf(),
            r.rows() == Map::<Seq<u8>, Seq<u8>>::empty(),
    {
        let r = BTreeMapStore { data: ByteMap::new() };
        assert(r.rows() =~= Map::<Seq<u8>, Seq<u8>>::empty());
        r
    }

    /// A store over a consumer-provided raw map. The map holds the layout's raw
    /// rows (meta and data).
    pub fn from_map(map: ByteMap<Vec<u8>>) -> (r: Self)
        requires
            map.wf(),
        ensures
            r.wf(),
            r.rows() == rows_of(map@),
    {
        BTreeMapStore { data: map }
    }

    /// The raw committed map this store backs.
    pub fn raw(&self) -> (r: &ByteMap<Vec<u8>>)
        requires
            self.wf(),
        ensures
            r.wf(),
            rows_of(r@) == self.rows(),
    {
        &self.data
    }

    /// Opens a write transaction over this store. Uncommitted on drop.
    ///
    /// The transaction buffers its writes and reads its own buffer first, so a
    /// fresh transaction opened while another is outstanding sees only the
    /// committed map.
    pub fn transaction(&self) -> (r: BTreeMapTransaction<'_>)
        requires
            self.wf(),
        ensures
            r.wf(),
            r.base_rows() == self.rows(),
            r.pending() == Map::<Seq<u8>, Option<Vec<u8>>>::empty(),
            r.rows() == self.rows(),
    {
        let r = BTreeMapTransaction { base: self, buffer: ByteMap::new() };
        proof {
            law_overlay_empty(self.rows());
        }
        r
    }

    /// Takes up a transaction whose writes were set aside: it goes on over this store
    /// as it stands now, with those writes pending.
    pub fn resume(&self, writes: WriteSet) -> (r: BTreeMapTransaction<'_>)
        requires
            self.wf(),
            writes.wf(),
        ensures
            r.wf(),
            r.base_rows() == self.rows(),
            r.pending() == writes.pending(),
    {
        BTreeMapTransaction { base: self, buffer: writes.changes }
    }

    /// Number of committed raw rows (data and layout rows).
    pub fn len(&self) -> (n: usize)
        requires
            self.wf(),
        ensures
            n == self.rows().len(),
    {
        assert(self.rows().dom() =~= self.data@.dom());
        self.data.len()
    }

    /// Whether the committed map is empty.
    pub fn is_empty(&self) -> (r: bool)
        requires
            self.wf(),
        ensures
            r == (self.rows() == Map::<Seq<u8>, Seq<u8>>::empty()),
    {
        proof {
            self.data.lemma_finite();
            assert(self.rows().dom() =~= self.data@.dom());
            if self.rows().dom().len() == 0 {
                assert(self.rows().dom() =~= Set::<Seq<u8>>::empty());
                assert(self.rows() =~= Map::<Seq<u8>, Seq<u8>>::empty());
            }
        }
        self.len() == 0
    }

    /// Committed raw keys, ascending. A point inspection of the base; the
    /// transactional read path is [`BTreeMapTransaction`].
    pub fn keys(&self) -> (r: Vec<Vec<u8>>)
        requires
            self.wf(),
        ensures
            ascending(byte_strings(r@)),
            forall|k: Seq<u8>|
                byte_strings(r@).contains(k) <==> #[trigger] self.rows().dom().contains(k),
    {
        let mut keys: Vec<Vec<u8>> = Vec::new();
        let mut i: usize = 0;
        while i < self.data.len()
            invariant
                self.data.wf(),
                i <= self.data.key_seq().len(),
                keys@.len() == i,
                forall|j: int| 0 <= j < i ==> (#[trigger] keys@[j])@ == self.data.key_seq()[j],
            decreases self.data.key_seq().len() - i,
        {
            keys.push(copy_bytes(self.data.key_at(i)));
            i = i + 1;
        }
        proof {
            assert(byte_strings(keys@) =~= self.data.key_seq());
            assert forall|k: Seq<u8>|
                byte_strings(keys@).contains(k) <==> #[trigger] self.rows().dom().contains(k) by {
                if byte_strings(keys@).contains(k) {
                    let j = choose|j: int|
                        0 <= j < byte_strings(keys@).len() && byte_strings(keys@)[j] == k;
                    self.data.lemma_at(j);
                }
                if self.data@.dom().contains(k) {
                    self.data.lemma_position(k);
                    assert(byte_strings(keys@)[self.data.position(k)] == k);
                }
            }
        }
        keys
    }

    /// A committed raw point read of the base, ignoring any outstanding
    /// transaction's buffer.
    pub fn get_committed(&self, key: &[u8]) -> (r: Option<Vec<u8>>)
        requires
            self.wf(),
        ensures
            value_of(r) == row_at(self.rows(), key@),
    {
        match self.data.get(key) {
            Some(v) => Some(copy_bytes(v.as_slice())),
            None => None,
        }
    }

    /// Remove all committed rows.
    pub fn clear(&mut self)
        ensures
            final(self).wf(),
            final(self).rows() == Map::<Seq<u8>, Seq<u8>>::empty(),
    {
        self.data = ByteMap::new();
        assert(self.rows() =~= Map::<Seq<u8>, Seq<u8>>::empty());
    }

    /// Applies the writes of a committed transaction: every buffered raw row is
    /// set or removed, so the committed rows are exactly what a transaction
    /// with these writes sees over them.
    pub fn apply(&mut self, writes: WriteSet)
        requires
            old(self).wf(),
            writes.wf(),
        ensures
            final(self).wf(),
            final(self).rows() == overlay(old(self).rows(), writes.pending()),
    {
        let ghost before = self.rows();
        let changes = writes.changes;
        let mut i: usize = 0;
        while i < changes.len()
            invariant
                self.data.wf(),
                changes.wf(),
                i <= changes.key_seq().len(),
                forall|k: Seq<u8>| #[trigger]
                    row_at(self.rows(), k) == if changes@.dom().contains(k) && changes.position(k)
                        < i {
                        value_of(changes@[k])
                    } else {
                        row_at(before, k)
                    },
            decreases changes.key_seq().len() - i,
        {
            let ghost now = self.rows();
            let ghost here = changes.key_seq()[i as int];
            proof {
                changes.lemma_at(i as int);
            }
            let key = changes.key_at(i);
            match changes.value_at(i) {
                Some(v) => {
                    self.data.insert(key, copy_bytes(v.as_slice()));
                },
                None => {
                    self.data.remove(key);
                },
            }
            proof {
                assert forall|k: Seq<u8>| #[trigger]
                    row_at(self.rows(), k) == if changes@.dom().contains(k) && changes.position(k)
                        < i + 1 {
                        value_of(changes@[k])
                    } else {
                        row_at(before, k)
                    } by {
                    assert(k != here ==> row_at(self.rows(), k) == row_at(now, k));
                    if changes@.dom().contains(k) {
                        changes.lemma_position(k);
                    }
                }
            }
            i = i + 1;
        }
        proof {
            let target = overlay(before, changes@);
            assert forall|k: Seq<u8>| row_at(self.rows(), k) == row_at(target, k) by {
                if changes@.dom().contains(k) {
                    changes.lemma_position(k);
                }
            }
            assert forall|k: Seq<u8>| self.rows().dom().contains(k) <==> target.dom().contains(
                k,
            ) by {
                assert(row_at(self.rows(), k) == row_at(target, k));
            }
            assert forall|k: Seq<u8>| self.rows().dom().contains(k) implies self.rows()[k]
                == target[k] by {
                assert(row_at(self.rows(), k) == row_at(target, k));
            }
            assert(self.rows() =~= target);
        }
    }

    /// A rendering that reports only the committed row count, never the bytes:
    /// the store may hold key material.
    pub fn describe(&self) -> (r: String)
        requires
            self.wf(),
        ensures
            r@ == "BTreeMapStore { rows: "@ + decimal(self.rows().len()) + " }"@,
    {
        with_number("BTreeMapStore { rows: ", self.len() as u64, " }")
    }
}

// ---------------------------------------------------------------------------
// Raw views over the merged base-plus-buffer
// ---------------------------------------------------------------------------

/// A read-only raw view of the merged base-plus-buffer.
pub struct BufReadView<'b> {
    base: &'b ByteMap<Vec<u8>>,
    buffer: &'b ByteMap<Option<Vec<u8>>>,
}

/// A read-write raw view of the merged base-plus-buffer: reads merge as in
/// [`BufReadView`], writes go to the buffer.
pub struct BufWriteView<'b> {
    base: &'b ByteMap<Vec<u8>>,
    buffer: ByteMap<Option<Vec<u8>>>,
}

impl<'b> BufReadView<'b> {
    /// A view of `base` with `buffer` laid over it.
    pub fn new(base: &'b ByteMap<Vec<u8>>, buffer: &'b ByteMap<Option<Vec<u8>>>) -> (r: Self)
        requires
            base.wf(),
            buffer.wf(),
        ensures
            r.wf(),
            r.rows() == overlay(rows_of(base@), buffer@),
            r.terms() == (Terms { readable: true, writable: false, beneath: rows_of(base@) }),
    {
        BufReadView { base, buffer }
    }
}

impl<'b> BufWriteView<'b> {
    /// The buffered writes.
    pub closed spec fn pending(&self) -> Pending {
        self.buffer@
    }

    /// A view of `base` with `buffer` laid over it, whose writes go to
    /// `buffer`.
    pub fn new(base: &'b ByteMap<Vec<u8>>, buffer: ByteMap<Option<Vec<u8>>>) -> (r: Self)
        requires
            base.wf(),
            buffer.wf(),
        ensures
            r.wf(),
            r.rows() == overlay(rows_of(base@), buffer@),
            r.terms() == (Terms { readable: true, writable: true, beneath: rows_of(base@) }),
            r.touched() == buffer@.dom(),
            r.pending() == buffer@,
    {
        BufWriteView { base, buffer }
    }

    /// The buffer, with the writes made through the view.
    pub fn into_buffer(self) -> (r: ByteMap<Option<Vec<u8>>>)
        requires
            self.wf(),
        ensures
            r.wf(),
            overlay(self.terms().beneath, r@) == self.rows(),
            r@ == self.pending(),
            r@.dom() == self.touched(),
    {
        self.buffer
    }
}

/// Whether `key` lies inside `start..end` by plain lexicographic byte order.
pub fn key_in_range(key: &[u8], start: Bound<&[u8]>, end: Bound<&[u8]>) -> (r: bool)
    ensures
        r == in_range(key@, bound_of(start), bound_of(end)),
{
    key_in_bounds(key, &start, &end)
}

/// The rows of the merged view in the requested direction.
pub(crate) fn merged_rows(
    base: &ByteMap<Vec<u8>>,
    buffer: &ByteMap<Option<Vec<u8>>>,
    start: Bound<&[u8]>,
    end: Bound<&[u8]>,
    forward: bool,
) -> (r: Vec<KvPair>)
    requires
        base.wf(),
        buffer.wf(),
    ensures
        is_scan(overlay(rows_of(base@), buffer@), bound_of(start), bound_of(end), forward, r@),
{
    directed(
        merged_scan(base, buffer, start, end),
        forward,
        Ghost(overlay(rows_of(base@), buffer@)),
        Ghost(bound_of(start)),
        Ghost(bound_of(end)),
    )
}

/// The raw-view error. The merged view cannot fail to read; only a write
/// routed through a read-only view can.
#[derive(Debug, Clone, Copy, PartialEq, Eq, Structural)]
pub struct BufViewError;

impl RetryableStorageError for BufViewError {
    open spec fn retryable(&self) -> bool {
        false
    }

    fn is_retryable(&self) -> (r: bool) {
        false
    }
}

impl ErrorMessage for BufViewError {
    open spec fn text(&self) -> Seq<char> {
        "in-memory raw view is read-only"@
    }

    fn message(&self) -> (r: String) {
        "in-memory raw view is read-only".to_owned()
    }
}

impl<'b> RawKv for BufReadView<'b> {
    type Error = BufViewError;

    closed spec fn wf(&self) -> bool {
        self.base.wf() && self.buffer.wf()
    }

    closed spec fn rows(&self) -> Rows {
        overlay(rows_of(self.base@), self.buffer@)
    }

    closed spec fn touched(&self) -> Set<Seq<u8>> {
        self.buffer@.dom()
    }

    closed spec fn terms(&self) -> Terms {
        Terms { readable: true, writable: false, beneath: rows_of(self.base@) }
    }

    proof fn rows_finite(&self) {
        lemma_overlay_finite(*self.base, *self.buffer);
    }

    fn get(&self, key: &[u8]) -> (r: Result<Option<Vec<u8>>, BufViewError>) {
        Ok(merged_get(self.base, self.buffer, key))
    }

    fn scan(&self, start: Bound<&[u8]>, end: Bound<&[u8]>, forward: bool) -> (r: Result<
        Vec<KvPair>,
        BufViewError,
    >) {
        Ok(merged_rows(self.base, self.buffer, start, end, forward))
    }

    fn insert(&mut self, key: &[u8], value: &[u8]) -> (r: Result<(), BufViewError>)
        ensures
            *final(self) == *old(self),
            r == Err::<(), BufViewError>(BufViewError),
    {
        Err(BufViewError)
    }

    fn delete(&mut self, key: &[u8]) -> (r: Result<(), BufViewError>)
        ensures
            *final(self) == *old(self),
            r == Err::<(), BufViewError>(BufViewError),
    {
        Err(BufViewError)
    }

    fn clear_range(&mut self, start: Bound<&[u8]>, end: Bound<&[u8]>) -> (r: Result<
        (),
        BufViewError,
    >)
        ensures
            *final(self) == *old(self),
            r == Err::<(), BufViewError>(BufViewError),
    {
        Err(BufViewError)
    }
}

impl<'b> RawKv for BufWriteView<'b> {
    type Error = BufViewError;

    closed spec fn wf(&self) -> bool {
        self.base.wf() && self.buffer.wf()
    }

    closed spec fn rows(&self) -> Rows {
        overlay(rows_of(self.base@), self.buffer@)
    }

    closed spec fn touched(&self) -> Set<Seq<u8>> {
        self.buffer@.dom()
    }

    closed spec fn terms(&self) -> Terms {
        Terms { readable: true, writable: true, beneath: rows_of(self.base@) }
    }

    proof fn rows_finite(&self) {
        lemma_overlay_finite(*self.base, self.buffer);
    }

    fn get(&self, key: &[u8]) -> (r: Result<Option<Vec<u8>>, BufViewError>) {
        Ok(merged_get(self.base, &self.buffer, key))
    }

    fn scan(&self, start: Bound<&[u8]>, end: Bound<&[u8]>, forward: bool) -> (r: Result<
        Vec<KvPair>,
        BufViewError,
    >) {
        Ok(merged_rows(self.base, &self.buffer, start, end, forward))
    }

    fn insert(&mut self, key: &[u8], value: &[u8]) -> (r: Result<(), BufViewError>) {
        let ghost base = rows_of(self.base@);
        let ghost before = self.buffer@;
        let v = copy_bytes(value);
        proof {
            law_overlay_set(base, before, key@, v);
        }
        self.buffer.insert(key, Some(v));
        assert(self.buffer@.dom() =~= before.dom().insert(key@));
        Ok(())
    }

    fn delete(&mut self, key: &[u8]) -> (r: Result<(), BufViewError>) {
        let ghost before = self.buffer@;
        proof {
            law_overlay_delete(rows_of(self.base@), self.buffer@, key@);
        }
        self.buffer.insert(key, None);
        assert(self.buffer@.dom() =~= before.dom().insert(key@));
        Ok(())
    }

    fn clear_range(&mut self, start: Bound<&[u8]>, end: Bound<&[u8]>) -> (r: Result<
        (),
        BufViewError,
    >) {
        let ghost before = self.buffer@;
        let ghost base = rows_of(self.base@);
        let ghost shown = self.rows();
        merged_clear(self.base, &mut self.buffer, start, end);
        proof {
            let within = keys_within(shown, bound_of(start), bound_of(end));
            assert(self.buffer@.dom() =~= before.dom().union(within)) by {
                assert forall|k: Seq<u8>| self.buffer@.dom().contains(k) <==> before.dom().union(
                    within,
                ).contains(k) by {
                    law_overlay_reads(base, before, k);
                }
            }
        }
        Ok(())
    }
}

// ---------------------------------------------------------------------------
// The store surface
// ---------------------------------------------------------------------------

/// The error type for the in-memory backend: the flat-layout error with the
/// merged raw view's error as its engine source.
///
/// Its text is that of the layout error. Nothing here is retryable: the view
/// cannot fail to read, and a layout precondition on an in-memory store would
/// be a bug, not a transient condition.
#[derive(Debug, PartialEq)]
pub struct BTreeMapError(pub FlatError<BufViewError>);

impl BTreeMapError {
    /// Why the operation was refused; the view itself does not fail.
    pub open spec fn refusal(&self) -> Option<Refusal> {
        refusal_of(self.0)
    }
}

impl From<FlatError<BufViewError>> for BTreeMapError {
    fn from(e: FlatError<BufViewError>) -> (r: Self) {
        BTreeMapError(e)
    }
}

impl vstd::std_specs::convert::FromSpecImpl<FlatError<BufViewError>> for BTreeMapError {
    open spec fn obeys_from_spec() -> bool {
        true
    }

    open spec fn from_spec(e: FlatError<BufViewError>) -> Self {
        BTreeMapError(e)
    }
}

impl RetryableStorageError for BTreeMapError {
    open spec fn retryable(&self) -> bool {
        self.0.retryable()
    }

    fn is_retryable(&self) -> (r: bool) {
        self.0.is_retryable()
    }
}

impl ErrorMessage for BTreeMapError {
    open spec fn text(&self) -> Seq<char> {
        self.0.text()
    }

    fn message(&self) -> (r: String) {
        self.0.message()
    }
}

/// No error of the in-memory backend is retryable.
pub proof fn law_not_retryable(e: BTreeMapError)
    ensures
        !e.retryable(),
{
}

/// A read-write view over one [`BTreeMapStore`] that buffers its writes.
///
/// Reads see the transaction's own uncommitted writes (a buffered value, or a
/// tombstone for a deletion, taking precedence over the base); [`Commit`] hands
/// the whole buffer to the base, and dropping the transaction discards it.
pub struct BTreeMapTransaction<'s> {
    base: &'s BTreeMapStore,
    /// Pending writes. `Some(v)` is a set, `None` a deletion (tombstone).
    ///
    /// A tombstone matters when the key exists in the base: a plain "skip"
    /// would let the base value leak through on a later read.
    buffer: ByteMap<Option<Vec<u8>>>,
}

impl<'s> BTreeMapTransaction<'s> {
    /// The committed rows beneath the transaction.
    pub closed spec fn base_rows(&self) -> Rows {
        self.base.rows()
    }

    /// The pending writes.
    pub closed spec fn pending(&self) -> Pending {
        self.buffer@
    }

    /// The rows that the transaction sees: the pending writes over the
    /// committed rows.
    pub open spec fn rows(&self) -> Rows {
        overlay(self.base_rows(), self.pending())
    }

    /// Number of pending (uncommitted) raw writes, including tombstones.
    pub fn pending_len(&self) -> (n: usize)
        requires
            self.wf(),
        ensures
            n == self.pending().len(),
    {
        self.buffer.len()
    }

    /// Only finitely many writes are pending.
    pub proof fn lemma_pending_finite(&self)
        requires
            self.wf(),
        ensures
            self.pending().dom().finite(),
    {
        self.buffer.lemma_finite();
    }

    /// A rendering that reports only the pending write count, never the
    /// buffered bytes.
    pub fn describe(&self) -> (r: String)
        requires
            self.wf(),
        ensures
            r@ == "BTreeMapTransaction { pending: "@ + decimal(self.pending().len()) + " }"@,
    {
        with_number("BTreeMapTransaction { pending: ", self.buffer.len() as u64, " }")
    }

    /// The engine over the transaction's read view.
    fn reader(&self) -> (r: FlatEngine<BufReadView<'_>>)
        requires
            self.wf(),
        ensures
            r.wf(),
            r.rows() == self.rows(),
            r.terms().readable,
    {
        FlatEngine::new(BufReadView::new(&self.base.data, &self.buffer))
    }

    /// The engine over the transaction's write view, which takes the buffer
    /// along.
    fn take_writer(&mut self) -> (r: FlatEngine<BufWriteView<'s>>)
        requires
            old(self).wf(),
        ensures
            r.wf(),
            r.rows() == old(self).rows(),
            r.terms() == (Terms {
                readable: true,
                writable: true,
                beneath: old(self).base_rows(),
            }),
            r.view_of().pending() == old(self).pending(),
            r.touched() == old(self).pending().dom(),
            final(self).wf(),
            final(self).base_rows() == old(self).base_rows(),
    {
        let mut buffer: ByteMap<Option<Vec<u8>>> = ByteMap::new();
        core::mem::swap(&mut self.buffer, &mut buffer);
        FlatEngine::new(BufWriteView::new(&self.base.data, buffer))
    }

    /// Takes the buffer back from the engine.
    fn put_writer(&mut self, engine: FlatEngine<BufWriteView<'s>>)
        requires
            old(self).wf(),
            engine.wf(),
            engine.terms().beneath == old(self).base_rows(),
        ensures
            final(self).wf(),
            final(self).base_rows() == old(self).base_rows(),
            final(self).rows() == engine.rows(),
            final(self).pending() == engine.view_of().pending(),
            final(self).pending().dom() == engine.touched(),
    {
        self.buffer = engine.into_raw().into_buffer();
    }
}

impl<'s> KvStore for BTreeMapTransaction<'s> {
    type Error = BTreeMapError;

    closed spec fn wf(&self) -> bool {
        self.base.wf() && self.buffer.wf()
    }

    open spec fn in_order(&self) -> bool {
        healthy(self.rows())
    }

    open spec fn can_read(&self) -> bool {
        true
    }

    open spec fn can_write(&self) -> bool {
        true
    }

    open spec fn content_of(&self, dir: Seq<Seq<u8>>) -> Rows {
        dir_content(self.rows(), dir)
    }

    open spec fn dir_there(&self, dir: Seq<Seq<u8>>) -> bool {
        dir_found(self.rows(), dir)
    }

    open spec fn origin(&self) -> Origin {
        Origin { rows: self.base_rows(), revision: None }
    }

    open spec fn has_room(&self, dir: Seq<Seq<u8>>) -> bool {
        room(self.rows(), dir.len() + 1)
    }

    fn get(&self, dir: &[&[u8]], key: &[u8]) -> (r: Result<Option<Vec<u8>>, BTreeMapError>)
        ensures
            match r {
                Ok(_) => lookup(self.rows(), path_of(dir@)) is Ok,
                Err(e) => e.refusal() is Some && lookup(self.rows(), path_of(dir@)) == Err::<
                    Option<Seq<u8>>,
                    Refusal,
                >(e.refusal()->0),
            },
    {
        proof {
            if valid_path(path_of(dir@)) && healthy(self.rows()) {
                law_lookup_succeeds(self.rows(), path_of(dir@));
            }
        }
        match self.reader().get(dir, key) {
            Ok(v) => Ok(v),
            Err(e) => Err(BTreeMapError(e)),
        }
    }

    fn set(&mut self, dir: &[&[u8]], key: &[u8], value: &[u8]) -> (r: Result<(), BTreeMapError>)
        ensures
            final(self).base_rows() == old(self).base_rows(),
            match r {
                Ok(()) => {
                    &&& sets(
                        old(self).rows(),
                        path_of(dir@),
                        key@,
                        value@,
                        final(self).rows(),
                    )
                    &&& set_touches(
                        old(self).rows(),
                        path_of(dir@),
                        key@,
                        old(self).pending().dom(),
                        final(self).pending().dom(),
                    )
                },
                Err(e) => {
                    &&& e.refusal() is Some
                    &&& create_refused(old(self).rows(), path_of(dir@), e.refusal()->0)
                    &&& create_leaves(
                        old(self).rows(),
                        path_of(dir@),
                        e.refusal()->0,
                        final(self).rows(),
                    )
                    &&& same_data(old(self).rows(), final(self).rows())
                    &&& only_adds(
                        old(self).rows(),
                        final(self).rows(),
                        old(self).pending().dom(),
                        final(self).pending().dom(),
                    )
                    &&& creates_dir(old(self).rows(), path_of(dir@)) || (final(self).pending()
                        == old(self).pending() && final(self).rows() == old(self).rows())
                },
            },
    {
        let ghost before = self.rows();
        let ghost path = path_of(dir@);
        let mut engine = self.take_writer();
        let r = engine.set(dir, key, value);
        self.put_writer(engine);
        proof {
            if healthy(before) {
                if r is Ok {
                    law_set_everywhere(before, path, key@, value@, self.rows());
                } else if valid_path(path) && room(before, path.len() + 1) {
                    law_create_succeeds(before, path, refusal_of(r->Err_0)->0);
                }
            }
        }
        match r {
            Ok(()) => Ok(()),
            Err(e) => Err(BTreeMapError(e)),
        }
    }

    fn delete(&mut self, dir: &[&[u8]], key: &[u8]) -> (r: Result<(), BTreeMapError>)
        ensures
            final(self).base_rows() == old(self).base_rows(),
            match r {
                Ok(()) => {
                    &&& deletes(old(self).rows(), path_of(dir@), key@, final(self).rows())
                    &&& final(self).pending().dom() == match lookup(
                        old(self).rows(),
                        path_of(dir@),
                    ) {
                        Ok(Some(p)) => old(self).pending().dom().insert(p + key@),
                        _ => old(self).pending().dom(),
                    }
                },
                Err(e) => {
                    &&& e.refusal() is Some
                    &&& lookup(old(self).rows(), path_of(dir@)) == Err::<
                        Option<Seq<u8>>,
                        Refusal,
                    >(e.refusal()->0)
                    &&& final(self).rows() == old(self).rows()
                    &&& final(self).pending() == old(self).pending()
                },
            },
    {
        let ghost before = self.rows();
        let ghost path = path_of(dir@);
        let mut engine = self.take_writer();
        let r = engine.delete(dir, key);
        self.put_writer(engine);
        proof {
            if healthy(before) && valid_path(path) {
                law_lookup_succeeds(before, path);
                if r is Ok {
                    law_delete_everywhere(before, path, key@, self.rows());
                }
            }
        }
        match r {
            Ok(()) => Ok(()),
            Err(e) => Err(BTreeMapError(e)),
        }
    }

    fn range(&self, dir: &[&[u8]], start: Bound<&[u8]>, end: Bound<&[u8]>, reverse: bool) -> (r:
        KvStream<BTreeMapError>)
        ensures
            match r.failure() {
                None => lookup(self.rows(), path_of(dir@)) is Ok,
                Some(e) => r.items().len() == 0 && e.refusal() is Some && lookup(
                    self.rows(),
                    path_of(dir@),
                ) == Err::<Option<Seq<u8>>, Refusal>(e.refusal()->0),
            },
    {
        proof {
            if valid_path(path_of(dir@)) && healthy(self.rows()) {
                law_lookup_succeeds(self.rows(), path_of(dir@));
            }
        }
        match self.reader().scan(dir, start, end, !reverse) {
            Ok(pairs) => stream_from_pairs(pairs, false),
            Err(e) => KvStream::failed(BTreeMapError(e)),
        }
    }

    fn clear_range(&mut self, dir: &[&[u8]], start: Bound<&[u8]>, end: Bound<&[u8]>) -> (r: Result<
        (),
        BTreeMapError,
    >)
        ensures
            final(self).base_rows() == old(self).base_rows(),
            match r {
                Ok(()) => {
                    &&& clears(
                        old(self).rows(),
                        path_of(dir@),
                        bound_of(start),
                        bound_of(end),
                        final(self).rows(),
                    )
                    &&& final(self).pending().dom() == gone_touched(
                        old(self).rows(),
                        final(self).rows(),
                        old(self).pending().dom(),
                    )
                },
                Err(e) => {
                    &&& e.refusal() is Some
                    &&& lookup(old(self).rows(), path_of(dir@)) == Err::<
                        Option<Seq<u8>>,
                        Refusal,
                    >(e.refusal()->0)
                    &&& final(self).rows() == old(self).rows()
                    &&& final(self).pending() == old(self).pending()
                },
            },
    {
        let ghost before = self.rows();
        let ghost path = path_of(dir@);
        let ghost from = bound_of(start);
        let ghost to = bound_of(end);
        let mut engine = self.take_writer();
        let r = engine.clear_range(dir, start, end);
        self.put_writer(engine);
        proof {
            if healthy(before) && valid_path(path) {
                law_lookup_succeeds(before, path);
                if r is Ok {
                    law_clear_everywhere(before, path, from, to, self.rows());
                }
            }
        }
        match r {
            Ok(()) => Ok(()),
            Err(e) => Err(BTreeMapError(e)),
        }
    }
}

impl<'s> KvDirNav for BTreeMapTransaction<'s> {
    open spec fn removable(&self, dir: Seq<Seq<u8>>) -> bool {
        dir.len() > 0
    }

    fn list_dirs(&self, dir: &[&[u8]]) -> (r: Result<Vec<Vec<u8>>, BTreeMapError>)
        ensures
            match r {
                Ok(names) => lists(self.rows(), path_of(dir@), byte_strings(names@)),
                Err(e) => e.refusal() is Some && listing_refused(
                    self.rows(),
                    path_of(dir@),
                    e.refusal()->0,
                ),
            },
    {
        let r = self.reader().list_dirs(dir);
        proof {
            let m = self.rows();
            let path = path_of(dir@);
            if valid_path(path) && healthy(m) {
                law_listing_succeeds(m, path);
                if r is Ok && dir_found(m, path) {
                    law_listing_everywhere(
                        m,
                        path,
                        (lookup(m, path)->Ok_0)->0,
                        byte_strings((r->Ok_0)@),
                    );
                }
            }
        }
        match r {
            Ok(names) => Ok(names),
            Err(e) => Err(BTreeMapError(e)),
        }
    }

    fn dir_exists(&self, dir: &[&[u8]]) -> (r: Result<bool, BTreeMapError>)
        ensures
            match r {
                Ok(_) => lookup(self.rows(), path_of(dir@)) is Ok,
                Err(e) => e.refusal() is Some && lookup(self.rows(), path_of(dir@)) == Err::<
                    Option<Seq<u8>>,
                    Refusal,
                >(e.refusal()->0),
            },
    {
        proof {
            if valid_path(path_of(dir@)) && healthy(self.rows()) {
                law_lookup_succeeds(self.rows(), path_of(dir@));
            }
        }
        match self.reader().dir_exists(dir) {
            Ok(b) => Ok(b),
            Err(e) => Err(BTreeMapError(e)),
        }
    }

    fn remove_dir(&mut self, dir: &[&[u8]]) -> (r: Result<bool, BTreeMapError>)
        ensures
            final(self).base_rows() == old(self).base_rows(),
            match r {
                Ok(removed) => {
                    &&& removes(old(self).rows(), path_of(dir@), removed, final(self).rows())
                    &&& final(self).pending().dom() == if removed {
                        swept(old(self).rows(), final(self).rows(), old(self).pending().dom())
                    } else {
                        old(self).pending().dom()
                    }
                },
                Err(e) => {
                    &&& e.refusal() is Some
                    &&& remove_refused(old(self).rows(), path_of(dir@), e.refusal()->0)
                    &&& if dir@.len() == 0 || !dir_found(old(self).rows(), path_of(dir@)) {
                        final(self).rows() == old(self).rows() && final(self).pending() == old(
                            self,
                        ).pending()
                    } else {
                        &&& broken_off(old(self).rows(), path_of(dir@), final(self).rows())
                        &&& final(self).pending().dom() == swept(
                            old(self).rows(),
                            final(self).rows(),
                            old(self).pending().dom(),
                        )
                    }
                },
            },
    {
        let ghost before = self.rows();
        let ghost path = path_of(dir@);
        let mut engine = self.take_writer();
        let r = engine.remove_dir(dir);
        self.put_writer(engine);
        proof {
            if healthy(before) && valid_path(path) && path.len() > 0 {
                if r is Ok {
                    law_remove_everywhere(before, path, r->Ok_0, self.rows());
                } else {
                    law_remove_succeeds(before, path, refusal_of(r->Err_0)->0);
                }
            }
        }
        match r {
            Ok(removed) => Ok(removed),
            Err(e) => Err(BTreeMapError(e)),
        }
    }
}

impl<'s> Commit for BTreeMapTransaction<'s> {
    type Error = BTreeMapError;

    type Outcome = WriteSet;

    open spec fn ready(&self) -> bool {
        self.wf()
    }

    open spec fn ends_with(&self, outcome: WriteSet) -> bool {
        outcome.pending() == self.pending() && outcome.wf()
    }

    open spec fn may_fail(&self) -> bool {
        false
    }

    fn commit(self) -> (r: Result<WriteSet, BTreeMapError>) {
        Ok(WriteSet { changes: self.buffer })
    }
}

/// A commit makes exactly what the transaction saw the committed rows: the write
/// set it ends with, applied to the rows it was opened over, gives its own view.
pub proof fn law_commit(tx: BTreeMapTransaction<'_>, writes: WriteSet, committed: Rows)
    requires
        tx.wf(),
        tx.ends_with(writes),
        committed == overlay(tx.base_rows(), writes.pending()),
    ensures
        committed == tx.rows(),
        forall|dir: Seq<Seq<u8>>| #[trigger]
            dir_content(committed, dir) == tx.content_of(dir),
{
}

/// Drive a list of pairs as a [`KvStream`], one per `next()` call.
///
/// The stream owns its data, so it needs no borrow of a store and can outlive
/// any transaction that produced it. Each `next()` pulls the next pair off the
/// front (or back, if `reverse`).
pub fn stream_from_pairs(pairs: Vec<KvPair>, reverse: bool) -> (r: KvStream<BTreeMapError>)
    ensures
        r.items() == if reverse {
            pairs@.reverse()
        } else {
            pairs@
        },
        r.failure() is None,
{
    KvStream::from_pairs(pairs, reverse)
}

} // verus!
