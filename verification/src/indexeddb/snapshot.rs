//! An owned session snapshot and the write set applied by a fenced commit.
//!
//! The current view is updated synchronously so the shared directory engine can
//! use its ordinary [`RawKv`] interface. Only changed keys enter the write
//! buffer; committing never replaces the whole database.

use core::ops::Bound;

use vstd::prelude::*;

use crate::bytemap::ByteMap;
use crate::bytes::copy_bytes;
use crate::indexeddb::convert::{
    binary_bytes, bytes_in, checked_revision, is_bad_record, is_not_binary, revision_in,
    BinaryValue, RevisionRecord,
};
use crate::indexeddb::error::{
    corrupt, is_corrupt_with, is_readonly_failure, readonly_result, IndexedDbError, TransactionEnd,
};
use crate::indexeddb::revision::Revision;
use crate::indexeddb::settle::CursorPage;
use crate::keyspace::bound_of;
use crate::overlay::{
    copy_value, law_overlay_delete, law_overlay_empty, law_overlay_reads, law_overlay_set, overlay,
    rows_of, Pending,
};
use crate::rawkv::{keys_within, row_at, value_of, without_range, RawKv, Rows, Terms};
use crate::stream::KvPair;

verus! {

/// Pending sets and tombstones, in deterministic raw-key order.
pub struct WriteBuffer {
    entries: ByteMap<Option<Vec<u8>>>,
}

/// The writes that a list of operations holds, in key order.
pub open spec fn is_op_list(pending: Pending, ops: Seq<(Vec<u8>, Option<Vec<u8>>)>) -> bool {
    &&& forall|i: int|
        0 <= i < ops.len() ==> pending.dom().contains((#[trigger] ops[i]).0@) && value_of(ops[i].1)
            == value_of(pending[ops[i].0@])
    &&& forall|i: int, j: int|
        #![trigger ops[i], ops[j]]
        0 <= i < j < ops.len() ==> crate::bytes::lt(ops[i].0@, ops[j].0@)
    &&& forall|k: Seq<u8>| #[trigger]
        pending.dom().contains(k) ==> exists|i: int| 0 <= i < ops.len() && (#[trigger] ops[i]).0@ == k
}

impl WriteBuffer {
    /// The buffer's own invariant.
    pub closed spec fn wf(&self) -> bool {
        self.entries.wf()
    }

    /// The pending writes.
    pub closed spec fn pending(&self) -> Pending {
        self.entries@
    }

    /// An empty buffer.
    pub fn new() -> (r: Self)
        ensures
            r.wf(),
            r.pending() == Map::<Seq<u8>, Option<Vec<u8>>>::empty(),
    {
        WriteBuffer { entries: ByteMap::new() }
    }

    /// Whether nothing is pending.
    pub fn is_empty(&self) -> (r: bool)
        requires
            self.wf(),
        ensures
            r == (self.pending() == Map::<Seq<u8>, Option<Vec<u8>>>::empty()),
    {
        proof {
            self.entries.lemma_finite();
            if self.entries@.dom().len() == 0 {
                assert(self.entries@.dom() =~= Set::<Seq<u8>>::empty());
                assert(self.entries@ =~= Map::<Seq<u8>, Option<Vec<u8>>>::empty());
            }
        }
        self.entries.len() == 0
    }

    /// The number of keys with a pending value or tombstone.
    pub fn len(&self) -> (n: usize)
        requires
            self.wf(),
        ensures
            n == self.pending().len(),
    {
        self.entries.len()
    }

    /// The pending writes as a list, in key order.
    pub fn drain_ops(self) -> (r: Vec<(Vec<u8>, Option<Vec<u8>>)>)
        requires
            self.wf(),
        ensures
            is_op_list(self.pending(), r@),
            r@.len() == self.pending().len(),
    {
        let entries = self.entries;
        let mut ops: Vec<(Vec<u8>, Option<Vec<u8>>)> = Vec::new();
        let mut i: usize = 0;
        let n = entries.len();
        while i < n
            invariant
                entries.wf(),
                n == entries.key_seq().len(),
                i <= n,
                ops@.len() == i,
                forall|j: int|
                    0 <= j < i ==> (#[trigger] ops@[j]).0@ == entries.key_seq()[j] && value_of(
                        ops@[j].1,
                    ) == value_of(entries@[entries.key_seq()[j]]),
            decreases n - i,
        {
            ops.push((copy_bytes(entries.key_at(i)), copy_value(entries.value_at(i))));
            i = i + 1;
        }
        proof {
            assert forall|j: int| 0 <= j < ops@.len() implies entries@.dom().contains(
                (#[trigger] ops@[j]).0@,
            ) by {
                entries.lemma_at(j);
            }
            assert forall|a: int, b: int|
                #![trigger ops@[a], ops@[b]]
                0 <= a < b < ops@.len() implies crate::bytes::lt(ops@[a].0@, ops@[b].0@) by {
                assert(crate::bytes::lt(entries.key_seq()[a], entries.key_seq()[b]));
            }
            assert forall|k: Seq<u8>| #[trigger] entries@.dom().contains(k) implies exists|j: int|
                0 <= j < ops@.len() && (#[trigger] ops@[j]).0@ == k by {
                entries.lemma_position(k);
                assert(ops@[entries.position(k)].0@ == k);
            }
        }
        ops
    }
}

/// What replaying a list of operations makes of the rows.
pub open spec fn replayed(base: Rows, ops: Seq<(Vec<u8>, Option<Vec<u8>>)>) -> Rows
    decreases ops.len(),
{
    if ops.len() == 0 {
        base
    } else {
        let before = replayed(base, ops.drop_last());
        match ops.last().1 {
            Some(v) => before.insert(ops.last().0@, v@),
            None => before.remove(ops.last().0@),
        }
    }
}

/// Replaying the operations of a write set, one by one, lays the write set over
/// the rows: what a session saw is what its commit leaves.
pub proof fn law_replay(base: Rows, pending: Pending, ops: Seq<(Vec<u8>, Option<Vec<u8>>)>)
    requires
        is_op_list(pending, ops),
    ensures
        replayed(base, ops) == overlay(base, pending),
{
    let a = replayed(base, ops);
    let b = overlay(base, pending);
    assert forall|k: Seq<u8>| row_at(a, k) == row_at(b, k) by {
        lemma_replay_at(base, ops, k);
        law_overlay_reads(base, pending, k);
        if pending.dom().contains(k) {
            let i = choose|i: int| 0 <= i < ops.len() && (#[trigger] ops[i]).0@ == k;
            assert forall|j: int| i < j < ops.len() implies (#[trigger] ops[j]).0@ != k by {
                crate::bytes::lemma_lt_irreflexive(k);
                let x = ops[i];
            }
            lemma_replay_hit(base, ops, k, i);
        }
    }
    assert forall|k: Seq<u8>| a.dom().contains(k) <==> b.dom().contains(k) by {
        assert(row_at(a, k) == row_at(b, k));
    }
    assert forall|k: Seq<u8>| a.dom().contains(k) implies a[k] == b[k] by {
        assert(row_at(a, k) == row_at(b, k));
    }
    assert(a =~= b);
}

/// A key that no operation names is left alone.
proof fn lemma_replay_at(base: Rows, ops: Seq<(Vec<u8>, Option<Vec<u8>>)>, k: Seq<u8>)
    ensures
        (forall|i: int| 0 <= i < ops.len() ==> (#[trigger] ops[i]).0@ != k) ==> row_at(
            replayed(base, ops),
            k,
        ) == row_at(base, k),
    decreases ops.len(),
{
    if ops.len() > 0 {
        let less = ops.drop_last();
        lemma_replay_at(base, less, k);
        if forall|i: int| 0 <= i < ops.len() ==> (#[trigger] ops[i]).0@ != k {
            assert forall|i: int| 0 <= i < less.len() implies (#[trigger] less[i]).0@ != k by {
                assert(ops[i].0@ != k);
            }
            assert(ops[ops.len() - 1].0@ != k);
        }
    }
}

/// The last operation that names a key decides what it holds.
proof fn lemma_replay_hit(
    base: Rows,
    ops: Seq<(Vec<u8>, Option<Vec<u8>>)>,
    k: Seq<u8>,
    i: int,
)
    requires
        0 <= i < ops.len(),
        ops[i].0@ == k,
        forall|j: int| i < j < ops.len() ==> (#[trigger] ops[j]).0@ != k,
    ensures
        row_at(replayed(base, ops), k) == value_of(ops[i].1),
    decreases ops.len(),
{
    if i < ops.len() - 1 {
        let less = ops.drop_last();
        assert(ops[ops.len() - 1].0@ != k);
        assert forall|j: int| i < j < less.len() implies (#[trigger] less[j]).0@ != k by {
            assert(ops[j].0@ != k);
        }
        lemma_replay_hit(base, less, k, i);
    }
}

/// One consistent committed snapshot, updated with this session's own writes.
pub struct Snapshot {
    rows: ByteMap<Vec<u8>>,
    buffer: WriteBuffer,
    /// The rows as they were captured.
    base: Ghost<Rows>,
}

impl Snapshot {
    /// The rows as they were captured.
    pub closed spec fn captured(&self) -> Rows {
        self.base@
    }

    /// The session's pending writes.
    pub closed spec fn pending(&self) -> Pending {
        self.buffer.pending()
    }

    /// A snapshot of these rows.
    pub fn new(rows: ByteMap<Vec<u8>>) -> (r: Self)
        requires
            rows.wf(),
        ensures
            r.wf(),
            r.captured() == rows_of(rows@),
            r.rows() == rows_of(rows@),
            r.pending() == Map::<Seq<u8>, Option<Vec<u8>>>::empty(),
    {
        let ghost base = rows_of(rows@);
        proof {
            law_overlay_empty(base);
        }
        Snapshot { rows, buffer: WriteBuffer::new(), base: Ghost(base) }
    }

    /// The write set and what it is based on: the snapshot shows exactly what
    /// replaying the write set over the captured rows gives.
    pub proof fn law_delta(&self)
        requires
            self.wf(),
        ensures
            self.rows() == overlay(self.captured(), self.pending()),
    {
    }

    /// Finitely many keys are pending.
    pub proof fn lemma_pending_finite(&self)
        requires
            self.wf(),
        ensures
            self.pending().dom().finite(),
    {
        self.buffer.entries.lemma_finite();
    }

    /// The snapshot serves reads and takes writes, over the captured rows.
    pub proof fn lemma_terms(&self)
        ensures
            self.terms() == (Terms { readable: true, writable: true, beneath: self.captured() }),
            self.touched() == self.pending().dom(),
    {
    }

    /// The pending writes.
    pub fn buffer(&self) -> (r: &WriteBuffer)
        requires
            self.wf(),
        ensures
            r.wf(),
            r.pending() == self.pending(),
    {
        &self.buffer
    }

    /// The pending writes, given away.
    pub fn into_buffer(self) -> (r: WriteBuffer)
        requires
            self.wf(),
        ensures
            r.wf(),
            r.pending() == self.pending(),
            overlay(self.captured(), r.pending()) == self.rows(),
    {
        self.buffer
    }

    /// Takes one row out.
    fn take_row(&mut self, key: &[u8])
        requires
            old(self).wf(),
        ensures
            final(self).wf(),
            final(self).captured() == old(self).captured(),
            final(self).rows() == old(self).rows().remove(key@),
            final(self).touched() == old(self).touched().insert(key@),
    {
        let ghost base = self.base@;
        let ghost pending = self.buffer.entries@;
        let ghost before = rows_of(self.rows@);
        proof {
            law_overlay_delete(base, pending, key@);
        }
        self.rows.remove(key);
        self.buffer.entries.insert(key, None);
        assert(rows_of(self.rows@) =~= before.remove(key@));
        assert(self.buffer.pending().dom() =~= pending.dom().insert(key@));
    }
}

impl RawKv for Snapshot {
    type Error = IndexedDbError;

    closed spec fn wf(&self) -> bool {
        &&& self.rows.wf()
        &&& self.buffer.wf()
        &&& rows_of(self.rows@) == overlay(self.base@, self.buffer.pending())
    }

    closed spec fn rows(&self) -> Rows {
        rows_of(self.rows@)
    }

    closed spec fn touched(&self) -> Set<Seq<u8>> {
        self.buffer.pending().dom()
    }

    closed spec fn terms(&self) -> Terms {
        Terms { readable: true, writable: true, beneath: self.base@ }
    }

    proof fn rows_finite(&self) {
        self.rows.lemma_finite();
        assert(self.rows().dom() =~= self.rows@.dom());
    }

    fn get(&self, key: &[u8]) -> (r: Result<Option<Vec<u8>>, IndexedDbError>) {
        match self.rows.get(key) {
            Some(v) => Ok(Some(copy_bytes(v.as_slice()))),
            None => Ok(None),
        }
    }

    fn scan(&self, start: Bound<&[u8]>, end: Bound<&[u8]>, forward: bool) -> (r: Result<
        Vec<KvPair>,
        IndexedDbError,
    >) {
        let none: ByteMap<Option<Vec<u8>>> = ByteMap::new();
        proof {
            law_overlay_empty(rows_of(self.rows@));
        }
        Ok(crate::btreemap::merged_rows(&self.rows, &none, start, end, forward))
    }

    fn insert(&mut self, key: &[u8], value: &[u8]) -> (r: Result<(), IndexedDbError>) {
        let ghost base = self.base@;
        let ghost pending = self.buffer.entries@;
        let ghost before = rows_of(self.rows@);
        let v = copy_bytes(value);
        proof {
            law_overlay_set(base, pending, key@, v);
        }
        self.rows.insert(key, copy_bytes(value));
        self.buffer.entries.insert(key, Some(v));
        assert(rows_of(self.rows@) =~= before.insert(key@, value@));
        assert(self.buffer.pending().dom() =~= pending.dom().insert(key@));
        Ok(())
    }

    fn delete(&mut self, key: &[u8]) -> (r: Result<(), IndexedDbError>) {
        self.take_row(key);
        Ok(())
    }

    fn clear_range(&mut self, start: Bound<&[u8]>, end: Bound<&[u8]>) -> (r: Result<
        (),
        IndexedDbError,
    >) {
        let ghost before = self.rows();
        let ghost from = bound_of(start);
        let ghost to = bound_of(end);
        let (lo, hi) = self.rows.range(&start, &end);
        let keys = crate::overlay::keys_between(&self.rows, lo, hi);
        let ghost map = self.rows;
        let mut i: usize = 0;
        while i < keys.len()
            invariant
                self.wf(),
                self.captured() == old(self).captured(),
                i <= keys@.len(),
                forall|k: Seq<u8>| #[trigger]
                    self.touched().contains(k) <==> old(self).touched().contains(k)
                        || crate::overlay::among(keys@, i as int, k),
                forall|k: Seq<u8>| #[trigger]
                    row_at(self.rows(), k) == if crate::overlay::among(keys@, i as int, k) {
                        None
                    } else {
                        row_at(before, k)
                    },
            decreases keys.len() - i,
        {
            let ghost now = self.rows();
            let ghost touched = self.touched();
            let ghost here = keys@[i as int]@;
            self.take_row(keys[i].as_slice());
            proof {
                assert forall|k: Seq<u8>| #[trigger]
                    self.touched().contains(k) <==> old(self).touched().contains(k)
                        || crate::overlay::among(keys@, i + 1, k) by {
                    assert(self.touched().contains(k) <==> touched.contains(k) || k == here);
                    if crate::overlay::among(keys@, i as int, k) {
                        let n = choose|n: int| 0 <= n < i && (#[trigger] keys@[n])@ == k;
                        assert(0 <= n < i + 1 && keys@[n]@ == k);
                    }
                    if k == here {
                        assert(keys@[i as int]@ == k);
                    }
                }
                assert forall|k: Seq<u8>| #[trigger]
                    row_at(self.rows(), k) == if crate::overlay::among(keys@, i + 1, k) {
                        None
                    } else {
                        row_at(before, k)
                    } by {
                    assert(k != here ==> row_at(self.rows(), k) == row_at(now, k));
                    if crate::overlay::among(keys@, i as int, k) {
                        let n = choose|n: int| 0 <= n < i && (#[trigger] keys@[n])@ == k;
                        assert(0 <= n < i + 1 && keys@[n]@ == k);
                    }
                    if k == here {
                        assert(keys@[i as int]@ == k);
                    }
                }
            }
            i = i + 1;
        }
        proof {
            let target = without_range(before, from, to);
            assert forall|k: Seq<u8>| row_at(self.rows(), k) == row_at(target, k) by {
                crate::overlay::lemma_among_range(map, lo as int, hi as int, from, to, keys@, k);
            }
            assert forall|k: Seq<u8>| self.rows().dom().contains(k) <==> target.dom().contains(
                k,
            ) by {
                assert(row_at(self.rows(), k) == row_at(target, k));
            }
            assert forall|k: Seq<u8>| self.rows().dom().contains(k) implies self.rows()[k]
                == target[k] by {
                assert(row_at(self.rows(), k) == row_at(target, k));
            }
            assert(self.rows() =~= target);
            assert(self.touched() =~= old(self).touched().union(keys_within(before, from, to))) by {
                assert forall|k: Seq<u8>|
                    self.touched().contains(k) <==> old(self).touched().union(
                        keys_within(before, from, to),
                    ).contains(k) by {
                    crate::overlay::lemma_among_range(map, lo as int, hi as int, from, to, keys@, k);
                }
            }
        }
        Ok(())
    }
}

/// Whether a row of a page can be stored: its key and its value are binary, and
/// no row before it has the same key.
pub open spec fn row_fits(rows: Seq<(BinaryValue, BinaryValue)>, i: int) -> bool {
    &&& bytes_in(rows[i].0) is Some
    &&& bytes_in(rows[i].1) is Some
    &&& forall|j: int| 0 <= j < i ==> bytes_in((#[trigger] rows[j]).0) != bytes_in(rows[i].0)
}

/// Whether a row is the first one of a page that cannot be stored.
pub open spec fn first_misfit(rows: Seq<(BinaryValue, BinaryValue)>, i: int) -> bool {
    &&& 0 <= i < rows.len()
    &&& !row_fits(rows, i)
    &&& forall|j: int| 0 <= j < i ==> #[trigger] row_fits(rows, j)
}

/// Whether an error reports why a row cannot be stored.
pub open spec fn is_misfit(row: (BinaryValue, BinaryValue), e: IndexedDbError) -> bool {
    if bytes_in(row.0) is None {
        is_not_binary(row.0, "key"@, e)
    } else if bytes_in(row.1) is None {
        is_not_binary(row.1, "value"@, e)
    } else {
        is_corrupt_with(e, "duplicate binary key in snapshot"@)
    }
}

/// Whether a row of the page has this key.
pub open spec fn page_has_key(rows: Seq<(BinaryValue, BinaryValue)>, k: Seq<u8>) -> bool {
    exists|i: int| 0 <= i < rows.len() && bytes_in((#[trigger] rows[i]).0) == Some(k)
}

/// Whether a map holds exactly the rows of a page.
pub open spec fn holds_page(m: Rows, rows: Seq<(BinaryValue, BinaryValue)>) -> bool {
    &&& forall|i: int|
        0 <= i < rows.len() ==> (bytes_in((#[trigger] rows[i]).0) matches Some(k) && bytes_in(
            rows[i].1,
        ) == row_at(m, k))
    &&& forall|k: Seq<u8>| #[trigger] m.dom().contains(k) ==> page_has_key(rows, k)
}

/// Converts the rows of a page, up to the first that cannot be stored.
fn assemble_rows(rows: Vec<(BinaryValue, BinaryValue)>) -> (r: Result<
    ByteMap<Vec<u8>>,
    IndexedDbError,
>)
    ensures
        match r {
            Ok(map) => {
                &&& map.wf()
                &&& forall|i: int| 0 <= i < rows@.len() ==> #[trigger] row_fits(rows@, i)
                &&& holds_page(rows_of(map@), rows@)
            },
            Err(e) => exists|i: int| #[trigger] first_misfit(rows@, i) && is_misfit(rows@[i], e),
        },
{
    let mut map: ByteMap<Vec<u8>> = ByteMap::new();
    let mut i: usize = 0;
    while i < rows.len()
        invariant
            i <= rows@.len(),
            map.wf(),
            forall|j: int| 0 <= j < i ==> #[trigger] row_fits(rows@, j),
            forall|j: int|
                0 <= j < i ==> (bytes_in((#[trigger] rows@[j]).0) matches Some(k) && bytes_in(
                    rows@[j].1,
                ) == row_at(rows_of(map@), k)),
            forall|k: Seq<u8>| #[trigger]
                map@.dom().contains(k) ==> exists|j: int|
                    0 <= j < i && bytes_in((#[trigger] rows@[j]).0) == Some(k),
        decreases rows.len() - i,
    {
        let ghost all = rows@;
        let ghost n = i as int;
        let key = match binary_bytes(&rows[i].0, "key") {
            Ok(key) => key,
            Err(e) => {
                assert(first_misfit(all, n) && is_misfit(all[n], e));
                return Err(e);
            },
        };
        let value = match binary_bytes(&rows[i].1, "value") {
            Ok(value) => value,
            Err(e) => {
                assert(first_misfit(all, n) && is_misfit(all[n], e));
                return Err(e);
            },
        };
        if map.contains(key.as_slice()) {
            let e = corrupt("duplicate binary key in snapshot");
            proof {
                let j = choose|j: int|
                    0 <= j < n && bytes_in((#[trigger] all[j]).0) == Some(key@);
                assert(!row_fits(all, n));
                assert(first_misfit(all, n) && is_misfit(all[n], e));
            }
            return Err(e);
        }
        let ghost old_map = map@;
        map.insert(key.as_slice(), value);
        proof {
            assert forall|j: int| 0 <= j < n implies bytes_in((#[trigger] all[j]).0)
                != bytes_in(all[n].0) by {
                assert(row_fits(all, j));
                assert(row_at(rows_of(old_map), (bytes_in(all[j].0))->0) is Some);
            }
            assert(row_fits(all, n));
            assert forall|j: int| 0 <= j < n + 1 implies (bytes_in(
                (#[trigger] all[j]).0,
            ) matches Some(k) && bytes_in(all[j].1) == row_at(rows_of(map@), k)) by {
                if j < n {
                    assert(bytes_in(all[j].0) != bytes_in(all[n].0));
                }
            }
            assert forall|k: Seq<u8>| #[trigger]
                map@.dom().contains(k) implies exists|j: int|
                0 <= j < n + 1 && bytes_in((#[trigger] all[j]).0) == Some(k) by {
                if k == key@ {
                    assert(bytes_in(all[n].0) == Some(k));
                } else {
                    let j = choose|j: int|
                        0 <= j < n && bytes_in((#[trigger] all[j]).0) == Some(k);
                    assert(0 <= j < n + 1 && bytes_in(all[j].0) == Some(k));
                }
            }
        }
        i = i + 1;
    }
    assert forall|k: Seq<u8>| #[trigger] rows_of(map@).dom().contains(k) implies page_has_key(
        rows@,
        k,
    ) by {
        assert(map@.dom().contains(k));
    }
    Ok(map)
}

/// Assembles a snapshot from what one readonly transaction read: how it ended,
/// the revision record, and the page of a cursor over all rows.
///
/// The transaction's own failure comes before those of its requests, the
/// revision's before the rows'. A cursor that did not exhaust the database, a row
/// that is not binary, and a key that occurs twice are corrupt.
pub fn assemble_snapshot(
    end: TransactionEnd,
    revision: Result<RevisionRecord, IndexedDbError>,
    page: Result<CursorPage<(BinaryValue, BinaryValue)>, IndexedDbError>,
) -> (r: Result<(ByteMap<Vec<u8>>, Revision), IndexedDbError>)
    ensures
        match r {
            Ok((map, expected)) => {
                &&& end is Complete
                &&& (revision matches Ok(record) && revision_in(record) == Some(expected.value()))
                &&& (page matches Ok(p) && p.exhausted && (forall|i: int|
                    0 <= i < p.rows@.len() ==> #[trigger] row_fits(p.rows@, i)) && holds_page(
                    rows_of(map@),
                    p.rows@,
                ))
                &&& map.wf()
            },
            Err(e) => if !(end is Complete) {
                is_readonly_failure(end, e)
            } else {
                match (revision, page) {
                    (Err(failure), _) => e == failure,
                    (Ok(record), _) if revision_in(record) is None => is_bad_record(record, e),
                    (_, Err(failure)) => e == failure,
                    (_, Ok(p)) => if !p.exhausted {
                        is_corrupt_with(e, "snapshot cursor did not exhaust the database"@)
                    } else {
                        exists|i: int| #[trigger]
                            first_misfit(p.rows@, i) && is_misfit(p.rows@[i], e)
                    },
                }
            },
        },
{
    if let Err(e) = readonly_result(end) {
        return Err(e);
    }
    let record = match revision {
        Ok(record) => record,
        Err(e) => return Err(e),
    };
    let expected = match checked_revision(record) {
        Ok(expected) => expected,
        Err(e) => return Err(e),
    };
    let page = match page {
        Ok(page) => page,
        Err(e) => return Err(e),
    };
    if !page.exhausted {
        return Err(corrupt("snapshot cursor did not exhaust the database"));
    }
    match assemble_rows(page.rows) {
        Ok(map) => Ok((map, expected)),
        Err(e) => Err(e),
    }
}

} // verus!
