//! Key ranges, captured snapshots, commits and callbacks of the browser backend.

use core::ops::Bound;

use vstd::prelude::*;

use crate::bytemap::ByteMap;
use crate::bytes::{lemma_order, lt};
use crate::call_laws::cluster::{law_lies_between, lies_between};
use crate::commit::Commit;
use crate::error::{ErrorMessage, RetryableStorageError};
use crate::flatdir::error::FlatError;
use crate::indexeddb::commit::{abort_error, fence_result, CommitPlan, CommitState, CommitStep};
use crate::indexeddb::convert::{
    binary_bytes, bytes_in, checked_revision, key_range, law_key_range, BinaryValue, KeyRange,
    RevisionRecord,
};
use crate::indexeddb::error::{
    begin_error, dom_error, layout_error, readonly_result, request_error, thrown_error, DomFailure,
    IndexedDbError, TransactionEnd,
};
use crate::indexeddb::revision::{Revision, RevisionNumber};
use crate::indexeddb::session::IndexedDbTransaction;
use crate::indexeddb::settle::{
    following_id, open_action, CursorEvent, CursorPage, CursorState, CursorStep, OpenAction,
    Settlement,
};
use crate::indexeddb::snapshot::{
    assemble_snapshot, first_misfit, is_misfit, is_op_list, page_has_key, row_fits,
};
use crate::keyspace::bound_of;
use crate::overlay::{law_overlay_reads, overlay, rows_of};
use crate::rawkv::{row_at, Rows};
use crate::store::KvStore;

verus! {

// ---------------------------------------------------------------------------
// Key ranges and stored values
// ---------------------------------------------------------------------------

/// A cursor range meets exactly the keys between the bounds. One with two ends has its
/// ends in order, so that the browser accepts it.
pub proof fn law_cursor_range(start: Bound<&[u8]>, end: Bound<&[u8]>, r: KeyRange, k: Seq<u8>)
    requires
        call_ensures(key_range, (start, end), r),
    ensures
        lies_between(k, start, end) <==> match r {
            KeyRange::Empty => false,
            KeyRange::All => true,
            KeyRange::Lower { lower, open } => lt(lower@, k) || (!open && k == lower@),
            KeyRange::Upper { upper, open } => lt(k, upper@) || (!open && k == upper@),
            KeyRange::Both { lower, upper, lower_open, upper_open } => {
                &&& lt(lower@, k) || (!lower_open && k == lower@)
                &&& lt(k, upper@) || (!upper_open && k == upper@)
            },
        },
        r matches KeyRange::Both { lower, upper, lower_open, upper_open } ==> lt(lower@, upper@)
            || (lower@ == upper@ && !lower_open && !upper_open),
{
    law_lies_between(k, start, end);
    law_key_range(bound_of(start), bound_of(end), r, k);
    if let KeyRange::Both { lower, upper, lower_open, upper_open } = r {
        lemma_order(lower@, upper@, lower@);
    }
}

/// Whether an error says that stored data is corrupt, in these words.
pub open spec fn is_corruption(e: IndexedDbError, words: Seq<char>) -> bool {
    e matches IndexedDbError::Corrupt { detail } && detail@ == words
}

/// Whether an error reports a failure of the browser with this name and message.
pub open spec fn is_failure(e: IndexedDbError, called: Seq<char>, words: Seq<char>) -> bool {
    e matches IndexedDbError::Backend { name, message } && name@ == called && message@ == words
}

/// The words on a value of another type: what is wrong, and the type where it is known.
pub open spec fn with_type(words: Seq<char>, name: Option<String>) -> Seq<char> {
    words + " (JavaScript type: "@ + (match name {
        Some(text) => text@,
        None => "unknown"@,
    }) + ")"@
}

/// A binary value gives all of its bytes, and nothing else gives any: it is reported by
/// its role and type.
pub proof fn law_binary_bytes(
    value: BinaryValue,
    what: &str,
    r: Result<Vec<u8>, IndexedDbError>,
)
    requires
        call_ensures(binary_bytes, (&value, what), r),
    ensures
        match value {
            BinaryValue::Bytes(stored) => r matches Ok(bytes) && bytes@ == stored@,
            BinaryValue::Other(name) => r matches Err(e) && is_corruption(
                e,
                with_type(what@ + " is not a binary value"@, name),
            ),
        },
{
}

/// A stored number is a revision exactly if it is an integer that a JavaScript number
/// holds exactly, and then it is that revision.
pub proof fn law_checked_revision(
    record: RevisionRecord,
    r: Result<Revision, IndexedDbError>,
    n: u64,
)
    requires
        call_ensures(checked_revision, (record,), r),
        r matches Ok(v) ==> call_ensures(Revision::get, (v,), n),
    ensures
        match record {
            RevisionRecord::Number(RevisionNumber::Whole(value)) => if value
                <= 9007199254740991u64 {
                r is Ok && n == value
            } else {
                r matches Err(e) && is_corruption(
                    e,
                    "revision exceeds the JavaScript safe-integer range"@,
                )
            },
            RevisionRecord::Number(RevisionNumber::NotFinite) => r matches Err(e) && is_corruption(
                e,
                "revision is not finite"@,
            ),
            RevisionRecord::Number(RevisionNumber::Negative) => r matches Err(e) && is_corruption(
                e,
                "revision is negative"@,
            ),
            RevisionRecord::Number(RevisionNumber::Fractional) => r matches Err(e)
                && is_corruption(e, "revision is not an integer"@),
            RevisionRecord::Missing => r matches Err(e) && is_corruption(
                e,
                "revision record is missing"@,
            ),
            RevisionRecord::Other(name) => r matches Err(e) && is_corruption(
                e,
                with_type("revision is not a number"@, name),
            ),
        },
{
}

/// Revisions count up by one, to the largest integer that a JavaScript number holds
/// exactly, and never wrap.
pub proof fn law_revision_next(
    v: Revision,
    r: Result<Revision, IndexedDbError>,
    before: u64,
    after: u64,
)
    requires
        call_ensures(Revision::get, (v,), before),
        call_ensures(Revision::next, (v,), r),
        r matches Ok(w) ==> call_ensures(Revision::get, (w,), after),
    ensures
        match r {
            Ok(_) => before < 9007199254740991u64 && after == before + 1,
            Err(e) => before == 9007199254740991u64 && is_corruption(
                e,
                "revision exhausted the JavaScript safe-integer range"@,
            ),
        },
{
}

/// A number makes a revision exactly if it is in range, and the revision has it.
pub proof fn law_revision_new(value: u64, r: Result<Revision, IndexedDbError>, n: u64)
    requires
        call_ensures(Revision::new, (value,), r),
        r matches Ok(v) ==> call_ensures(Revision::get, (v,), n),
    ensures
        match r {
            Ok(_) => value <= 9007199254740991u64 && n == value,
            Err(e) => value > 9007199254740991u64 && is_corruption(
                e,
                "revision exceeds the JavaScript safe-integer range"@,
            ),
        },
{
}

/// The first and the last revision; a number that is stored is read as the revision that
/// has it.
pub proof fn law_revision_limits(
    zero: Revision,
    a: u64,
    max: Revision,
    b: u64,
    number: RevisionNumber,
    r: Result<Revision, IndexedDbError>,
    checked: Result<Revision, IndexedDbError>,
)
    requires
        call_ensures(Revision::zero, (), zero),
        call_ensures(Revision::get, (zero,), a),
        call_ensures(Revision::max, (), max),
        call_ensures(Revision::get, (max,), b),
        call_ensures(Revision::from_number, (number,), r),
        call_ensures(checked_revision, (RevisionRecord::Number(number),), checked),
    ensures
        a == 0,
        b == 9007199254740991u64,
        r is Ok <==> checked is Ok,
        r is Ok ==> r->Ok_0 == checked->Ok_0,
        r is Ok <==> (number matches RevisionNumber::Whole(value) && value
            <= 9007199254740991u64),
{
    if r is Ok {
        crate::indexeddb::revision::lemma_revision_value(r->Ok_0, checked->Ok_0);
    }
}

/// Revisions are ordered as their numbers are.
pub proof fn law_revision_order(
    v: Revision,
    w: Revision,
    a: u64,
    b: u64,
    r: Option<core::cmp::Ordering>,
)
    requires
        call_ensures(Revision::get, (v,), a),
        call_ensures(Revision::get, (w,), b),
        call_ensures(Revision::partial_cmp, (&v, &w), r),
    ensures
        r == Some(core::cmp::Ordering::Less) <==> a < b,
        r == Some(core::cmp::Ordering::Equal) <==> a == b,
        r == Some(core::cmp::Ordering::Greater) <==> a > b,
{
}

/// A fence holds exactly if both revisions have the same number.
pub proof fn law_fence_result(
    revision: Revision,
    expected: Revision,
    r: Result<(), IndexedDbError>,
    a: u64,
    b: u64,
)
    requires
        call_ensures(fence_result, (revision, expected), r),
        call_ensures(Revision::get, (revision,), a),
        call_ensures(Revision::get, (expected,), b),
    ensures
        match r {
            Ok(()) => a == b,
            Err(e) => a != b && e is Conflict,
        },
{
}

// ---------------------------------------------------------------------------
// Capturing a snapshot
// ---------------------------------------------------------------------------

/// A captured map holds the page's own bytes: every row of the page under its key, with
/// its value, and nothing else.
pub proof fn law_snapshot_holds_page(
    end: TransactionEnd,
    revision: Result<RevisionRecord, IndexedDbError>,
    page: Result<CursorPage<(BinaryValue, BinaryValue)>, IndexedDbError>,
    map: ByteMap<Vec<u8>>,
    expected: Revision,
    key: &[u8],
    got: Option<&Vec<u8>>,
)
    requires
        call_ensures(
            assemble_snapshot,
            (end, revision, page),
            Ok::<(ByteMap<Vec<u8>>, Revision), IndexedDbError>((map, expected)),
        ),
        call_ensures(ByteMap::<Vec<u8>>::get, (&map, key), got),
    ensures
        end is Complete,
        page matches Ok(p) && p.exhausted && (forall|i: int|
            #![trigger p.rows@[i]]
            0 <= i < p.rows@.len() ==> p.rows@[i].0 is Bytes && p.rows@[i].1 is Bytes && ((
            p.rows@[i].0->Bytes_0)@ == key@ ==> got is Some && (got->0)@ == (p.rows@[i].1->Bytes_0)@))
            && (got is Some ==> exists|i: int|
            0 <= i < p.rows@.len() && ((#[trigger] p.rows@[i]).0->Bytes_0)@ == key@),
{
    let p = page->Ok_0;
    let m = rows_of(map@);
    assert forall|i: int|
        #![trigger p.rows@[i]]
        0 <= i < p.rows@.len() implies p.rows@[i].0 is Bytes && p.rows@[i].1 is Bytes && ((
    p.rows@[i].0->Bytes_0)@ == key@ ==> got is Some && (got->0)@ == (p.rows@[i].1->Bytes_0)@) by {
        assert(row_fits(p.rows@, i));
        assert(bytes_in(p.rows@[i].1) == row_at(m, bytes_in(p.rows@[i].0)->0));
    }
    if got is Some {
        assert(m.dom().contains(key@));
        assert(page_has_key(p.rows@, key@));
        let i = choose|i: int|
            0 <= i < p.rows@.len() && bytes_in((#[trigger] p.rows@[i]).0) == Some(key@);
        assert((p.rows@[i].0->Bytes_0)@ == key@);
    }
}

/// A transaction that completed, a revision in range and a page of all rows, with binary
/// values under different keys, make a snapshot, at that revision.
pub proof fn law_snapshot_succeeds(
    value: u64,
    page: CursorPage<(BinaryValue, BinaryValue)>,
    r: Result<(ByteMap<Vec<u8>>, Revision), IndexedDbError>,
    n: u64,
)
    requires
        call_ensures(
            assemble_snapshot,
            (
                TransactionEnd::Complete,
                Ok::<RevisionRecord, IndexedDbError>(
                    RevisionRecord::Number(RevisionNumber::Whole(value)),
                ),
                Ok::<CursorPage<(BinaryValue, BinaryValue)>, IndexedDbError>(page),
            ),
            r,
        ),
        value <= 9007199254740991u64,
        page.exhausted,
        forall|i: int|
            0 <= i < page.rows@.len() ==> (#[trigger] page.rows@[i]).0 is Bytes
                && page.rows@[i].1 is Bytes,
        forall|i: int, j: int|
            #![trigger page.rows@[i], page.rows@[j]]
            0 <= i < j < page.rows@.len() ==> (page.rows@[i].0->Bytes_0)@ != (
            page.rows@[j].0->Bytes_0)@,
        r matches Ok((_, v)) ==> call_ensures(Revision::get, (v,), n),
    ensures
        r is Ok,
        n == value,
{
    assert forall|i: int| 0 <= i < page.rows@.len() implies #[trigger] row_fits(page.rows@, i) by {
        let row = page.rows@[i];
        assert forall|j: int| 0 <= j < i implies bytes_in((#[trigger] page.rows@[j]).0) != bytes_in(
            row.0,
        ) by {
            let before = page.rows@[j];
        }
    }
}

/// Whether a row of a page is binary, under a key that no row before it has.
pub open spec fn is_good_row(rows: Seq<(BinaryValue, BinaryValue)>, i: int) -> bool {
    &&& rows[i].0 is Bytes
    &&& rows[i].1 is Bytes
    &&& forall|j: int|
        0 <= j < i && (#[trigger] rows[j]).0 is Bytes ==> (rows[j].0->Bytes_0)@ != (
        rows[i].0->Bytes_0)@
}

/// Whether an error reports the first bad row of a page: its key, or else its value, or
/// else that the key came before.
pub open spec fn is_first_bad_row(
    rows: Seq<(BinaryValue, BinaryValue)>,
    i: int,
    e: IndexedDbError,
) -> bool {
    &&& 0 <= i < rows.len()
    &&& !is_good_row(rows, i)
    &&& forall|j: int| 0 <= j < i ==> #[trigger] is_good_row(rows, j)
    &&& match rows[i] {
        (BinaryValue::Other(name), _) => is_corruption(
            e,
            with_type("key"@ + " is not a binary value"@, name),
        ),
        (BinaryValue::Bytes(_), BinaryValue::Other(name)) => is_corruption(
            e,
            with_type("value"@ + " is not a binary value"@, name),
        ),
        (BinaryValue::Bytes(_), BinaryValue::Bytes(_)) => is_corruption(
            e,
            "duplicate binary key in snapshot"@,
        ),
    }
}

/// A row that can be stored is a good one.
proof fn lemma_good_row(rows: Seq<(BinaryValue, BinaryValue)>, i: int)
    requires
        0 <= i < rows.len(),
    ensures
        row_fits(rows, i) <==> is_good_row(rows, i),
{
    if row_fits(rows, i) {
        assert forall|j: int| 0 <= j < i && (#[trigger] rows[j]).0 is Bytes implies (
        rows[j].0->Bytes_0)@ != (rows[i].0->Bytes_0)@ by {
            assert(bytes_in(rows[j].0) != bytes_in(rows[i].0));
        }
    }
    if is_good_row(rows, i) {
        assert forall|j: int| 0 <= j < i implies bytes_in((#[trigger] rows[j]).0) != bytes_in(
            rows[i].0,
        ) by {
            assert(rows[j].0 is Bytes || bytes_in(rows[j].0) is None);
        }
    }
}

/// A snapshot is captured only from a transaction that completed, and at a revision that
/// was stored. Where there is none, the transaction's own failure comes first, then the
/// revision's, then the rows'.
pub proof fn law_snapshot_refused(
    end: TransactionEnd,
    revision: Result<RevisionRecord, IndexedDbError>,
    page: Result<CursorPage<(BinaryValue, BinaryValue)>, IndexedDbError>,
    r: Result<(ByteMap<Vec<u8>>, Revision), IndexedDbError>,
    checked: Result<Revision, IndexedDbError>,
)
    requires
        call_ensures(assemble_snapshot, (end, revision, page), r),
        revision matches Ok(record) ==> call_ensures(checked_revision, (record,), checked),
    ensures
        r is Ok ==> end is Complete && revision is Ok && checked is Ok && page is Ok && (
        page->Ok_0).exhausted,
        r is Ok && checked is Ok ==> (r->Ok_0).1 == checked->Ok_0,
        r matches Err(e) ==> match end {
            TransactionEnd::Aborted { error: Some(f) } => is_failure(e, f.name@, f.message@),
            TransactionEnd::Aborted { error: None } => is_failure(
                e,
                "AbortError"@,
                "readonly IndexedDB transaction aborted"@,
            ),
            TransactionEnd::Complete => match (revision, checked, page) {
                (Err(failure), _, _) => e == failure,
                (Ok(_), Err(bad), _) => e is Corrupt && e->detail@ == bad->detail@,
                (Ok(_), Ok(_), Err(failure)) => e == failure,
                (Ok(_), Ok(_), Ok(p)) => if !p.exhausted {
                    is_corruption(e, "snapshot cursor did not exhaust the database"@)
                } else {
                    exists|i: int| #[trigger] is_first_bad_row(p.rows@, i, e)
                },
            },
        },
{
    if r is Err && end is Complete && revision is Ok && checked is Ok && page is Ok && (
    page->Ok_0).exhausted {
        let rows = (page->Ok_0).rows@;
        let i = choose|i: int| #[trigger]
            first_misfit(rows, i) && is_misfit(rows[i], r->Err_0);
        assert forall|j: int| 0 <= j < i implies is_good_row(rows, j) by {
            assert(row_fits(rows, j));
            lemma_good_row(rows, j);
        }
        lemma_good_row(rows, i);
        assert(is_first_bad_row(rows, i, r->Err_0));
    }
    if r is Ok && checked is Ok {
        crate::indexeddb::revision::lemma_revision_value((r->Ok_0).1, checked->Ok_0);
    }
}

// ---------------------------------------------------------------------------
// Committing a session
// ---------------------------------------------------------------------------

/// Whether a list of operations takes rows from `before` to `after`: each key that an
/// operation names holds what the operation says, and every other key what it held.
pub open spec fn ops_lead(
    before: Rows,
    ops: Seq<(Vec<u8>, Option<Vec<u8>>)>,
    after: Rows,
) -> bool {
    &&& forall|i: int|
        0 <= i < ops.len() ==> ((#[trigger] ops[i]).1 matches Some(v) ==> after.dom().contains(
            ops[i].0@,
        ) && after[ops[i].0@] == v@)
    &&& forall|i: int|
        0 <= i < ops.len() && (#[trigger] ops[i]).1 is None ==> !after.dom().contains(ops[i].0@)
    &&& forall|k: Seq<u8>| #[trigger]
        after.dom().contains(k) && !(exists|i: int|
            0 <= i < ops.len() && (#[trigger] ops[i]).0@ == k) ==> before.dom().contains(k)
            && before[k] == after[k]
    &&& forall|k: Seq<u8>| #[trigger]
        before.dom().contains(k) && !(exists|i: int|
            0 <= i < ops.len() && (#[trigger] ops[i]).0@ == k) ==> after.dom().contains(k)
}

/// A commit leaves what the session saw. Its plan hands over one operation for every
/// pending key, deletes among them, which take the captured rows to those that the
/// session shows, and one revision more; only a session that has nothing pending, and
/// shows the captured rows, is checked without a write. A plan is refused only where
/// there is no revision left.
pub proof fn law_commit_plan(
    tx: IndexedDbTransaction,
    pending: usize,
    fence: Revision,
    fence_number: u64,
    r: Result<CommitPlan, IndexedDbError>,
    next_number: u64,
)
    requires
        tx.wf(),
        call_ensures(IndexedDbTransaction::pending_len, (&tx,), pending),
        call_ensures(IndexedDbTransaction::expected_revision, (&tx,), fence),
        call_ensures(Revision::get, (fence,), fence_number),
        call_ensures(IndexedDbTransaction::commit, (tx,), r),
        r matches Ok(CommitPlan::Write { expected, next, ops }) ==> call_ensures(
            Revision::get,
            (next,),
            next_number,
        ),
    ensures
        match r {
            Ok(CommitPlan::CheckFence { expected }) => {
                &&& pending == 0
                &&& expected == fence
                &&& tx.rows() == tx.captured()
            },
            Ok(CommitPlan::Write { expected, next, ops }) => {
                &&& pending > 0
                &&& ops@.len() == pending
                &&& expected == fence
                &&& next_number == fence_number + 1
                &&& forall|i: int, j: int|
                    #![trigger ops@[i], ops@[j]]
                    0 <= i < j < ops@.len() ==> lt(ops@[i].0@, ops@[j].0@)
                &&& ops_lead(tx.captured(), ops@, tx.rows())
            },
            Err(e) => pending > 0 && fence_number == 9007199254740991u64 && is_corruption(
                e,
                "revision exhausted the JavaScript safe-integer range"@,
            ),
        },
{
    tx.law_read_your_writes();
    let none = Map::<Seq<u8>, Option<Vec<u8>>>::empty();
    if tx.pending() == none {
        crate::overlay::law_overlay_empty(tx.captured());
    } else {
        tx.lemma_pending_finite();
        if tx.pending().len() == 0 {
            assert(tx.pending().dom() =~= Set::empty());
            assert(tx.pending() =~= none);
        }
    }
    assert(none.len() == 0);
    crate::indexeddb::revision::lemma_revision_value(tx.fence(), fence);
    if let Ok(CommitPlan::Write { expected, next, ops }) = r {
        lemma_ops_lead(tx.captured(), tx.pending(), ops@);
        crate::indexeddb::revision::lemma_revision_value(expected, fence);
    }
    if let Ok(CommitPlan::CheckFence { expected }) = r {
        crate::indexeddb::revision::lemma_revision_value(expected, fence);
    }
}

/// A write set, listed, takes the rows beneath to what it shows over them.
proof fn lemma_ops_lead(
    base: Rows,
    pending: crate::overlay::Pending,
    ops: Seq<(Vec<u8>, Option<Vec<u8>>)>,
)
    requires
        is_op_list(pending, ops),
    ensures
        ops_lead(base, ops, overlay(base, pending)),
{
    let after = overlay(base, pending);
    assert forall|i: int| 0 <= i < ops.len() implies ((#[trigger] ops[i]).1 matches Some(v)
        ==> after.dom().contains(ops[i].0@) && after[ops[i].0@] == v@) by {
        law_overlay_reads(base, pending, ops[i].0@);
    }
    assert forall|i: int| 0 <= i < ops.len() && (#[trigger] ops[i]).1 is None implies !after.dom().contains(
        ops[i].0@,
    ) by {
        law_overlay_reads(base, pending, ops[i].0@);
    }
    assert forall|k: Seq<u8>|
        !(exists|i: int| 0 <= i < ops.len() && (#[trigger] ops[i]).0@ == k) implies #[trigger] row_at(
        after,
        k,
    ) == row_at(base, k) by {
        law_overlay_reads(base, pending, k);
        if pending.dom().contains(k) {
            assert(exists|i: int| 0 <= i < ops.len() && (#[trigger] ops[i]).0@ == k);
        }
    }
    assert forall|k: Seq<u8>| #[trigger]
        after.dom().contains(k) && !(exists|i: int|
            0 <= i < ops.len() && (#[trigger] ops[i]).0@ == k) implies base.dom().contains(k)
        && base[k] == after[k] by {
        assert(row_at(after, k) == row_at(base, k));
    }
    assert forall|k: Seq<u8>| #[trigger]
        base.dom().contains(k) && !(exists|i: int|
            0 <= i < ops.len() && (#[trigger] ops[i]).0@ == k) implies after.dom().contains(k) by {
        assert(row_at(after, k) == row_at(base, k));
    }
}

/// A session over the rows that a commit left reads what the committed session read.
pub proof fn law_commit_is_read_back(
    tx: IndexedDbTransaction,
    expected: Revision,
    next: Revision,
    ops: Vec<(Vec<u8>, Option<Vec<u8>>)>,
    map: ByteMap<Vec<u8>>,
    later: IndexedDbTransaction,
    dir: &[&[u8]],
    key: &[u8],
    then: Result<Option<Vec<u8>>, IndexedDbError>,
    now: Result<Option<Vec<u8>>, IndexedDbError>,
)
    requires
        tx.wf(),
        map.wf(),
        call_ensures(
            IndexedDbTransaction::commit,
            (tx,),
            Ok::<CommitPlan, IndexedDbError>(CommitPlan::Write { expected, next, ops }),
        ),
        ops_lead(tx.captured(), ops@, rows_of(map@)),
        call_ensures(IndexedDbTransaction::new, (next, map), later),
        call_ensures(IndexedDbTransaction::get, (&tx, dir, key), then),
        call_ensures(IndexedDbTransaction::get, (&later, dir, key), now),
        then is Ok,
        now is Ok,
    ensures
        later.wf(),
        later.in_order() <==> tx.in_order(),
        match (then->Ok_0, now->Ok_0) {
            (Some(a), Some(b)) => a@ == b@,
            (None, None) => true,
            _ => false,
        },
{
    tx.law_read_your_writes();
    lemma_ops_lead(tx.captured(), tx.pending(), ops@);
    lemma_leads_once(tx.captured(), ops@, tx.rows(), rows_of(map@));
    assert(later.rows() == tx.rows());
}

/// A list of operations leads from rows to one end only.
proof fn lemma_leads_once(
    before: Rows,
    ops: Seq<(Vec<u8>, Option<Vec<u8>>)>,
    a: Rows,
    b: Rows,
)
    requires
        ops_lead(before, ops, a),
        ops_lead(before, ops, b),
    ensures
        a == b,
{
    assert forall|k: Seq<u8>| a.dom().contains(k) <==> b.dom().contains(k) by {
        if exists|i: int| 0 <= i < ops.len() && (#[trigger] ops[i]).0@ == k {
            let i = choose|i: int| 0 <= i < ops.len() && (#[trigger] ops[i]).0@ == k;
            assert(ops[i].1 is None || ops[i].1 is Some);
        }
    }
    assert forall|k: Seq<u8>| a.dom().contains(k) implies a[k] == b[k] by {
        assert(b.dom().contains(k));
        if exists|i: int| 0 <= i < ops.len() && (#[trigger] ops[i]).0@ == k {
            let i = choose|i: int| 0 <= i < ops.len() && (#[trigger] ops[i]).0@ == k;
            assert(ops[i].1 is None || ops[i].1 is Some);
        }
    }
    assert(a =~= b);
}

// ---------------------------------------------------------------------------
// The course of a commit
// ---------------------------------------------------------------------------

/// A commit that nothing stopped succeeds when its transaction completes.
pub proof fn law_commit_completes(
    expected: Revision,
    begun: CommitState,
    read: CommitState,
    sent: CommitState,
    stored: Revision,
    step: CommitStep,
    a: u64,
    b: u64,
    r: Result<(), IndexedDbError>,
)
    requires
        call_ensures(CommitState::new, (expected,), begun),
        call_ensures(Revision::get, (expected,), a),
        call_ensures(Revision::get, (stored,), b),
        exists|s: &mut CommitState|
            *s == begun && *final(s) == read && #[trigger] call_ensures(
                CommitState::on_revision,
                (s, Ok::<Revision, IndexedDbError>(stored)),
                step,
            ),
        exists|s: &mut CommitState|
            *s == read && *final(s) == sent && #[trigger] call_ensures(
                CommitState::on_enqueue,
                (s,),
                (),
            ),
        a == b,
        call_ensures(CommitState::completed, (sent,), r),
    ensures
        step == CommitStep::Enqueue,
        r is Ok,
{
}

/// A commit that finds another revision is aborted as a conflict, however its
/// transaction ends, and hands no write over.
pub proof fn law_commit_conflicts(
    expected: Revision,
    begun: CommitState,
    read: CommitState,
    stored: Revision,
    step: CommitStep,
    a: u64,
    b: u64,
    failure: Option<DomFailure>,
    completed: Result<(), IndexedDbError>,
    aborted: IndexedDbError,
    open: bool,
    refused: bool,
)
    requires
        call_ensures(CommitState::new, (expected,), begun),
        call_ensures(Revision::get, (expected,), a),
        call_ensures(Revision::get, (stored,), b),
        exists|s: &mut CommitState|
            *s == begun && *final(s) == read && #[trigger] call_ensures(
                CommitState::on_revision,
                (s, Ok::<Revision, IndexedDbError>(stored)),
                step,
            ),
        a != b,
        call_ensures(CommitState::completed, (read,), completed),
        call_ensures(CommitState::aborted, (read, failure), aborted),
        call_ensures(CommitState::is_open, (&read,), open),
        call_ensures(CommitState::is_refused, (&read,), refused),
    ensures
        step == CommitStep::Abort,
        completed matches Err(e) && e is Conflict,
        aborted is Conflict,
        open,
        refused,
{
}

/// A failure before any write is what the commit reports, however its transaction ends.
/// The first one counts.
pub proof fn law_commit_fails(
    expected: Revision,
    begun: CommitState,
    first: CommitState,
    second: CommitState,
    e: IndexedDbError,
    later: IndexedDbError,
    failure: Option<DomFailure>,
    completed: Result<(), IndexedDbError>,
    aborted: IndexedDbError,
)
    requires
        call_ensures(CommitState::new, (expected,), begun),
        exists|s: &mut CommitState|
            *s == begun && *final(s) == first && #[trigger] call_ensures(
                CommitState::on_failure,
                (s, e),
                (),
            ),
        exists|s: &mut CommitState|
            *s == first && *final(s) == second && #[trigger] call_ensures(
                CommitState::on_failure,
                (s, later),
                (),
            ),
        call_ensures(CommitState::completed, (second,), completed),
        call_ensures(CommitState::aborted, (second, failure), aborted),
    ensures
        completed == Err::<(), IndexedDbError>(e),
        aborted == e,
{
}

/// A commit that completed although it failed after a write reports no error that may
/// be retried: its writes may be there.
pub proof fn law_commit_unknown(
    expected: Revision,
    begun: CommitState,
    sent: CommitState,
    failed: CommitState,
    e: IndexedDbError,
    completed: Result<(), IndexedDbError>,
    retry: bool,
    text: String,
)
    requires
        call_ensures(CommitState::new, (expected,), begun),
        call_ensures(IndexedDbError::message, (&e,), text),
        exists|s: &mut CommitState|
            *s == begun && *final(s) == sent && #[trigger] call_ensures(
                CommitState::on_enqueue,
                (s,),
                (),
            ),
        exists|s: &mut CommitState|
            *s == sent && *final(s) == failed && #[trigger] call_ensures(
                CommitState::on_failure,
                (s, e),
                (),
            ),
        call_ensures(CommitState::completed, (failed,), completed),
        completed matches Err(x) ==> call_ensures(IndexedDbError::is_retryable, (&x,), retry),
    ensures
        completed matches Err(x) && is_failure(
            x,
            "UnexpectedComplete"@,
            "transaction completed after a requested abort; outcome unknown: "@ + text@,
        ),
        !retry,
{
}

/// An abort that could not be carried out is an error where nothing says why it was
/// asked for.
pub proof fn law_commit_abort_failed(
    expected: Revision,
    begun: CommitState,
    failed: CommitState,
    completed: Result<(), IndexedDbError>,
)
    requires
        call_ensures(CommitState::new, (expected,), begun),
        exists|s: &mut CommitState|
            *s == begun && *final(s) == failed && #[trigger] call_ensures(
                CommitState::on_abort_failed,
                (s,),
                (),
            ),
        call_ensures(CommitState::completed, (failed,), completed),
    ensures
        completed matches Err(e) && is_failure(
            e,
            "AbortError"@,
            "transaction completed after an abort failed without a recorded cause"@,
        ),
{
}

/// A revision that cannot be read ends the commit with that failure, and what fails
/// behind a conflict does not hide it.
pub proof fn law_commit_cause(
    expected: Revision,
    begun: CommitState,
    read: CommitState,
    stored: Result<Revision, IndexedDbError>,
    step: CommitStep,
    a: u64,
    b: u64,
    later: CommitState,
    e: IndexedDbError,
    failure: Option<DomFailure>,
    completed: Result<(), IndexedDbError>,
    aborted: IndexedDbError,
)
    requires
        call_ensures(CommitState::new, (expected,), begun),
        call_ensures(Revision::get, (expected,), a),
        stored matches Ok(v) ==> call_ensures(Revision::get, (v,), b),
        exists|s: &mut CommitState|
            *s == begun && *final(s) == read && #[trigger] call_ensures(
                CommitState::on_revision,
                (s, stored),
                step,
            ),
        exists|s: &mut CommitState|
            *s == read && *final(s) == later && #[trigger] call_ensures(
                CommitState::on_failure,
                (s, e),
                (),
            ),
        call_ensures(CommitState::completed, (later,), completed),
        call_ensures(CommitState::aborted, (later, failure), aborted),
    ensures
        completed == Err::<(), IndexedDbError>(aborted),
        step == CommitStep::Enqueue <==> stored is Ok && a == b,
        match stored {
            Ok(_) => if a == b {
                aborted == e
            } else {
                aborted is Conflict
            },
            Err(unread) => aborted == unread,
        },
{
}

/// An abort that nobody asked for may be retried, unless the quota is exhausted.
pub proof fn law_unasked_abort(
    expected: Revision,
    begun: CommitState,
    failure: Option<DomFailure>,
    r: IndexedDbError,
    alone: IndexedDbError,
    retry: bool,
    unasked: bool,
)
    requires
        call_ensures(CommitState::new, (expected,), begun),
        call_ensures(CommitState::is_unasked, (&begun,), unasked),
        call_ensures(CommitState::aborted, (begun, failure), r),
        call_ensures(abort_error, (failure,), alone),
        call_ensures(IndexedDbError::is_retryable, (&r,), retry),
    ensures
        unasked,
        if failure is Some && (failure->0).name@ == "QuotaExceededError"@ {
            r is QuotaExceeded && alone is QuotaExceeded && !retry
        } else {
            &&& r is CommitAborted
            &&& alone is CommitAborted
            &&& retry
            &&& r->reason@ == alone->reason@
            &&& r->reason@ == match failure {
                Some(f) => f.name@ + ": "@ + f.message@,
                None => "transaction aborted without an error"@,
            }
        },
{
}

/// Only a conflict and a rolled-back commit may be retried.
pub proof fn law_retryable(e: IndexedDbError, r: bool)
    requires
        call_ensures(IndexedDbError::is_retryable, (&e,), r),
    ensures
        r <==> match e {
            IndexedDbError::Conflict => true,
            IndexedDbError::CommitAborted { reason: _ } => true,
            IndexedDbError::Foreign => false,
            IndexedDbError::Key(_) => false,
            IndexedDbError::Unavailable => false,
            IndexedDbError::Closed => false,
            IndexedDbError::QuotaExceeded => false,
            IndexedDbError::Corrupt { detail: _ } => false,
            IndexedDbError::ReadOnly => false,
            IndexedDbError::Backend { name: _, message: _ } => false,
        },
{
}

// ---------------------------------------------------------------------------
// Errors
// ---------------------------------------------------------------------------

/// An exception keeps its name and message, unless it reports an exhausted quota.
pub proof fn law_dom_error(f: DomFailure, r: IndexedDbError, of_request: IndexedDbError)
    requires
        call_ensures(dom_error, (f,), r),
        call_ensures(request_error, (Some(f),), of_request),
    ensures
        if f.name@ == "QuotaExceededError"@ {
            r is QuotaExceeded && of_request is QuotaExceeded
        } else {
            &&& r matches IndexedDbError::Backend { name, message } && name@ == f.name@ && message@
                == f.message@
            &&& of_request matches IndexedDbError::Backend { name, message } && name@ == f.name@
                && message@ == f.message@
        },
{
}

/// What is thrown or fails without an exception is reported as unknown, with its text
/// where it has one.
pub proof fn law_unknown_errors(
    text: Option<String>,
    thrown: IndexedDbError,
    of_request: IndexedDbError,
)
    requires
        call_ensures(thrown_error, (text,), thrown),
        call_ensures(request_error, (None::<DomFailure>,), of_request),
    ensures
        is_failure(
            thrown,
            "UnknownError"@,
            match text {
                Some(t) => t@,
                None => "<non-string error>"@,
            },
        ),
        is_failure(
            of_request,
            "UnknownError"@,
            "IndexedDB request failed without a DOM exception"@,
        ),
{
}

/// An invalid state, and nothing else, means that the connection is closed.
pub proof fn law_begin_error(error: IndexedDbError, r: (IndexedDbError, bool))
    requires
        call_ensures(begin_error, (error,), r),
    ensures
        if error matches IndexedDbError::Backend { name, message: _ } && name@
            == "InvalidStateError"@ {
            r.0 is Closed && r.1
        } else {
            r.0 == error && !r.1
        },
{
}

/// What a read-only transaction read counts exactly if the transaction completed.
pub proof fn law_readonly_result(outcome: TransactionEnd, r: Result<(), IndexedDbError>)
    requires
        call_ensures(readonly_result, (outcome,), r),
    ensures
        match outcome {
            TransactionEnd::Complete => r is Ok,
            TransactionEnd::Aborted { error: Some(f) } => r matches Err(
                IndexedDbError::Backend { name, message },
            ) && name@ == f.name@ && message@ == f.message@,
            TransactionEnd::Aborted { error: None } => r matches Err(e) && is_failure(
                e,
                "AbortError"@,
                "readonly IndexedDB transaction aborted"@,
            ),
        },
{
}

/// A layout error keeps its cause.
pub proof fn law_layout_error(error: FlatError<IndexedDbError>, r: IndexedDbError)
    requires
        call_ensures(layout_error, (error,), r),
    ensures
        match error {
            FlatError::Foreign => r is Foreign,
            FlatError::Corrupt => is_corruption(r, "directory layout is malformed"@),
            FlatError::Key(k) => r == IndexedDbError::Key(k),
            FlatError::Engine(inner) => r == inner,
        },
{
}

// ---------------------------------------------------------------------------
// Callbacks
// ---------------------------------------------------------------------------

/// Of two outcomes the first one counts, and it is taken once.
pub proof fn law_settles_once<T>(
    s0: Settlement<T>,
    s1: Settlement<T>,
    s2: Settlement<T>,
    s3: Settlement<T>,
    s4: Settlement<T>,
    first: T,
    second: T,
    a: bool,
    b: bool,
    taken: Option<T>,
    again: Option<T>,
    before: bool,
    after: bool,
)
    requires
        call_ensures(Settlement::<T>::pending, (), s0),
        call_ensures(Settlement::<T>::settled, (&s0,), before),
        exists|s: &mut Settlement<T>|
            *s == s0 && *final(s) == s1 && #[trigger] call_ensures(
                Settlement::<T>::settle,
                (s, first),
                a,
            ),
        exists|s: &mut Settlement<T>|
            *s == s1 && *final(s) == s2 && #[trigger] call_ensures(
                Settlement::<T>::settle,
                (s, second),
                b,
            ),
        exists|s: &mut Settlement<T>|
            *s == s2 && *final(s) == s3 && #[trigger] call_ensures(
                Settlement::<T>::take,
                (s,),
                taken,
            ),
        exists|s: &mut Settlement<T>|
            *s == s3 && *final(s) == s4 && #[trigger] call_ensures(
                Settlement::<T>::take,
                (s,),
                again,
            ),
        call_ensures(Settlement::<T>::settled, (&s4,), after),
    ensures
        !before,
        a,
        !b,
        taken == Some(first),
        again is None,
        after,
{
}

/// A cursor that walked over rows and ends has them all on its page, in order; with one
/// more row than the page takes it is full and the cursor is not at its end.
pub proof fn law_cursor_page<R>(
    states: Seq<CursorState<R>>,
    calls: Seq<&mut CursorState<R>>,
    rows: Seq<R>,
    size: usize,
    event: CursorEvent<R>,
    last: CursorState<R>,
    step: CursorStep,
    done: CursorState<R>,
    page: Option<Result<CursorPage<R>, IndexedDbError>>,
)
    requires
        call_ensures(CursorState::<R>::pending, (), states[0]),
        states.len() == rows.len() + 1,
        calls.len() == rows.len(),
        forall|i: int|
            0 <= i < rows.len() ==> *(#[trigger] calls[i]) == states[i] && *final(calls[i])
                == states[i + 1] && call_ensures(
                CursorState::<R>::on_event,
                (calls[i], CursorEvent::Row(rows[i]), size),
                CursorStep::Continue,
            ),
        exists|s: &mut CursorState<R>|
            *s == states.last() && *final(s) == last && #[trigger] call_ensures(
                CursorState::<R>::on_event,
                (s, event, size),
                step,
            ),
        exists|s: &mut CursorState<R>|
            *s == last && *final(s) == done && #[trigger] call_ensures(
                CursorState::<R>::take,
                (s,),
                page,
            ),
    ensures
        match event {
            CursorEvent::Failed(e) => step == CursorStep::Settled && page == Some(
                Err::<CursorPage<R>, IndexedDbError>(e),
            ),
            CursorEvent::NotACursor => step == CursorStep::Settled && (page matches Some(Err(e))
                && is_corruption(e, "cursor request returned a non-cursor value"@)),
            CursorEvent::End => step == CursorStep::Settled && (page matches Some(Ok(p)) && p.rows@
                == rows && p.exhausted),
            CursorEvent::Row(row) => if rows.len() + 1 < size {
                step == CursorStep::Continue && page is None
            } else {
                step == CursorStep::Settled && (page matches Some(Ok(p)) && p.rows@ == rows.push(
                    row,
                ) && !p.exhausted)
            },
        },
{
    lemma_gathers(states, calls, rows, size, rows.len() as int);
    assert(rows.subrange(0, rows.len() as int) =~= rows);
    assert(states[rows.len() as int] == states.last());
}

/// A cursor has gathered the rows that it walked over.
proof fn lemma_gathers<R>(
    states: Seq<CursorState<R>>,
    calls: Seq<&mut CursorState<R>>,
    rows: Seq<R>,
    size: usize,
    n: int,
)
    requires
        call_ensures(CursorState::<R>::pending, (), states[0]),
        states.len() == rows.len() + 1,
        calls.len() == rows.len(),
        forall|i: int|
            0 <= i < rows.len() ==> *(#[trigger] calls[i]) == states[i] && *final(calls[i])
                == states[i + 1] && call_ensures(
                CursorState::<R>::on_event,
                (calls[i], CursorEvent::Row(rows[i]), size),
                CursorStep::Continue,
            ),
        0 <= n <= rows.len(),
    ensures
        states[n].wf(),
        !states[n].settlement().is_settled(),
        states[n].gathered() == rows.subrange(0, n),
    decreases n,
{
    if n == 0 {
        assert(states[0].gathered() =~= rows.subrange(0, 0));
    } else {
        lemma_gathers(states, calls, rows, size, n - 1);
        assert(*calls[n - 1] == states[n - 1]);
        assert(states[n].gathered() =~= rows.subrange(0, n));
    }
}

/// A settled page stays as it is, whatever the cursor reports.
pub proof fn law_cursor_settled<R>(
    before: CursorState<R>,
    after: CursorState<R>,
    event: CursorEvent<R>,
    size: usize,
    step: CursorStep,
)
    requires
        before.wf(),
        before.settlement().is_settled(),
        exists|s: &mut CursorState<R>|
            *s == before && *final(s) == after && #[trigger] call_ensures(
                CursorState::<R>::on_event,
                (s, event, size),
                step,
            ),
    ensures
        step == CursorStep::Ignore,
        after == before,
{
}

/// A page is settled once, with what was gathered or with a failure.
pub proof fn law_settle_page<R>(
    before: CursorState<R>,
    calls: Seq<&mut CursorState<R>>,
    exhausted: bool,
    e: IndexedDbError,
    a: bool,
    b: bool,
    page: Option<Result<CursorPage<R>, IndexedDbError>>,
    again: Option<Result<CursorPage<R>, IndexedDbError>>,
)
    requires
        call_ensures(CursorState::<R>::pending, (), before),
        calls.len() == 4,
        *calls[0] == before,
        *calls[1] == *final(calls[0]),
        *calls[2] == *final(calls[1]),
        *calls[3] == *final(calls[2]),
        call_ensures(CursorState::<R>::settle_page, (calls[0], exhausted), a),
        call_ensures(CursorState::<R>::settle_failure, (calls[1], e), b),
        call_ensures(CursorState::<R>::take, (calls[2],), page),
        call_ensures(CursorState::<R>::take, (calls[3],), again),
    ensures
        a,
        !b,
        page matches Some(Ok(p)) && p.rows@.len() == 0 && p.exhausted == exhausted,
        again is None,
{
}

/// A page that failed stays failed.
pub proof fn law_settle_failure<R>(
    before: CursorState<R>,
    calls: Seq<&mut CursorState<R>>,
    exhausted: bool,
    e: IndexedDbError,
    a: bool,
    b: bool,
    page: Option<Result<CursorPage<R>, IndexedDbError>>,
)
    requires
        call_ensures(CursorState::<R>::pending, (), before),
        calls.len() == 3,
        *calls[0] == before,
        *calls[1] == *final(calls[0]),
        *calls[2] == *final(calls[1]),
        call_ensures(CursorState::<R>::settle_failure, (calls[0], e), a),
        call_ensures(CursorState::<R>::settle_page, (calls[1], exhausted), b),
        call_ensures(CursorState::<R>::take, (calls[2],), page),
    ensures
        a,
        !b,
        page == Some(Err::<CursorPage<R>, IndexedDbError>(e)),
{
}

/// What a successful open leads to: an upgrade that failed wins over all, then a
/// connection that cannot be read, and only a caller that waits gets a connection.
pub proof fn law_open_action(
    upgrade: Option<IndexedDbError>,
    database: Result<(), IndexedDbError>,
    attached: bool,
    r: OpenAction,
)
    requires
        call_ensures(open_action, (upgrade, database, attached), r),
    ensures
        r is Deliver <==> upgrade is None && database is Ok && attached,
        r is Close <==> upgrade is None && database is Ok && !attached,
        r is CloseAndFail <==> upgrade is Some && database is Ok,
        upgrade matches Some(e) ==> r == OpenAction::CloseAndFail(e) || r == OpenAction::Fail(e),
        upgrade is None ==> (database matches Err(e) ==> r == OpenAction::Fail(e)),
{
}

/// Identifiers follow each other without a gap, and zero is none of them.
pub proof fn law_following_id(id: u64, r: u64)
    requires
        call_ensures(following_id, (id,), r),
    ensures
        r != 0,
        id < u64::MAX ==> r == id + 1,
        id == u64::MAX ==> r == 1,
{
}

} // verus!
