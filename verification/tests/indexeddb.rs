//! The browser backend: revisions, sessions, commits, cursors.

use core::ops::Bound;

use fasm_storage::bytemap::ByteMap;
use fasm_storage::indexeddb::commit::{abort_error, fence_result, CommitPlan, CommitState, CommitStep};
use fasm_storage::indexeddb::convert::{checked_revision, key_range, BinaryValue, KeyRange, RevisionRecord};
use fasm_storage::indexeddb::error::{
    begin_error, dom_error, layout_error, readonly_result, request_error, thrown_error, DomFailure, IndexedDbError,
    TransactionEnd,
};
use fasm_storage::indexeddb::revision::{Revision, RevisionNumber, MAX_REVISION};
use fasm_storage::indexeddb::session::{IndexedDbReader, IndexedDbTransaction};
use fasm_storage::indexeddb::settle::{
    following_id, open_action, CursorEvent, CursorPage, CursorState, CursorStep, OpenAction, Settlement,
};
use fasm_storage::indexeddb::snapshot::{assemble_snapshot, Snapshot};
use fasm_storage::{
    Commit, ErrorMessage, FlatError, KeyError, KvDirNav, KvStore, RawKv, RetryableStorageError,
};

#[test]
fn retryability_matches_atomic_rollback_guarantees() {
    let cases = [
        (IndexedDbError::Foreign, false),
        (IndexedDbError::Key(KeyError::RootNotRemovable), false),
        (IndexedDbError::Unavailable, false),
        (IndexedDbError::Closed, false),
        (IndexedDbError::QuotaExceeded, false),
        (IndexedDbError::Conflict, true),
        (
            IndexedDbError::CommitAborted {
                reason: "transaction aborted".to_owned(),
            },
            true,
        ),
        (
            IndexedDbError::Corrupt {
                detail: "invalid revision".to_owned(),
            },
            false,
        ),
        (IndexedDbError::ReadOnly, false),
        (
            IndexedDbError::Backend {
                name: "UnknownError".to_owned(),
                message: "browser failure".to_owned(),
            },
            false,
        ),
    ];

    for (error, expected) in cases {
        assert_eq!(error.is_retryable(), expected, "{error:?}");
    }
}

#[test]
fn every_display_is_nonempty_and_does_not_suggest_a_panic() {
    let errors = [
        IndexedDbError::Foreign,
        IndexedDbError::Key(KeyError::RootNotRemovable),
        IndexedDbError::Unavailable,
        IndexedDbError::Closed,
        IndexedDbError::QuotaExceeded,
        IndexedDbError::Conflict,
        IndexedDbError::CommitAborted {
            reason: "transaction aborted".to_owned(),
        },
        IndexedDbError::Corrupt {
            detail: "invalid revision".to_owned(),
        },
        IndexedDbError::ReadOnly,
        IndexedDbError::Backend {
            name: "UnknownError".to_owned(),
            message: "browser failure".to_owned(),
        },
    ];

    for error in errors {
        let display = error.message();
        assert!(!display.is_empty(), "{error:?}");
        assert!(!display.contains("unwrap"), "{display}");
    }
}

/// A stored number by what a revision can be made of.
fn number(value: f64) -> RevisionNumber {
    if !value.is_finite() {
        RevisionNumber::NotFinite
    } else if value < 0.0 {
        RevisionNumber::Negative
    } else if value.fract() != 0.0 {
        RevisionNumber::Fractional
    } else {
        RevisionNumber::Whole(value as u64)
    }
}

#[test]
fn safe_integers_round_trip() {
    for expected in [
        Revision::zero(),
        Revision::new(1).expect("a revision"),
        Revision::new(1_u64 << 52).expect("a revision"),
        Revision::max(),
    ] {
        let Ok(actual) = Revision::from_number(number(expected.get() as f64)) else {
            panic!("a safe integer was rejected: {expected:?}");
        };
        assert_eq!(actual, expected);
        assert_eq!(actual.get(), expected.get());
    }
}

#[test]
fn rejects_non_finite_values() {
    for value in [f64::NAN, f64::INFINITY, f64::NEG_INFINITY] {
        assert!(matches!(
            Revision::from_number(number(value)),
            Err(IndexedDbError::Corrupt { .. })
        ));
    }
}

#[test]
fn rejects_fractional_values() {
    assert!(matches!(
        Revision::from_number(number(1.5)),
        Err(IndexedDbError::Corrupt { .. })
    ));
}

#[test]
fn rejects_negative_values() {
    assert!(matches!(
        Revision::from_number(number(-1.0)),
        Err(IndexedDbError::Corrupt { .. })
    ));
}

#[test]
fn rejects_values_above_maximum() {
    assert!(matches!(
        Revision::from_number(number(Revision::max().get() as f64 + 1.0)),
        Err(IndexedDbError::Corrupt { .. })
    ));
}

#[test]
fn next_never_wraps() {
    assert!(matches!(Revision::zero().next(), Ok(revision) if revision.get() == 1));
    assert!(matches!(
        Revision::max().next(),
        Err(IndexedDbError::Corrupt { .. })
    ));
}

#[test]
fn revisions_order_by_value() {
    let one = Revision::new(1).expect("a revision");
    assert!(Revision::zero() < one);
    assert!(one < Revision::max());
}

#[test]
fn revisions_stop_at_the_safe_integers() {
    for value in [0, 1, 1u64 << 52, MAX_REVISION] {
        assert_eq!(Revision::new(value).expect("a safe integer").get(), value);
    }
    assert_eq!(Revision::max().get(), (1u64 << 53) - 1);
    assert!(matches!(
        Revision::new(MAX_REVISION + 1),
        Err(IndexedDbError::Corrupt { .. })
    ));
}

fn failure(name: &str, message: &str) -> DomFailure {
    DomFailure { name: name.to_owned(), message: message.to_owned() }
}

fn backend(name: &str, message: &str) -> IndexedDbError {
    IndexedDbError::Backend { name: name.to_owned(), message: message.to_owned() }
}

#[test]
fn dom_failures_become_backend_errors_except_for_the_quota() {
    assert_eq!(dom_error(failure("QuotaExceededError", "full")), IndexedDbError::QuotaExceeded);
    assert_eq!(dom_error(failure("DataError", "bad")), backend("DataError", "bad"));
    assert_eq!(thrown_error(Some("boom".to_owned())), backend("UnknownError", "boom"));
    assert_eq!(thrown_error(None), backend("UnknownError", "<non-string error>"));
    assert_eq!(
        request_error(None),
        backend("UnknownError", "IndexedDB request failed without a DOM exception")
    );
    assert_eq!(request_error(Some(failure("DataError", "bad"))), backend("DataError", "bad"));
}

#[test]
fn an_invalid_state_means_a_closed_connection() {
    assert_eq!(begin_error(backend("InvalidStateError", "closing")), (IndexedDbError::Closed, true));
    assert_eq!(begin_error(backend("DataError", "bad")), (backend("DataError", "bad"), false));
    assert_eq!(begin_error(IndexedDbError::Conflict), (IndexedDbError::Conflict, false));
}

#[test]
fn a_readonly_transaction_must_complete() {
    assert_eq!(readonly_result(TransactionEnd::Complete), Ok(()));
    assert_eq!(
        readonly_result(TransactionEnd::Aborted { error: Some(failure("AbortError", "x")) }),
        Err(backend("AbortError", "x"))
    );
    assert_eq!(
        readonly_result(TransactionEnd::Aborted { error: None }),
        Err(backend("AbortError", "readonly IndexedDB transaction aborted"))
    );
}

#[test]
fn layout_errors_keep_their_cause() {
    assert_eq!(layout_error(FlatError::Foreign), IndexedDbError::Foreign);
    assert_eq!(
        layout_error(FlatError::Corrupt),
        IndexedDbError::Corrupt { detail: "directory layout is malformed".to_owned() }
    );
    assert_eq!(
        layout_error(FlatError::Key(KeyError::RootNotRemovable)),
        IndexedDbError::Key(KeyError::RootNotRemovable)
    );
    assert_eq!(layout_error(FlatError::Engine(IndexedDbError::ReadOnly)), IndexedDbError::ReadOnly);
}

fn bytes(value: &[u8]) -> BinaryValue {
    BinaryValue::Bytes(value.to_vec())
}

fn page(
    rows: Vec<(BinaryValue, BinaryValue)>,
    exhausted: bool,
) -> Result<CursorPage<(BinaryValue, BinaryValue)>, IndexedDbError> {
    Ok(CursorPage { rows, exhausted })
}

fn record(value: u64) -> Result<RevisionRecord, IndexedDbError> {
    Ok(RevisionRecord::Number(RevisionNumber::Whole(value)))
}

#[test]
fn a_snapshot_is_assembled_from_a_whole_page_of_distinct_keys() {
    let rows = vec![(bytes(b"b"), bytes(b"2")), (bytes(b"a"), bytes(b"1"))];
    let (map, revision) =
        assemble_snapshot(TransactionEnd::Complete, record(7), page(rows, true)).ok().expect("a snapshot");
    assert_eq!(revision.get(), 7);
    assert_eq!(map.len(), 2);
    assert_eq!(map.get(b"a"), Some(&b"1".to_vec()));
    assert!(matches!(
        assemble_snapshot(TransactionEnd::Complete, record(0), page(vec![], false)),
        Err(IndexedDbError::Corrupt { detail }) if detail == "snapshot cursor did not exhaust the database"
    ));
    let rows = vec![
        (bytes(b"a"), bytes(b"1")),
        (bytes(b"b"), bytes(b"2")),
        (bytes(b"a"), bytes(b"3")),
        (BinaryValue::Other(None), bytes(b"4")),
    ];
    assert!(matches!(
        assemble_snapshot(TransactionEnd::Complete, record(0), page(rows, true)),
        Err(IndexedDbError::Corrupt { detail }) if detail == "duplicate binary key in snapshot"
    ));
}

#[test]
fn a_snapshot_reports_the_first_thing_that_is_wrong() {
    let number = || BinaryValue::Other(Some("number".to_owned()));
    let bad_row = || page(vec![(bytes(b"a"), number()), (number(), number())], true);
    assert!(matches!(
        assemble_snapshot(TransactionEnd::Complete, record(0), bad_row()),
        Err(IndexedDbError::Corrupt { detail })
            if detail == "value is not a binary value (JavaScript type: number)"
    ));
    assert!(matches!(
        assemble_snapshot(TransactionEnd::Complete, record(0), page(vec![(number(), number())], true)),
        Err(IndexedDbError::Corrupt { detail })
            if detail == "key is not a binary value (JavaScript type: number)"
    ));
    assert!(matches!(
        assemble_snapshot(TransactionEnd::Complete, Ok(RevisionRecord::Missing), bad_row()),
        Err(IndexedDbError::Corrupt { detail }) if detail == "revision record is missing"
    ));
    assert!(matches!(
        assemble_snapshot(TransactionEnd::Complete, Err(IndexedDbError::Closed), Err(IndexedDbError::QuotaExceeded)),
        Err(IndexedDbError::Closed)
    ));
    assert!(matches!(
        assemble_snapshot(TransactionEnd::Complete, record(0), Err(IndexedDbError::QuotaExceeded)),
        Err(IndexedDbError::QuotaExceeded)
    ));
    assert!(matches!(
        assemble_snapshot(TransactionEnd::Aborted { error: None }, Err(IndexedDbError::Closed), bad_row()),
        Err(IndexedDbError::Backend { name, .. }) if name == "AbortError"
    ));
}

#[test]
fn numbers_that_are_no_revisions_say_why() {
    let detail = |n: RevisionNumber| match Revision::from_number(n) {
        Err(IndexedDbError::Corrupt { detail }) => detail,
        _ => panic!("not refused"),
    };
    assert_eq!(detail(RevisionNumber::NotFinite), "revision is not finite");
    assert_eq!(detail(RevisionNumber::Negative), "revision is negative");
    assert_eq!(detail(RevisionNumber::Fractional), "revision is not an integer");
    assert_eq!(
        detail(RevisionNumber::Whole(u64::MAX)),
        "revision exceeds the JavaScript safe-integer range"
    );
    assert_eq!(Revision::from_number(RevisionNumber::Whole(3)).map(|r| r.get()), Ok(3));
    assert!(matches!(
        checked_revision(RevisionRecord::Other(Some("string".to_owned()))),
        Err(IndexedDbError::Corrupt { detail })
            if detail == "revision is not a number (JavaScript type: string)"
    ));
    assert!(matches!(
        checked_revision(RevisionRecord::Other(None)),
        Err(IndexedDbError::Corrupt { detail })
            if detail == "revision is not a number (JavaScript type: unknown)"
    ));
}

#[test]
fn bounds_become_key_ranges() {
    assert_eq!(key_range(Bound::Unbounded, Bound::Unbounded), KeyRange::All);
    assert_eq!(
        key_range(Bound::Included(b""), Bound::Unbounded),
        KeyRange::Lower { lower: vec![], open: false }
    );
    assert_eq!(
        key_range(Bound::Unbounded, Bound::Excluded(b"z")),
        KeyRange::Upper { upper: b"z".to_vec(), open: true }
    );
    assert_eq!(
        key_range(Bound::Excluded(b"a"), Bound::Included(b"z")),
        KeyRange::Both { lower: b"a".to_vec(), upper: b"z".to_vec(), lower_open: true, upper_open: false }
    );
    assert_eq!(key_range(Bound::Included(b"z"), Bound::Included(b"a")), KeyRange::Empty);
    assert_eq!(key_range(Bound::Excluded(b"k"), Bound::Included(b"k")), KeyRange::Empty);
}

/// Replay the operations of a plan over rows.
fn replay(rows: &mut ByteMap<Vec<u8>>, ops: Vec<(Vec<u8>, Option<Vec<u8>>)>) {
    for (key, value) in ops {
        match value {
            Some(value) => rows.insert(&key, value),
            None => rows.remove(&key),
        }
    }
}

fn copy(rows: &ByteMap<Vec<u8>>) -> ByteMap<Vec<u8>> {
    let mut out = ByteMap::new();
    for i in 0..rows.len() {
        out.insert(rows.key_at(i), rows.value_at(i).clone());
    }
    out
}

#[test]
fn a_plan_replayed_gives_what_the_session_saw() {
    let mut rows: ByteMap<Vec<u8>> = ByteMap::new();
    let mut revision = Revision::zero();
    for round in 0..3u8 {
        let mut tx = IndexedDbTransaction::new(revision, copy(&rows));
        tx.set(&[b"d"], &[round], b"v").expect("set");
        if round == 2 {
            tx.delete(&[b"d"], &[0]).expect("delete");
        }
        assert_eq!(tx.expected_revision(), revision);
        let seen = tx.range(&[b"d"], Bound::Unbounded, Bound::Unbounded, false).collect().expect("scan");
        match tx.commit().expect("a plan") {
            CommitPlan::Write { expected, next, ops } => {
                assert_eq!(fence_result(revision, expected), Ok(()));
                assert_eq!(next.get(), revision.get() + 1);
                revision = next;
                replay(&mut rows, ops);
            }
            CommitPlan::CheckFence { .. } => panic!("the session wrote"),
        }
        let reader = IndexedDbReader::new(copy(&rows));
        let now = reader.range(&[b"d"], Bound::Unbounded, Bound::Unbounded, false).collect().expect("scan");
        assert!(now == seen);
    }
    let reader = IndexedDbReader::new(rows);
    assert_eq!(reader.get(&[b"d"], &[0]).expect("get"), None);
    assert_eq!(reader.get(&[b"d"], &[2]).expect("get"), Some(b"v".to_vec()));
}

#[test]
fn a_session_without_writes_checks_its_fence_only() {
    let tx = IndexedDbTransaction::new(Revision::max(), ByteMap::new());
    assert_eq!(tx.pending_len(), 0);
    assert!(matches!(
        tx.commit(),
        Ok(CommitPlan::CheckFence { expected }) if expected == Revision::max()
    ));
    assert_eq!(fence_result(Revision::zero(), Revision::max()), Err(IndexedDbError::Conflict));
}

#[test]
fn an_exhausted_revision_refuses_the_commit_of_writes() {
    let mut tx = IndexedDbTransaction::new(Revision::max(), ByteMap::new());
    tx.set(&[], b"k", b"v").expect("set");
    assert!(matches!(tx.commit(), Err(IndexedDbError::Corrupt { .. })));
}

#[test]
fn a_session_describes_counts_only() {
    let mut tx = IndexedDbTransaction::new(Revision::new(7).expect("a revision"), ByteMap::new());
    tx.set(&[b"a"], b"secret-key", b"secret-value").expect("set");
    assert_eq!(tx.pending_len(), 9);
    assert_eq!(
        tx.describe(),
        "IndexedDbTransaction { pending_len: 9, expected_revision: Revision(7) }"
    );
}

#[test]
fn a_reader_refuses_every_mutation() {
    let mut reader = IndexedDbReader::new(ByteMap::new());
    assert_eq!(reader.set(&[], b"k", b"v"), Err(IndexedDbError::ReadOnly));
    assert_eq!(reader.delete(&[], b"k"), Err(IndexedDbError::ReadOnly));
    assert_eq!(
        reader.clear_range(&[], Bound::Unbounded, Bound::Unbounded),
        Err(IndexedDbError::ReadOnly)
    );
    assert_eq!(reader.remove_dir(&[b"a"]), Err(IndexedDbError::ReadOnly));
    assert_eq!(reader.get(&[], b"k"), Ok(None));
}

#[test]
fn a_snapshot_records_the_last_write_of_a_key() {
    let mut base: ByteMap<Vec<u8>> = ByteMap::new();
    base.insert(b"a", b"0".to_vec());
    base.insert(b"b", b"0".to_vec());
    let mut snapshot = Snapshot::new(base);
    snapshot.insert(b"a", b"1").expect("insert");
    snapshot.insert(b"a", b"2").expect("insert");
    snapshot.insert(b"c", b"3").expect("insert");
    snapshot.delete(b"c").expect("delete");
    snapshot.clear_range(Bound::Included(b"b"), Bound::Unbounded).expect("clear");
    assert_eq!(snapshot.get(b"a"), Ok(Some(b"2".to_vec())));
    assert_eq!(snapshot.get(b"b"), Ok(None));
    let ops = snapshot.into_buffer().drain_ops();
    assert_eq!(
        ops,
        vec![
            (b"a".to_vec(), Some(b"2".to_vec())),
            (b"b".to_vec(), None),
            (b"c".to_vec(), None),
        ]
    );
}

#[test]
fn a_stale_session_finds_another_revision() {
    let mut stored = Revision::zero();
    let captured = stored;
    for _ in 0..3 {
        stored = stored.next().expect("the next revision");
        let mut state = CommitState::new(captured);
        assert_eq!(state.on_revision(Ok(stored)), CommitStep::Abort);
        assert_eq!(state.aborted(None), IndexedDbError::Conflict);
    }
}

#[test]
fn a_commit_proceeds_only_at_the_expected_revision() {
    let mut state = CommitState::new(Revision::zero());
    assert_eq!(state.on_revision(Ok(Revision::zero())), CommitStep::Enqueue);
    state.on_enqueue();
    assert_eq!(state.completed(), Ok(()));

    let mut state = CommitState::new(Revision::zero());
    assert_eq!(state.on_revision(Ok(Revision::max())), CommitStep::Abort);
    assert_eq!(state.aborted(Some(failure("AbortError", "asked"))), IndexedDbError::Conflict);

    // The commit may complete although the abort was asked for.
    let mut state = CommitState::new(Revision::zero());
    assert_eq!(state.on_revision(Ok(Revision::max())), CommitStep::Abort);
    state.on_abort_failed();
    assert_eq!(state.completed(), Err(IndexedDbError::Conflict));
}

#[test]
fn a_failure_of_the_commit_keeps_its_first_cause() {
    let mut state = CommitState::new(Revision::zero());
    assert_eq!(state.on_revision(Err(IndexedDbError::Closed)), CommitStep::Abort);
    state.on_failure(IndexedDbError::QuotaExceeded);
    assert_eq!(state.aborted(None), IndexedDbError::Closed);

    let mut state = CommitState::new(Revision::zero());
    state.on_enqueue();
    state.on_failure(IndexedDbError::Closed);
    assert_eq!(
        state.completed(),
        Err(backend(
            "UnexpectedComplete",
            "transaction completed after a requested abort; outcome unknown: IndexedDB connection is closed"
        ))
    );

    let mut state = CommitState::new(Revision::zero());
    state.on_abort_failed();
    assert_eq!(
        state.completed(),
        Err(backend(
            "AbortError",
            "transaction completed after an abort failed without a recorded cause"
        ))
    );
}

#[test]
fn an_abort_that_nobody_asked_for_is_retryable_except_for_the_quota() {
    let e = abort_error(Some(failure("UnknownError", "disk")));
    assert_eq!(e, IndexedDbError::CommitAborted { reason: "UnknownError: disk".to_owned() });
    assert!(e.is_retryable());
    assert_eq!(abort_error(Some(failure("QuotaExceededError", ""))), IndexedDbError::QuotaExceeded);
    let e = CommitState::new(Revision::zero()).aborted(None);
    assert_eq!(
        e,
        IndexedDbError::CommitAborted { reason: "transaction aborted without an error".to_owned() }
    );
}

#[test]
fn a_settlement_keeps_its_first_outcome() {
    let mut s: Settlement<u8> = Settlement::pending();
    assert_eq!(s.take(), None);
    assert!(s.settle(1));
    assert!(!s.settle(2));
    assert!(s.settled());
    assert_eq!(s.take(), Some(1));
    assert_eq!(s.take(), None);
}

#[test]
fn a_cursor_gathers_a_page() {
    let mut c: CursorState<u8> = CursorState::pending();
    assert_eq!(c.on_event(CursorEvent::Row(1), 2), CursorStep::Continue);
    assert_eq!(c.on_event(CursorEvent::Row(2), 2), CursorStep::Settled);
    assert_eq!(c.on_event(CursorEvent::Row(3), 2), CursorStep::Ignore);
    assert_eq!(c.on_event(CursorEvent::End, 2), CursorStep::Ignore);
    assert!(!c.settle_page(true));
    let page = c.take().expect("settled").ok().expect("a page");
    assert_eq!((page.rows, page.exhausted), (vec![1, 2], false));

    let mut c: CursorState<u8> = CursorState::pending();
    assert_eq!(c.on_event(CursorEvent::Row(1), 2), CursorStep::Continue);
    assert_eq!(c.on_event(CursorEvent::End, 2), CursorStep::Settled);
    assert!(!c.settle_failure(IndexedDbError::Closed));
    let page = c.take().expect("settled").ok().expect("a page");
    assert_eq!((page.rows, page.exhausted), (vec![1], true));

    let mut c: CursorState<u8> = CursorState::pending();
    assert_eq!(c.on_event(CursorEvent::Failed(IndexedDbError::Closed), 2), CursorStep::Settled);
    assert!(matches!(c.take(), Some(Err(IndexedDbError::Closed))));

    let mut c: CursorState<u8> = CursorState::pending();
    assert_eq!(c.on_event(CursorEvent::NotACursor, 2), CursorStep::Settled);
    assert!(matches!(
        c.take(),
        Some(Err(IndexedDbError::Corrupt { detail })) if detail == "cursor request returned a non-cursor value"
    ));
}

#[test]
fn an_open_delivers_only_to_a_waiting_caller() {
    assert!(matches!(open_action(None, Ok(()), true), OpenAction::Deliver));
    assert!(matches!(open_action(None, Ok(()), false), OpenAction::Close));
    assert!(matches!(
        open_action(None, Err(IndexedDbError::Closed), true),
        OpenAction::Fail(IndexedDbError::Closed)
    ));
    assert!(matches!(
        open_action(Some(IndexedDbError::QuotaExceeded), Ok(()), true),
        OpenAction::CloseAndFail(IndexedDbError::QuotaExceeded)
    ));
    assert!(matches!(
        open_action(Some(IndexedDbError::QuotaExceeded), Err(IndexedDbError::Closed), false),
        OpenAction::Fail(IndexedDbError::QuotaExceeded)
    ));
}

#[test]
fn identifiers_skip_zero() {
    assert_eq!(following_id(1), 2);
    assert_eq!(following_id(u64::MAX), 1);
}

/// Whether a key lies in a key range, as the browser reads it.
fn admits(range: &KeyRange, key: &[u8]) -> bool {
    let above = |lower: &[u8], open: bool| if open { key > lower } else { key >= lower };
    let below = |upper: &[u8], open: bool| if open { key < upper } else { key <= upper };
    match range {
        KeyRange::Empty => false,
        KeyRange::All => true,
        KeyRange::Lower { lower, open } => above(lower, *open),
        KeyRange::Upper { upper, open } => below(upper, *open),
        KeyRange::Both { lower, upper, lower_open, upper_open } => {
            above(lower, *lower_open) && below(upper, *upper_open)
        }
    }
}

#[test]
fn key_ranges_match_rust_bounds_without_constructing_empty_ranges() {
    let keys: &[&[u8]] = &[b"a", b"b", b"c", b"d", b"e"];
    let scan = |range: KeyRange| -> Vec<&[u8]> { keys.iter().copied().filter(|k| admits(&range, k)).collect() };
    let cases = [
        (Bound::Unbounded, Bound::Unbounded, keys),
        (Bound::Unbounded, Bound::Included(&b"d"[..]), &keys[..4]),
        (Bound::Unbounded, Bound::Excluded(&b"d"[..]), &keys[..3]),
        (Bound::Included(&b"b"[..]), Bound::Unbounded, &keys[1..]),
        (Bound::Excluded(&b"b"[..]), Bound::Unbounded, &keys[2..]),
        (Bound::Included(&b"b"[..]), Bound::Included(&b"d"[..]), &keys[1..4]),
        (Bound::Included(&b"b"[..]), Bound::Excluded(&b"d"[..]), &keys[1..3]),
        (Bound::Excluded(&b"b"[..]), Bound::Included(&b"d"[..]), &keys[2..4]),
        (Bound::Excluded(&b"b"[..]), Bound::Excluded(&b"d"[..]), &keys[2..3]),
    ];
    for (start, end, expected) in cases {
        assert_eq!(scan(key_range(start, end)), expected);
    }
    assert_eq!(key_range(Bound::Included(b"c"), Bound::Included(b"a")), KeyRange::Empty);
    assert_eq!(
        key_range(Bound::Included(b"c"), Bound::Included(b"c")),
        KeyRange::Both { lower: b"c".to_vec(), upper: b"c".to_vec(), lower_open: false, upper_open: false }
    );
    assert_eq!(scan(key_range(Bound::Included(b"c"), Bound::Included(b"c"))), vec![&b"c"[..]]);
    assert_eq!(key_range(Bound::Excluded(b"c"), Bound::Included(b"c")), KeyRange::Empty);
    assert_eq!(key_range(Bound::Included(b"c"), Bound::Excluded(b"c")), KeyRange::Empty);
}

/// Taking a page leaves the cursor settled: a late event settles nothing.
#[test]
fn a_taken_page_stays_settled() {
    let mut c: CursorState<u8> = CursorState::pending();
    assert_eq!(c.on_event(CursorEvent::End, 2), CursorStep::Settled);
    assert!(c.take().is_some());
    assert!(c.take().is_none());
    assert_eq!(c.on_event(CursorEvent::Row(1), 2), CursorStep::Ignore);
    assert!(!c.settle_page(true));
    assert!(!c.settle_failure(IndexedDbError::Closed));
    assert!(c.take().is_none());
}

/// A key enters the write set only where the session writes or clears it.
#[test]
fn only_changed_keys_enter_the_write_set() {
    let mut tx = IndexedDbTransaction::new(Revision::zero(), ByteMap::new());
    tx.set(&[b"d"], b"a", b"1").expect("set");
    tx.set(&[b"d"], b"b", b"2").expect("set");
    let mut rows: ByteMap<Vec<u8>> = ByteMap::new();
    match tx.commit().expect("a plan") {
        CommitPlan::Write { ops, .. } => replay(&mut rows, ops),
        CommitPlan::CheckFence { .. } => panic!("the session wrote"),
    }
    let total = rows.len();

    let mut tx = IndexedDbTransaction::new(Revision::zero(), copy(&rows));
    assert!(!tx.remove_dir(&[b"absent"]).expect("remove"));
    tx.clear_range(&[b"d"], Bound::Excluded(b"b"), Bound::Unbounded).expect("clear");
    tx.delete(&[b"absent"], b"k").expect("delete");
    assert!(tx.set(&[b"\xFF"], b"k", b"v").is_err());
    assert_eq!(tx.pending_len(), 0);
    tx.set(&[b"d"], b"a", b"1").expect("set");
    assert_eq!(tx.pending_len(), 1);
    tx.delete(&[b"d"], b"c").expect("delete");
    assert_eq!(tx.pending_len(), 2);
    tx.clear_range(&[b"d"], Bound::Unbounded, Bound::Unbounded).expect("clear");
    assert_eq!(tx.pending_len(), 3);

    // A removal touches the rows that it deletes: two data rows, the directory's
    // child row and its layer row.
    let mut tx = IndexedDbTransaction::new(Revision::zero(), copy(&rows));
    assert!(tx.remove_dir(&[b"d"]).expect("remove"));
    assert_eq!(tx.pending_len(), 4);
    assert_eq!(total, 10);
}

/// What a commit may do next can be asked before it is told.
#[test]
fn a_commit_tells_where_it_stands() {
    let mut state = CommitState::new(Revision::zero());
    assert!(state.is_open() && state.is_unasked() && !state.is_refused());
    state.on_enqueue();
    assert!(!state.is_open());
    let mut state = CommitState::new(Revision::zero());
    state.on_revision(Ok(Revision::max()));
    assert!(state.is_refused() && state.is_open() && !state.is_unasked());
    let mut state = CommitState::new(Revision::zero());
    state.on_failure(IndexedDbError::Closed);
    assert!(!state.is_refused() && !state.is_unasked());
}
