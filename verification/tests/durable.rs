//! The durable store.

use core::ops::Bound;
use std::collections::BTreeMap;

use fasm_storage::btreemap::{BTreeMapStore, BufReadView};
use fasm_storage::bytemap::ByteMap;
use fasm_storage::durable::{
    engine_result, probe_layout_version, scan_result, version_result, RedbBackendError, RedbReader, RedbStorageError, RedbTransaction, TABLE_NAME,
};
use fasm_storage::flatdir::layout::{child_key, node_subspace, COUNTERS_BASE};
use fasm_storage::flatdir::ops::validate;
use fasm_storage::flatdir::{parse_version, VERSION_KEY};
use fasm_storage::{
    Commit, DataBounds, ErrorMessage, FlatError, KeyError, KvDirNav, KvPair, KvStore, KvStream, RetryableStorageError, ScopedKvStore,
};
use redb::{Database, TableDefinition};

/// A fresh database in memory.
fn open_database() -> Database {
    Database::builder()
        .create_with_backend(redb::backends::InMemoryBackend::new())
        .expect("in-memory database")
}

fn transaction(db: &Database) -> RedbTransaction {
    RedbTransaction::new(db.begin_write().expect("write transaction"))
}

fn open_reader(db: &Database) -> RedbReader {
    RedbReader::new(db.begin_read().expect("read transaction"))
}

fn commit(tx: RedbTransaction) {
    tx.into_tx().commit().expect("commit");
}

fn table() -> TableDefinition<'static, &'static [u8], &'static [u8]> {
    TableDefinition::new(TABLE_NAME)
}

/// Drain a stream, keeping each pair's key.
fn collect_keys(mut stream: KvStream<RedbStorageError>) -> Vec<Vec<u8>> {
    let mut out = Vec::new();
    while let Some((pair, rest)) = stream.next().expect("scan step") {
        out.push(pair.key);
        stream = rest;
    }
    out
}

/// The committed raw rows, read directly through redb.
fn dump_raw_rows(db: &Database) -> BTreeMap<Vec<u8>, Vec<u8>> {
    let tx = db.begin_read().expect("read transaction");
    let table = tx.open_table(table()).expect("kv table");
    let mut rows = BTreeMap::new();
    for row in table.range::<&[u8]>(..).expect("range") {
        let (k, v) = row.expect("row");
        rows.insert(k.value().to_vec(), v.value().to_vec());
    }
    rows
}

/// Whether the dumped rows form a layout without malformed rows.
fn check_layout(rows: &BTreeMap<Vec<u8>, Vec<u8>>) -> bool {
    let mut base: ByteMap<Vec<u8>> = ByteMap::new();
    for (k, v) in rows {
        base.insert(k, v.clone());
    }
    let store = BTreeMapStore::from_map(base);
    let none: ByteMap<Option<Vec<u8>>> = ByteMap::new();
    validate(&BufReadView::new(store.raw(), &none)).is_ok()
}

/// Write one raw row directly through redb, and commit.
fn put_raw(db: &Database, key: &[u8], value: &[u8]) {
    let tx = db.begin_write().expect("write transaction");
    {
        let mut table = tx.open_table(table()).expect("kv table");
        table.insert(key, value).expect("insert");
    }
    tx.commit().expect("commit");
}

/// The version check of an open.
fn probe(db: &Database) -> Result<(), RedbStorageError> {
    probe_layout_version(&db.begin_read().expect("read transaction"))
}

fn run_reference_ops(tx: &mut RedbTransaction) {
    tx.set(&[], b"k", b"v1").expect("set k");
    tx.set(&[b"a"], b"x", b"y").expect("set x");
    tx.set(&[b"a", b"b"], b"m", b"n").expect("set m");
    tx.delete(&[], b"k").expect("delete k");
    tx.set(&[b"a"], b"x", b"y2").expect("set x2");
    tx.clear_range(&[b"a"], Bound::Unbounded, Bound::Unbounded).expect("clear a");
}

/// A commit persists; a fresh reader then sees the committed data.
#[test]
fn a_commit_persists_for_a_fresh_reader() {
    let store = open_database();
    let mut tx = transaction(&store);
    tx.set(&[b"note"], b"1", b"a").expect("set");
    tx.set(&[b"note"], b"2", b"b").expect("set");
    commit(tx);

    let reader = open_reader(&store);
    assert_eq!(
        reader.get(&[b"note"], b"1").unwrap().as_deref(),
        Some(b"a".as_slice())
    );
    assert_eq!(
        reader.get(&[b"note"], b"2").unwrap().as_deref(),
        Some(b"b".as_slice())
    );
}

/// An uncommitted transaction rolls back on drop: its writes are not visible to
/// a fresh reader, and the committed data it opened over is untouched.
#[test]
fn an_uncommitted_transaction_rolls_back_on_drop() {
    let store = open_database();

    let mut tx = transaction(&store);
    tx.set(&[b"s"], b"seed", b"committed").expect("set");
    commit(tx);

    let mut tx = transaction(&store);
    tx.set(&[b"e"], b"ephemeral", b"gone").expect("set");
    // tx is dropped here, uncommitted.
    drop(tx);

    let reader = open_reader(&store);
    assert_eq!(
        reader.get(&[b"e"], b"ephemeral").unwrap(),
        None,
        "an uncommitted write must not persist"
    );
    assert_eq!(
        reader.get(&[b"s"], b"seed").unwrap().as_deref(),
        Some(b"committed".as_slice()),
        "the committed seed must survive the rolled-back transaction"
    );
}

/// The reader is a consistent read-only view: reads and scans work, and every
/// mutation is rejected. An existing directory's `remove_dir` surfaces the
/// engine's first raw write as a `ReadOnly` error; a missing directory reports
/// `Ok(false)` without attempting a write.
#[test]
fn a_reader_serves_reads_and_rejects_mutations() {
    let store = open_database();
    let mut tx = transaction(&store);
    tx.set(&[], b"0", b"v0").expect("set");
    tx.set(&[], b"1", b"v1").expect("set");
    tx.set(&[b"note"], b"n", b"vn").expect("set");
    commit(tx);

    let mut reader: RedbReader = open_reader(&store);

    // Reads and scans work.
    assert_eq!(
        reader.get(&[], b"1").unwrap().as_deref(),
        Some(b"v1".as_slice())
    );
    let scan = collect_keys(reader.range(&[], Bound::Unbounded, Bound::Unbounded, false));
    assert_eq!(scan, vec![b"0".to_vec(), b"1".to_vec()]);
    assert_eq!(
        reader.list_dirs(&[]).unwrap(),
        vec![b"note".to_vec()]
    );

    // Every mutation is rejected.
    let err = reader.set(&[], b"k", b"v").expect_err("set on reader");
    assert!(
        err.message().contains("read-only"),
        "set surfaces the read-only error: {err:?}"
    );
    let err = reader.delete(&[], b"k").expect_err("delete on reader");
    assert!(
        err.message().contains("read-only"),
        "delete surfaces the read-only error: {err:?}"
    );
    let err = reader.clear_range(&[], Bound::Unbounded, Bound::Unbounded)
        .expect_err("clear on reader");
    assert!(
        err.message().contains("read-only"),
        "clear surfaces the read-only error: {err:?}"
    );
    let err =
        reader.remove_dir(&[b"note"]).expect_err("remove of an existing dir on a reader");
    assert!(
        err.message().contains("read-only"),
        "remove_dir surfaces the read-only error: {err:?}"
    );
    // A missing directory needs no write.
    assert!(!reader.remove_dir(&[b"absent"]).expect("remove of missing dir"));
}

/// A scoped commit commits the underlying redb transaction.
#[test]
fn a_scoped_commit_forwards_to_the_transaction() {
    let store = open_database();
    let mut scoped = ScopedKvStore::new(
        transaction(&store),
        vec![b"scope".to_vec()],
    );
    scoped.set(&[], b"a", b"1").expect("set");
    scoped.commit().expect("commit").commit().expect("durable commit");

    // The committed key lives in the pinned directory in the backing store.
    let reader = open_reader(&store);
    assert_eq!(
        reader.get(&[b"scope"], b"a").unwrap().as_deref(),
        Some(b"1".as_slice())
    );
}

/// The `KvStream` surface over a transaction: `keys` and paged `next` on a
/// bounded forward scan.
#[test]
fn keys_and_take_on_a_bounded_scan() {
    let store = open_database();
    let mut tx = transaction(&store);
    for i in 0..10u8 {
        let key = i.to_be_bytes();
        tx.set(&[b"k"], &key, &[i]).expect("set");
    }
    let keys: Vec<Vec<u8>> =
        collect_keys(tx.range(&[b"k"], Bound::Unbounded, Bound::Unbounded, false));
    assert_eq!(keys.len(), 10);
    // A paged scan takes the three smallest keys, stepping through the
    // stream handles.
    let mut got = Vec::new();
    let mut stream = tx.range(&[b"k"], Bound::Unbounded, Bound::Unbounded, false);
    for _ in 0..3 {
        let Some((pair, rest)) = stream.next().expect("step") else {
            panic!("the stream ended before three keys")
        };
        got.push(pair.key);
        stream = rest;
    }
    assert_eq!(
        got,
        vec![0u8.to_be_bytes(), 1u8.to_be_bytes(), 2u8.to_be_bytes()]
    );
    // A missing directory yields an empty stream.
    let empty = tx.range(&[b"absent"], Bound::Unbounded, Bound::Unbounded, false);
    assert!(empty.next().expect("empty step").is_none());
}

/// A bounded range with an `Included` end includes the key at the end; an
/// `Excluded` start excludes the key at the start.
#[test]
fn bound_inclusion_spot_checks() {
    let store = open_database();
    let mut tx = transaction(&store);
    tx.set(&[b"b"], b"1", b"v1").expect("set");
    tx.set(&[b"b"], b"2", b"v2").expect("set");
    tx.set(&[b"b"], b"3", b"v3").expect("set");

    let keys: Vec<Vec<u8>> =
        collect_keys(tx.range(&[b"b"], Bound::Included(b"1"), Bound::Included(b"2"), false));
    assert_eq!(keys, vec![b"1".to_vec(), b"2".to_vec()]);

    let keys: Vec<Vec<u8>> =
        collect_keys(tx.range(&[b"b"], Bound::Excluded(b"1"), Bound::Unbounded, false));
    assert_eq!(keys, vec![b"2".to_vec(), b"3".to_vec()]);
}

#[test]
fn open_fails_on_a_foreign_version_entry() {
    // A major = 2 row (newer major), a minor = 1 row (the read-only
    // rule), and a truncated value all fail closed.
    for (major, minor, len) in [(2u32, 0u32, 12usize), (1, 1, 12), (1, 0, 8)] {
        let db = open_database();
        let mut v = Vec::new();
        v.extend_from_slice(&major.to_le_bytes());
        v.extend_from_slice(&minor.to_le_bytes());
        v.extend_from_slice(&0u32.to_le_bytes());
        put_raw(&db, &VERSION_KEY, &v[..len]);
        let err = probe(&db).expect_err("a mismatched version must fail the open");
        assert!(!RetryableStorageError::is_retryable(&err));
        assert!(
            err.message().contains("different layout version"),
            "unexpected error: {err:?}"
        );
        assert!(open_reader(&db).get(&[], b"k").is_err());
    }
}

/// A version row the engine accepts (major <= 1, minor == 0, any patch)
/// opens; a table without a version row opens fresh.
#[test]
fn open_accepts_supported_version_rows() {
    for (major, minor, patch) in [(1u32, 0u32, 7u32), (0, 0, 0)] {
        let db = open_database();
        let mut v = Vec::new();
        v.extend_from_slice(&major.to_le_bytes());
        v.extend_from_slice(&minor.to_le_bytes());
        v.extend_from_slice(&patch.to_le_bytes());
        put_raw(&db, &VERSION_KEY, v.as_slice());
        probe(&db).expect("a supported version must open");
        assert_eq!(open_reader(&db).get(&[], b"k").expect("get"), None);
    }
}

#[test]
fn open_accepts_a_table_without_a_version_row() {
    let db = open_database();
    put_raw(&db, b"other", b"row");
    probe(&db).expect("a table without a version row opens fresh");
}

#[test]
fn a_fresh_file_is_initialised_by_the_first_committed_write() {
    let db = open_database();
    let mut tx = transaction(&db);
    tx.set(&[b"swap"], b"k", b"v").expect("set");
    commit(tx);
    let rows = dump_raw_rows(&db);
    // The lazily written layout: version row, the anchor child + layer
    // rows, the directory child + layer rows, the HCA counter + two recent
    // rows, and the one data row.
    assert_eq!(rows.len(), 9, "unexpected raw rows: {rows:?}");
    assert_eq!(
        parse_version(rows.get(&VERSION_KEY[..]).expect("version row").as_slice()),
        Some((1, 0, 0))
    );
    // The data row's prefix sits in the packed-i64 band and the whole
    // layout is self-consistent.
    let data = rows
        .iter()
        .find(|(k, _)| (0x0c..=0x1c).contains(&k[0]))
        .expect("a data row");
    assert_eq!(&data.1[..], b"v");
    assert!(check_layout(&rows), "the layout must validate");
    // A second directory with one data row adds exactly four rows:
    // the child row, the layer row, the data row, and the HCA recent
    // row for the new allocation.
    let mut tx = transaction(&db);
    tx.set(&[b"b"], b"k2", b"v2").expect("set b");
    commit(tx);
    let rows = dump_raw_rows(&db);
    assert_eq!(rows.len(), 13, "unexpected raw rows: {rows:?}");
}

#[test]
fn the_version_entry_is_1_0_0_after_any_write() {
    let db = open_database();
    let mut tx = transaction(&db);
    tx.set(&[b"swap"], b"k", b"v").expect("set");
    commit(tx);
    let rows = dump_raw_rows(&db);
    assert_eq!(
        parse_version(rows.get(&VERSION_KEY[..]).expect("version row").as_slice()),
        Some((1, 0, 0))
    );
}

#[test]
fn the_same_operations_resolve_the_same_paths_and_validate() {
    let p1 = open_database();
    let p2 = open_database();
    for db in [&p1, &p2] {
        let mut tx = transaction(db);
        run_reference_ops(&mut tx);
        commit(tx);
    }
    let raw1 = dump_raw_rows(&p1);
    let raw2 = dump_raw_rows(&p2);
    // Data rows only: keep the rows whose prefix sits in the packed-i64
    // band (the meta regions start at 0xFE or live under the root node).
    let data_rows = |rows: &BTreeMap<Vec<u8>, Vec<u8>>| -> Vec<(Vec<u8>, Vec<u8>)> {
        rows.iter()
            .filter(|(k, _)| (0x0c..=0x1c).contains(&k[0]))
            .map(|(k, v)| (k.clone(), v.clone()))
            .collect()
    };
    // The allocator samples its candidate within the window, so the two
    // layouts are not byte-identical. What is guaranteed: a self-consistent
    // layout, and the same visible data.
    assert_eq!(raw1.len(), 12, "unexpected raw rows: {raw1:?}");
    assert_eq!(raw2.len(), 12, "unexpected raw rows: {raw2:?}");
    let d1 = data_rows(&raw1);
    let d2 = data_rows(&raw2);
    assert!(check_layout(&raw1), "layout 1 must validate");
    assert!(check_layout(&raw2), "layout 2 must validate");
    assert_eq!(d1.len(), 1, "unexpected data rows: {raw1:?}");
    assert_eq!(d2.len(), 1);
    // The surviving row is `[a, b]`'s `m -> n`: relative key `m`.
    assert_eq!(&d1[0].1[..], b"n");
    assert_eq!(&d2[0].1[..], b"n");
    // Both relative keys decode to `m` (the last byte of the data key).
    assert_eq!(d1[0].0.last(), Some(&b'm'));
    assert_eq!(d2[0].0.last(), Some(&b'm'));
    // Read through the store API: the resolved path must expose the
    // surviving key.
    let r = transaction(&p1);
    assert_eq!(r.get(&[b"a", b"b"], b"m").unwrap(), Some(b"n".to_vec()));
}

/// A table that was never written reads as empty.
#[test]
fn a_reader_of_an_untouched_database_sees_nothing() {
    let db = open_database();
    let reader = open_reader(&db);
    assert_eq!(reader.get(&[], b"k").expect("get"), None);
    assert!(collect_keys(reader.range(&[], Bound::Unbounded, Bound::Unbounded, true)).is_empty());
    assert!(reader.list_dirs(&[]).expect("list").is_empty());
    assert!(!reader.dir_exists(&[b"a"]).expect("exists"));
}

/// A cursor over a reader walks the same rows in both directions, past rows
/// whose keys extend each other.
#[test]
fn cursors_walk_both_directions() {
    let db = open_database();
    let mut tx = transaction(&db);
    let keys: [&[u8]; 6] = [b"", b"\0", b"a", b"a\0", b"b", b"\xFF\xFF"];
    for key in keys {
        tx.set(&[b"d"], key, b"v").expect("set");
    }
    commit(tx);
    let reader = open_reader(&db);
    let forward = collect_keys(reader.range(&[b"d"], Bound::Unbounded, Bound::Unbounded, false));
    assert_eq!(forward, keys.iter().map(|k| k.to_vec()).collect::<Vec<_>>());
    let mut backward = collect_keys(reader.range(&[b"d"], Bound::Unbounded, Bound::Unbounded, true));
    backward.reverse();
    assert_eq!(backward, forward);
    let window = collect_keys(reader.range(&[b"d"], Bound::Excluded(b"a"), Bound::Included(b"b"), true));
    assert_eq!(window, vec![b"b".to_vec(), b"a\0".to_vec()]);
    assert!(collect_keys(reader.range(&[b"d"], Bound::Included(b"b"), Bound::Excluded(b"a"), false)).is_empty());
}

/// A database whose table was never written opens fresh.
#[test]
fn open_accepts_an_untouched_database() {
    probe(&open_database()).expect("an untouched database opens fresh");
    assert!(version_result(None).is_ok());
    assert_eq!(
        version_result(Some(&[])),
        Err(RedbStorageError::from(RedbBackendError::LayoutVersionMismatch))
    );
}

/// Stepping a cursor by hand reads one row at a time.
#[test]
fn a_cursor_steps_row_by_row() {
    let db = open_database();
    let mut tx = transaction(&db);
    for key in [b"a", b"b", b"c"] {
        tx.set(&[b"d"], key, key).expect("set");
    }
    for reverse in [false, true] {
        let mut left = tx.data_bounds(&[b"d"], Bound::Unbounded, Bound::Excluded(b"c")).expect("bounds");
        let mut seen = Vec::new();
        while let Some(bounds) = left {
            left = match tx.next_row(bounds, reverse).expect("step") {
                Some((pair, next)) => {
                    seen.push(pair.key);
                    Some(next)
                }
                None => None,
            };
        }
        if reverse {
            seen.reverse();
        }
        assert_eq!(seen, vec![b"a".to_vec(), b"b".to_vec()]);
    }
    assert!(matches!(tx.data_bounds(&[b"none"], Bound::Unbounded, Bound::Unbounded), Ok(None)));
    commit(tx);
    let reader = open_reader(&db);
    let bounds = reader.data_bounds(&[b"d"], Bound::Included(b"b"), Bound::Unbounded).expect("bounds").expect("rows");
    let (pair, _) = reader.next_row(bounds, false).expect("step").expect("a row");
    assert_eq!(pair.key, b"b".to_vec());
}

/// An answer of the engine is passed on, a failure with the engine's text.
#[test]
fn answers_of_the_engine_are_passed_on() {
    assert_eq!(engine_result(Ok(7)), Ok(7));
    assert_eq!(
        engine_result::<u8>(Err("disk".to_owned())),
        Err(RedbBackendError::Backend("disk".to_owned()))
    );
    let rows = || vec![KvPair { key: vec![1], value: vec![] }, KvPair { key: vec![2], value: vec![] }];
    let keys = |forward: bool| -> Vec<Vec<u8>> {
        scan_result(Ok(rows()), forward).ok().expect("rows").into_iter().map(|p| p.key).collect()
    };
    assert_eq!(keys(true), vec![vec![1], vec![2]]);
    assert_eq!(keys(false), vec![vec![2], vec![1]]);
    assert!(matches!(
        scan_result(Err("disk".to_owned()), true),
        Err(RedbBackendError::Backend(text)) if text == "disk"
    ));
}

#[test]
fn errors_have_texts_and_none_is_retryable() {
    let errors = [
        RedbStorageError::from(RedbBackendError::LayoutVersionMismatch),
        RedbStorageError::from(RedbBackendError::ReadOnly),
        RedbStorageError::from(RedbBackendError::Backend("disk".to_owned())),
        RedbStorageError::from(FlatError::Corrupt),
        RedbStorageError::from(FlatError::Key(KeyError::RootNotRemovable)),
    ];
    for e in &errors {
        assert!(!e.is_retryable());
        assert!(!e.message().is_empty());
    }
    assert!(errors[2].message().contains("disk"));
    assert_eq!(errors[4].message(), "the root directory cannot be removed");
}

/// Through a reader, a missing directory is a miss even where nothing was ever
/// written.
#[test]
fn a_reader_of_an_untouched_database_removes_nothing() {
    let db = open_database();
    let mut reader = open_reader(&db);
    assert!(matches!(reader.remove_dir(&[b"absent"]), Ok(false)));
    assert_eq!(
        reader.remove_dir(&[]),
        Err(RedbStorageError::from(FlatError::Key(KeyError::RootNotRemovable)))
    );
}

/// A reader looks at the path before it refuses a mutation.
#[test]
fn a_reader_reports_a_bad_path_before_its_refusal() {
    let db = open_database();
    let mut reader = open_reader(&db);
    let bad: &[&[u8]] = &[&[0xFF, 0xFE]];
    let not_utf8 = || RedbStorageError::from(FlatError::Key(KeyError::DirSegmentNotUtf8 { segment: 0 }));
    assert_eq!(reader.set(bad, b"k", b"v"), Err(not_utf8()));
    assert_eq!(reader.delete(bad, b"k"), Err(not_utf8()));
    assert_eq!(reader.clear_range(bad, Bound::Unbounded, Bound::Unbounded), Err(not_utf8()));
    assert_eq!(reader.remove_dir(bad), Err(not_utf8()));
    assert_eq!(reader.set(&[], b"k", b"v"), Err(RedbStorageError::from(RedbBackendError::ReadOnly)));
}

/// The raw bounds of a directory hold behind its prefix, step after step.
#[test]
fn a_cursor_stays_in_its_directory() {
    let db = open_database();
    let mut tx = transaction(&db);
    for key in [b"a", b"b"] {
        tx.set(&[b"d"], key, b"v").expect("set");
    }
    let bounds = tx.data_bounds(&[b"d"], Bound::Unbounded, Bound::Included(b"b")).expect("bounds").expect("rows");
    assert!(bounds.is_held());
    let (_, rest) = tx.next_row(bounds, true).expect("step").expect("a row");
    assert!(rest.is_held());
    let outside = |start, end| DataBounds { prefix: vec![0x15], start, end }.is_held();
    assert!(outside(Bound::Excluded(vec![0x15]), Bound::Excluded(vec![0x16])));
    assert!(!outside(Bound::Included(vec![0x14, 0xFF]), Bound::Excluded(vec![0x16])));
    assert!(!outside(Bound::Included(vec![0x15]), Bound::Included(vec![0x16])));
    assert!(!outside(Bound::Included(vec![0x15]), Bound::Unbounded));
    assert!(!outside(Bound::Unbounded, Bound::Excluded(vec![0x16])));
    // Bounds that name no key give no raw range.
    assert!(matches!(tx.data_bounds(&[b"d"], Bound::Excluded(b"a"), Bound::Included(b"a")), Ok(None)));
}

/// A removal that meets a malformed child row is broken off. Nothing outside of the
/// directory is lost.
#[test]
fn a_broken_off_removal_keeps_what_is_outside() {
    let db = open_database();
    let mut tx = transaction(&db);
    tx.set(&[b"d"], b"k", b"v").expect("set");
    tx.set(&[b"other"], b"k", b"w").expect("set");
    let prefix = tx.data_bounds(&[b"d"], Bound::Unbounded, Bound::Unbounded).expect("bounds").expect("rows").prefix;
    commit(tx);
    put_raw(&db, &child_key(&node_subspace(&prefix), "broken"), b"no prefix");
    let before = dump_raw_rows(&db);

    let mut tx = transaction(&db);
    assert_eq!(tx.remove_dir(&[b"d"]), Err(RedbStorageError::from(FlatError::Corrupt)));
    assert_eq!(tx.get(&[b"other"], b"k").expect("get"), Some(b"w".to_vec()));
    commit(tx);
    let after = dump_raw_rows(&db);
    let node = node_subspace(&prefix);
    for (key, value) in &before {
        if !key.starts_with(&prefix) && !key.starts_with(&node) {
            assert_eq!(after.get(key), Some(value));
        }
    }
    assert!(after.keys().all(|key| before.contains_key(key)));
}

/// A write that is refused keeps the data and every directory.
#[test]
fn a_refused_write_keeps_the_rows() {
    let db = open_database();
    let mut tx = transaction(&db);
    tx.set(&[b"d"], b"k", b"v").expect("set");
    commit(tx);
    let (key, _) = dump_raw_rows(&db).into_iter().find(|(key, _)| key.starts_with(&COUNTERS_BASE)).expect("a counter");
    put_raw(&db, &key, &[1, 2, 3]);
    let before = dump_raw_rows(&db);
    let mut tx = transaction(&db);
    assert_eq!(tx.set(&[b"new"], b"k", b"v"), Err(RedbStorageError::from(FlatError::Corrupt)));
    commit(tx);
    assert_eq!(dump_raw_rows(&db), before);
}
