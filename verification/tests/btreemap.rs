//! The in-memory store.

use core::ops::Bound;
use std::collections::BTreeMap;

use fasm_storage::btreemap::{
    key_in_range, stream_from_pairs, BTreeMapError, BTreeMapStore, BTreeMapTransaction, BufReadView, BufViewError, WriteSet,
};
use fasm_storage::bytemap::ByteMap;
use fasm_storage::flatdir::layout::{child_key, ROOT_NODE};
use fasm_storage::flatdir::ops::validate;
use fasm_storage::flatdir::{parse_version, ROOT_PATH_SEGMENT, VERSION_KEY};
use fasm_storage::{
    bound_as_slice, Commit, ErrorMessage, FlatError, KeyError, KvDirNav, KvPair, KvStore, RetryableStorageError,
    ScopedKvStore,
};

/// A fresh empty store (the committed base plus its opener).
fn open_store() -> BTreeMapStore {
    BTreeMapStore::new()
}

/// A fresh write transaction over a fresh empty store.
fn open_transaction() -> BTreeMapTransaction<'static> {
    let store: &'static BTreeMapStore = Box::leak(Box::new(open_store()));
    store.transaction()
}

/// Collect a bounded range scan within `dir` as `(key, value)` pairs.
fn scan_bounded<KV: KvStore>(
    store: &KV,
    dir: &[&[u8]],
    bounds: &(Bound<Vec<u8>>, Bound<Vec<u8>>),
    reverse: bool,
) -> Vec<(Vec<u8>, Vec<u8>)>
where
    KV::Error: core::fmt::Debug,
{
    store
        .range(dir, bound_as_slice(&bounds.0), bound_as_slice(&bounds.1), reverse)
        .collect()
        .expect("scan must succeed")
        .into_iter()
        .map(|pair| (pair.key, pair.value))
        .collect()
}

/// Whether the committed rows form a layout without malformed rows.
fn check_layout(store: &BTreeMapStore) -> Result<(usize, usize), FlatError<BufViewError>> {
    let none: ByteMap<Option<Vec<u8>>> = ByteMap::new();
    validate(&BufReadView::new(store.raw(), &none))
}

/// A deterministic generator of operations.
struct Lcg(u64);

impl Lcg {
    /// A value below `n`.
    fn below(&mut self, n: u64) -> u64 {
        self.0 = self.0.wrapping_mul(6364136223846793005).wrapping_add(1442695040888963407);
        (self.0 >> 33) % n
    }

    /// A key over a tiny alphabet, so that keys meet and prefix each other.
    fn key(&mut self) -> Vec<u8> {
        let len = self.below(5);
        (0..len).map(|_| [0xFFu8, 0xFF, 0x00, 0x00, 0x01, 0xFE][self.below(6) as usize]).collect()
    }

    fn value(&mut self) -> Vec<u8> {
        let len = self.below(4);
        (0..len).map(|_| self.below(256) as u8).collect()
    }

    fn dir(&mut self) -> Vec<Vec<u8>> {
        let len = self.below(3);
        (0..len).map(|_| vec![b'a' + self.below(2) as u8]).collect()
    }

    fn bound(&mut self) -> Bound<Vec<u8>> {
        match self.below(3) {
            0 => Bound::Unbounded,
            1 => Bound::Included(self.key()),
            _ => Bound::Excluded(self.key()),
        }
    }
}

fn dir_slice(dir: &[Vec<u8>]) -> Vec<&[u8]> {
    dir.iter().map(|s| s.as_slice()).collect()
}

#[test]
fn btreemap_store_reports_committed_rows_and_raw_keys() {
    let mut store = open_store();
    assert!(store.is_empty());
    assert_eq!(store.len(), 0);

    let mut tx = store.transaction();
    tx.set(&[b"a"], b"k", b"v").expect("set k");
    // Uncommitted: the base still reports nothing.
    assert!(store.is_empty());
    assert_eq!(store.len(), 0);

    let writes = tx.commit().expect("commit");
    store.apply(writes);
    // One data key in one directory materialises the lazily written
    // layout: version row, anchor child + layer rows, the directory
    // child + layer rows, HCA counter + two recent rows, and the data
    // row.
    assert!(!store.is_empty());
    assert_eq!(store.len(), 9);
    let rows = raw_map(&store);
    assert_eq!(
        parse_version(
            rows.get(&VERSION_KEY[..])
                .expect("version row")
                .as_slice()
        ),
        Some((1, 0, 0))
    );
    // The anchor's child row is the reserved first element under the
    // root node.
    let anchor_child =
        child_key(&ROOT_NODE, ROOT_PATH_SEGMENT);
    assert!(rows.contains_key(&anchor_child), "anchor child row missing");
    // The committed raw map holds exactly one data value.
    let keys = store.keys();
    let data_rows: Vec<&Vec<u8>> = keys
        .iter()
        .filter(|k| (0x0c..=0x1c).contains(&k.first().copied().unwrap_or(0xFF)))
        .collect();
    assert_eq!(data_rows.len(), 1);
    assert_eq!(
        store.get_committed(data_rows[0].as_slice()),
        Some(b"v".to_vec())
    );
    // The layout is self-consistent.
    check_layout(&store).expect("the layout must validate");

    // A second directory with one data row adds exactly four rows:
    // the child row, the layer row, the data row, and the HCA recent
    // row for the new allocation.
    let mut tx2 = store.transaction();
    tx2.set(&[b"b"], b"k2", b"v2").expect("set b");
    let writes = tx2.commit().expect("commit b");
    store.apply(writes);
    assert_eq!(store.len(), 13);

    store.clear();
    assert!(store.is_empty());
}

/// The reference operation sequence for the deterministic-layout test: a
/// mixed write/delete/clear pattern across the root and two nested
/// directories.
fn run_reference_ops(tx: &mut BTreeMapTransaction<'_>) {
    tx.set(&[], b"k", b"v1").expect("set k");
    tx.set(&[b"a"], b"x", b"y").expect("set x");
    tx.set(&[b"a", b"b"], b"m", b"n").expect("set m");
    tx.delete(&[], b"k").expect("delete k");
    tx.set(&[b"a"], b"x", b"y2").expect("set x2");
    tx.clear_range(&[b"a"], Bound::Unbounded, Bound::Unbounded)
        .expect("clear a");
}

fn raw_map(store: &BTreeMapStore) -> BTreeMap<Vec<u8>, Vec<u8>> {
    store
        .keys()
        .into_iter()
        .map(|k| (k.clone(), store.get_committed(&k).expect("committed row")))
        .collect()
}

#[test]
fn tests_the_version_entry_is_1_0_0_after_any_write() {
    let mut store = open_store();
    let mut tx = store.transaction();
    tx.set(&[b"swap"], b"k", b"v").expect("set");
    let writes = tx.commit().expect("commit");
    store.apply(writes);
    let rows = raw_map(&store);
    assert_eq!(
        parse_version(
            rows.get(&VERSION_KEY[..])
                .expect("version row")
                .as_slice()
        ),
        Some((1, 0, 0))
    );
}

#[test]
fn tests_the_same_operations_resolve_the_same_paths_and_validate() {
    let mut s1 = open_store();
    let mut s2 = open_store();
    let mut t1 = s1.transaction();
    let mut t2 = s2.transaction();
    run_reference_ops(&mut t1);
    run_reference_ops(&mut t2);
    let writes = t1.commit().expect("commit 1");
    s1.apply(writes);
    let writes = t2.commit().expect("commit 2");
    s2.apply(writes);

    // The HCA samples its candidate within the window, so the two stores' raw
    // layouts are not byte-identical. What is guaranteed: the same
    // visible data, and a self-consistent layout on both.
    for s in [&s1, &s2] {
        let rows = raw_map(s);
        // The reference ops' end state is a deterministic 12-row
        // layout: the version row, the HCA counter row, one child
        // row and one layer row per directory (the anchor
        // segment, `a`, and `a.b`), one HCA recent row per
        // allocation (three in total), and the one surviving data
        // row.
        assert_eq!(rows.len(), 12, "unexpected raw rows: {rows:?}");
        check_layout(s).expect("the layout must validate");
    }
    let r1 = s1.transaction();
    let r2 = s2.transaction();
    // The reference ops deleted the root's only key.
    assert_eq!(r1.get(&[], b"k").unwrap(), None);
    assert_eq!(r2.get(&[], b"k").unwrap(), None);
    // And cleared directory `[a]`'s keys; `[a, b]` survives with `m`.
    assert_eq!(r1.get(&[b"a"], b"x").unwrap(), None);
    assert_eq!(
        r1.get(&[b"a", b"b"], b"m").unwrap(),
        Some(b"n".to_vec())
    );
    assert_eq!(r2.get(&[b"a"], b"x").unwrap(), None);
    assert_eq!(
        r2.get(&[b"a", b"b"], b"m").unwrap(),
        Some(b"n".to_vec())
    );
}

/// A transaction sees its own uncommitted writes; the committed base and any
/// other transaction do not.
#[test]
fn a_transaction_sees_its_own_uncommitted_writes() {
    let mut store = open_store();
    let mut tx = store.transaction();

    tx.set(&[b"a"], b"k", b"n").expect("set k");
    assert_eq!(
        tx.get(&[b"a"], b"k").expect("get k"),
        Some(b"n".to_vec())
    );
    // Not visible in the committed base.
    assert_eq!(store.len(), 0);

    // A fresh transaction sees only the committed base.
    let other = store.transaction();
    assert_eq!(other.get(&[b"a"], b"k").expect("get other"), None);
}

/// A buffered delete shadows the committed value until commit, and the commit
/// is what actually removes the key from the base.
#[test]
fn a_transaction_delete_shadows_the_committed_value() {
    let mut store = open_store();
    {
        let mut seed = store.transaction();
        seed.set(&[b"a"], b"k", b"old").expect("seed");
        let writes = seed.commit().expect("seed commit");
        store.apply(writes);
    }

    let mut tx = store.transaction();
    tx.delete(&[b"a"], b"k").expect("delete");
    assert_eq!(tx.get(&[b"a"], b"k").expect("get"), None);
    assert!(!tx.contains_key(&[b"a"], b"k").expect("exists"));
    // The committed value is untouched until the commit applies.
    assert_eq!(store.len(), 9);

    let writes = tx.commit().expect("commit");
    store.apply(writes);
    // The data row is gone; the layout rows and the (empty) directory
    // remain.
    assert_eq!(store.len(), 8);
}

/// The rollback FASM depends on: a dropped transaction — failed state
/// transition or not — leaves the base exactly as it was.
#[test]
fn tests_an_uncommitted_transaction_rolls_back_on_drop() {
    let mut store = open_store();
    {
        let mut seed = store.transaction();
        seed.set(&[b"a"], b"k", b"kept").expect("seed");
        let writes = seed.commit().expect("seed commit");
        store.apply(writes);
    }

    {
        let mut ephemeral = store.transaction();
        ephemeral.set(&[b"a"], b"k", b"gone").expect("set");
        ephemeral.set(&[b"b"], b"k2", b"new").expect("set b");
        ephemeral.remove_dir(&[b"a"]).expect("remove a");
        // Dropping the transaction without a commit discards all of it.
    }

    assert_eq!(store.len(), 9, "the committed base must be untouched");
    let check = store.transaction();
    assert_eq!(
        check.get(&[b"a"], b"k").expect("get"),
        Some(b"kept".to_vec())
    );
    assert_eq!(check.get(&[b"b"], b"k2").expect("get"), None);
}

/// `range` merges the committed map and the buffered writes: a buffered value
/// overrides the base, a tombstone suppresses it, and new keys appear — in
/// both directions.
#[test]
fn a_range_scan_merges_buffered_writes_over_the_committed_map() {
    let mut store = open_store();
    {
        let mut seed = store.transaction();
        for key in [&b"a"[..], &b"b"[..], &b"c"[..], &b"d"[..]] {
            seed.set(&[], key, b"committed").expect("seed");
        }
        let writes = seed.commit().expect("seed commit");
        store.apply(writes);
    }

    let mut tx = store.transaction();
    tx.set(&[], b"b", b"overridden").expect("override b");
    tx.set(&[], b"e", b"new").expect("add e");
    tx.delete(&[], b"c").expect("delete c");

    let unbounded = (Bound::Unbounded, Bound::Unbounded);
    let pairs = scan_bounded(&tx, &[], &unbounded, false);
    assert_eq!(
        pairs,
        vec![
            (b"a".to_vec(), b"committed".to_vec()),
            (b"b".to_vec(), b"overridden".to_vec()),
            (b"d".to_vec(), b"committed".to_vec()),
            (b"e".to_vec(), b"new".to_vec()),
        ]
    );

    // The same set, descending.
    let reversed = scan_bounded(&tx, &[], &unbounded, true);
    assert_eq!(reversed.into_iter().rev().collect::<Vec<_>>(), pairs);
}

#[test]
fn btreemap_errors_are_not_retryable() {
    let key_err = KeyError::RootNotRemovable;
    for e in &[
        BTreeMapError::from(FlatError::Foreign),
        BTreeMapError::from(FlatError::Corrupt),
        BTreeMapError::from(FlatError::Key(key_err)),
        BTreeMapError::from(FlatError::Engine(BufViewError)),
    ] {
        assert!(!e.is_retryable());
    }
}

#[test]
fn debug_output_redacts_stored_keys_and_values() {
    let mut store = open_store();
    let mut tx = store.transaction();
    tx.set(&[b"a"], b"secret-key", b"secret-value")
        .expect("set");
    // One set in one directory lazily initialises the layout (version
    // row, anchor + directory child rows, anchor + directory layer
    // rows, HCA counter + two recent rows) and writes the data row:
    // nine buffered raw rows.
    assert_eq!(tx.describe(), "BTreeMapTransaction { pending: 9 }");
    // Nothing is committed yet, and the base count never shows the bytes.
    assert_eq!(store.describe(), "BTreeMapStore { rows: 0 }");
    let writes = tx.commit().expect("commit");
    store.apply(writes);
    assert_eq!(store.describe(), "BTreeMapStore { rows: 9 }");

    let scoped = ScopedKvStore::new(store.transaction(), vec![b"a".to_vec()]);
    assert_eq!(scoped.describe(), "ScopedKvStore { dir_segments: 1 }");
}

type Model = BTreeMap<(Vec<Vec<u8>>, Vec<u8>), Vec<u8>>;

/// The merged view agrees with a map from directory and key to value, operation
/// for operation.
#[test]
fn transactions_track_a_model() {
    let mut rng = Lcg(7);
    for _ in 0..40 {
        let mut tx = open_transaction();
        let mut model: Model = Model::new();
        for _ in 0..24 {
            let dir = rng.dir();
            let key = rng.key();
            match rng.below(7) {
                0..=3 => {
                    let value = rng.value();
                    tx.set(&dir_slice(&dir), &key, &value).expect("set must succeed");
                    model.insert((dir.clone(), key.clone()), value);
                }
                4..=5 => {
                    tx.delete(&dir_slice(&dir), &key).expect("delete must succeed");
                    model.remove(&(dir.clone(), key.clone()));
                }
                _ => {
                    let (s, e) = (rng.bound(), rng.bound());
                    tx.clear_range(&dir_slice(&dir), bound_as_slice(&s), bound_as_slice(&e))
                        .expect("clear_range must succeed");
                    model.retain(|(d, k), _| !(d == &dir && key_in_range(k, bound_as_slice(&s), bound_as_slice(&e))));
                }
            }
            let want = model.get(&(dir.clone(), key.clone())).cloned();
            assert_eq!(tx.get(&dir_slice(&dir), &key).expect("get"), want);
            assert_eq!(tx.contains_key(&dir_slice(&dir), &key).expect("contains_key"), want.is_some());
        }
        let dir = rng.dir();
        for bounds in [(Bound::Unbounded, Bound::Unbounded), (rng.bound(), rng.bound())] {
            let mut want: Vec<(Vec<u8>, Vec<u8>)> = model
                .iter()
                .filter(|((d, k), _)| {
                    d == &dir && key_in_range(k, bound_as_slice(&bounds.0), bound_as_slice(&bounds.1))
                })
                .map(|((_, k), v)| (k.clone(), v.clone()))
                .collect();
            assert_eq!(scan_bounded(&tx, &dir_slice(&dir), &bounds, false), want);
            want.reverse();
            assert_eq!(scan_bounded(&tx, &dir_slice(&dir), &bounds, true), want);
        }
    }
}

#[test]
fn key_in_range_honours_both_bounds() {
    assert!(key_in_range(b"b", Bound::Included(b"b"), Bound::Unbounded));
    assert!(!key_in_range(b"b", Bound::Excluded(b"b"), Bound::Unbounded));
    assert!(key_in_range(b"b", Bound::Unbounded, Bound::Included(b"b")));
    assert!(!key_in_range(b"b", Bound::Unbounded, Bound::Excluded(b"b")));
}

#[test]
fn error_texts_name_the_cause() {
    let text = |e: FlatError<BufViewError>| BTreeMapError::from(e).message();
    assert_eq!(
        text(FlatError::Key(KeyError::RootNotRemovable)),
        "the root directory cannot be removed"
    );
    assert_ne!(text(FlatError::Foreign), text(FlatError::Corrupt));
    assert_eq!(text(FlatError::Engine(BufViewError)), BufViewError.message());
}

#[test]
fn commits_apply_in_the_order_they_come() {
    let mut store = open_store();
    let mut seed = store.transaction();
    seed.set(&[], b"k", b"0").expect("seed");
    let writes = seed.commit().expect("commit");
    store.apply(writes);

    let mut first = store.transaction();
    let mut second = store.transaction();
    first.set(&[], b"k", b"1").expect("first");
    first.set(&[], b"only-first", b"1").expect("first");
    second.set(&[], b"k", b"2").expect("second");
    assert_eq!(first.pending_len(), 2);
    let w1 = first.commit().expect("commit first");
    let w2 = second.commit().expect("commit second");
    assert_eq!((w1.len(), w2.len()), (2, 1));
    store.apply(w1);
    store.apply(w2);
    let check = store.transaction();
    assert_eq!(check.get(&[], b"k").expect("get"), Some(b"2".to_vec()));
    assert_eq!(check.get(&[], b"only-first").expect("get"), Some(b"1".to_vec()));
}

#[test]
fn a_store_opens_over_given_rows() {
    let mut rows: ByteMap<Vec<u8>> = ByteMap::new();
    rows.insert(b"stray", b"row".to_vec());
    let store = BTreeMapStore::from_map(rows);
    assert_eq!(store.keys(), vec![b"stray".to_vec()]);
    assert_eq!(store.get_committed(b"stray"), Some(b"row".to_vec()));
    assert_eq!(store.get_committed(b"other"), None);
    assert!(BTreeMapStore::default().is_empty());
}

#[test]
fn a_stream_of_pairs_follows_the_asked_direction() {
    let pairs = || vec![
        KvPair { key: vec![1], value: vec![] },
        KvPair { key: vec![2], value: vec![] },
    ];
    let keys = |reverse: bool| -> Vec<Vec<u8>> {
        stream_from_pairs(pairs(), reverse).collect().expect("collect").into_iter().map(|p| p.key).collect()
    };
    assert_eq!(keys(false), vec![vec![1], vec![2]]);
    assert_eq!(keys(true), vec![vec![2], vec![1]]);
}

#[test]
fn a_foreign_base_refuses_every_operation() {
    let mut rows: ByteMap<Vec<u8>> = ByteMap::new();
    rows.insert(&VERSION_KEY, vec![2, 0, 0, 0, 0, 0, 0, 0, 0, 0, 0, 0]);
    let store = BTreeMapStore::from_map(rows);
    let mut tx = store.transaction();
    assert!(matches!(tx.get(&[], b"k"), Err(BTreeMapError(FlatError::Foreign))));
    assert!(matches!(tx.set(&[], b"k", b"v"), Err(BTreeMapError(FlatError::Foreign))));
    assert!(matches!(tx.list_dirs(&[]), Err(BTreeMapError(FlatError::Foreign))));
    assert!(tx.range(&[], Bound::Unbounded, Bound::Unbounded, false).collect().is_err());
    assert_eq!(tx.pending_len(), 0);
}

/// A raw key is pending only where an operation wrote or deleted it.
#[test]
fn pending_counts_the_keys_that_were_touched() {
    let mut store = open_store();
    let mut tx = store.transaction();
    tx.set(&[b"d"], b"a", b"1").expect("set");
    assert_eq!(tx.pending_len(), 9);
    tx.set(&[b"d"], b"b", b"2").expect("set");
    assert_eq!(tx.pending_len(), 10);
    let writes = tx.commit().expect("commit");
    store.apply(writes);

    let mut tx = store.transaction();
    tx.delete(&[b"absent"], b"k").expect("delete");
    tx.clear_range(&[b"d"], Bound::Included(b"x"), Bound::Unbounded).expect("clear");
    assert!(!tx.remove_dir(&[b"absent"]).expect("remove"));
    assert_eq!(tx.pending_len(), 0);
    tx.set(&[b"d"], b"a", b"1").expect("set");
    tx.delete(&[b"d"], b"c").expect("delete");
    assert_eq!(tx.pending_len(), 2);
    tx.clear_range(&[b"d"], Bound::Unbounded, Bound::Unbounded).expect("clear");
    assert_eq!(tx.pending_len(), 3);
    let mut tx = store.transaction();
    assert!(tx.remove_dir(&[b"d"]).expect("remove"));
    assert_eq!(tx.pending_len(), 4);
}

/// A transaction whose writes were set aside goes on where it was.
#[test]
fn a_transaction_is_taken_up_again() {
    let mut store = open_store();
    let mut tx = store.transaction();
    tx.set(&[b"d"], b"a", b"1").expect("set");
    let writes = tx.commit().expect("writes");
    assert_eq!(writes.len(), 9);
    let mut tx = store.resume(writes);
    assert_eq!(tx.pending_len(), 9);
    assert_eq!(tx.get(&[b"d"], b"a").expect("get"), Some(b"1".to_vec()));
    tx.delete(&[b"d"], b"a").expect("delete");
    let writes = tx.commit().expect("writes");
    assert_eq!(store.transaction().get(&[b"d"], b"a").expect("get"), None);
    store.apply(writes);
    assert!(store.transaction().dir_exists(&[b"d"]).expect("exists"));
    assert_eq!(WriteSet::default().len(), 0);
}
