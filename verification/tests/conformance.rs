//! What every store answers alike: ordering, bounds, reverse scans, range
//! deletes, and directory navigation.

use core::cmp::Ordering;
use core::ops::Bound;

use fasm_storage::btreemap::{BTreeMapStore, BTreeMapTransaction};
use fasm_storage::bytemap::ByteMap;
use fasm_storage::durable::RedbTransaction;
use fasm_storage::indexeddb::revision::Revision;
use fasm_storage::indexeddb::session::IndexedDbTransaction;
use fasm_storage::{ErrorMessage, KvDirNav, KvPair, KvStore, RetryableStorageError, ScopedKvStore};

/// Bound over borrowed key bytes, as `KvStore::range` takes them.
type ConformanceBound<'k> = Bound<&'k [u8]>;

/// The directories the suite writes: root, one segment, two segments, and a
/// disjoint one.
const D0: &[&[u8]] = &[];
const D1: &[&[u8]] = &[b"a"];
const D2: &[&[u8]] = &[b"a", b"b"];
const D3: &[&[u8]] = &[b"c"];

/// Ordering-stress keys, already in lexicographic order: the empty key,
/// prefix-shadowing pairs, and `0xFF`-heavy keys.
const K1: &[u8] = &[1u8];
const K10: &[u8] = &[1u8, 0u8];
const K2: &[u8] = &[2u8];
const KFF: &[u8] = &[0xFFu8];
const KFF0: &[u8] = &[0xFFu8, 0u8];
const KFFFF: &[u8] = &[0xFFu8, 0xFFu8];
const ORDER_KEYS: &[&[u8]] = &[b"", K1, K10, K2, KFF, KFF0, KFFFF];

/// Write `key -> key` for each key in `dir`, so values identify keys.
fn seed<S: KvStore>(store: &mut S, dir: &[&[u8]], keys: &[&[u8]])
where
    S::Error: core::fmt::Debug,
{
    for key in keys {
        store.set(dir, key, key).expect("seed write must succeed");
    }
}

/// Collect a range within `dir` as `(key, value)` pairs.
fn scan<S: KvStore>(
    store: &S,
    dir: &[&[u8]],
    start: ConformanceBound<'_>,
    end: ConformanceBound<'_>,
    reverse: bool,
) -> Vec<(Vec<u8>, Vec<u8>)>
where
    S::Error: core::fmt::Debug,
{
    store
        .range(dir, start, end, reverse)
        .collect()
        .expect("range scan must succeed")
        .into_iter()
        .map(|pair| (pair.key, pair.value))
        .collect()
}

/// Collect just the keys of a forward range within `dir`.
fn keys<S: KvStore>(
    store: &S,
    dir: &[&[u8]],
    start: ConformanceBound<'_>,
    end: ConformanceBound<'_>,
) -> Vec<Vec<u8>>
where
    S::Error: core::fmt::Debug,
{
    scan(store, dir, start, end, false).into_iter().map(|(key, _)| key).collect()
}

fn owned(keys: &[&[u8]]) -> Vec<Vec<u8>> {
    keys.iter().map(|key| key.to_vec()).collect()
}

fn owned_pairs(pairs: &[(&[u8], &[u8])]) -> Vec<(Vec<u8>, Vec<u8>)> {
    pairs.iter().map(|(key, value)| (key.to_vec(), value.to_vec())).collect()
}

/// The immediate child segment names under `dir`, sorted.
fn nav_list<S: KvDirNav>(store: &S, dir: &[&[u8]]) -> Vec<Vec<u8>>
where
    S::Error: core::fmt::Debug,
{
    store.list_dirs(dir).expect("list_dirs must succeed")
}

/// The sorted union of two sorted directory-segment lists.
fn nav_union(a: &[Vec<u8>], b: &[Vec<u8>]) -> Vec<Vec<u8>> {
    let mut out = Vec::with_capacity(a.len() + b.len());
    let (mut i, mut j) = (0usize, 0usize);
    while i < a.len() && j < b.len() {
        match a[i].cmp(&b[j]) {
            Ordering::Less => {
                out.push(a[i].clone());
                i += 1;
            }
            Ordering::Greater => {
                out.push(b[j].clone());
                j += 1;
            }
            Ordering::Equal => {
                out.push(a[i].clone());
                i += 1;
                j += 1;
            }
        }
    }
    out.extend_from_slice(&a[i..]);
    out.extend_from_slice(&b[j..]);
    out
}

/// A transaction of a fresh in-memory store.
fn memory() -> BTreeMapTransaction<'static> {
    let store: &'static BTreeMapStore = Box::leak(Box::new(BTreeMapStore::new()));
    store.transaction()
}

/// A transaction of a fresh durable store.
fn durable() -> RedbTransaction {
    let db: &'static redb::Database = Box::leak(Box::new(
        redb::Database::builder()
            .create_with_backend(redb::backends::InMemoryBackend::new())
            .expect("in-memory database"),
    ));
    RedbTransaction::new(db.begin_write().expect("write transaction"))
}

/// A session over an empty browser snapshot.
fn browser() -> IndexedDbTransaction {
    IndexedDbTransaction::new(Revision::zero(), ByteMap::new())
}

/// A view of a store pinned to a directory.
fn pinned<S: KvStore>(store: S, dir: &[&[u8]]) -> ScopedKvStore<S> {
    ScopedKvStore::new(store, owned(dir))
}

fn set_get_delete_round_trips<S: KvDirNav>(mut store: S)
where
    S::Error: core::fmt::Debug + ErrorMessage,
{
    for dir in &[D0, D1, D2, D3] {
        seed(&mut store, dir, &[b"", b"one", b"two"]);
        for key in [&b""[..], &b"one"[..], &b"two"[..]] {
            assert_eq!(
                KvStore::get(&store, dir, key).expect("get"),
                Some(key.to_vec())
            );
            assert!(
                KvStore::contains_key(&store, dir, key)
                    .expect("exists")
            );
        }
        // Overwrite.
        store
            .set(dir, b"one", b"replaced")
            .expect("overwrite");
        assert_eq!(
            KvStore::get(&store, dir, b"one")
                .expect("get overwritten"),
            Some(b"replaced".to_vec())
        );
        // Delete; deleting an absent key is a no-op.
        KvStore::delete(&mut store, dir, b"two")
            .expect("delete");
        store
            .delete(dir, b"never-was")
            .expect("delete absent is a no-op");
        assert_eq!(
            KvStore::get(&store, dir, b"two")
                .expect("get deleted"),
            None
        );
        assert!(
            !KvStore::contains_key(&store, dir, b"never-was")
                .expect("exists absent")
        );
    }
}

fn scan_of_one_directory_never_yields_another<S: KvDirNav>(mut store: S)
where
    S::Error: core::fmt::Debug + ErrorMessage,
{
    // The same key bytes in three different directories, with
    // directory-identifying values.
    KvStore::set(&mut store, D1, b"k", b"from-a")
        .expect("set in a");
    KvStore::set(&mut store, D2, b"k", b"from-a-b")
        .expect("set in a/b");
    KvStore::set(&mut store, D3, b"k", b"from-c")
        .expect("set in c");
    KvStore::set(&mut store, D1, b"only-in-a", b"x")
        .expect("set a extra");
    KvStore::set(&mut store, D3, b"only-in-c", b"y")
        .expect("set c extra");

    assert_eq!(
        scan(&store, D1, Bound::Unbounded, Bound::Unbounded, false),
        owned_pairs(&[(b"k", b"from-a"), (b"only-in-a", b"x")])
    );
    assert_eq!(
        scan(&store, D2, Bound::Unbounded, Bound::Unbounded, false),
        owned_pairs(&[(b"k", b"from-a-b")])
    );
    assert_eq!(
        scan(&store, D3, Bound::Unbounded, Bound::Unbounded, false),
        owned_pairs(&[(b"k", b"from-c"), (b"only-in-c", b"y")])
    );
    // Nothing was written to the root.
    assert!(
        scan(&store, D0, Bound::Unbounded, Bound::Unbounded, false)
            .is_empty()
    );
}

fn orders_keys_lexicographically_within_each_directory<S: KvDirNav>(mut store: S)
where
    S::Error: core::fmt::Debug + ErrorMessage,
{
    for dir in &[D0, D1, D2] {
        seed(&mut store, dir, ORDER_KEYS);
    }
    let expected = owned(ORDER_KEYS);
    for dir in &[D0, D1, D2] {
        assert_eq!(
            keys(&store, dir, Bound::Unbounded, Bound::Unbounded),
            expected,
            "directory {dir:?}"
        );
    }
}

fn bounds_matrix_selects_exactly_the_bounded_keys<S: KvDirNav>(mut store: S)
where
    S::Error: core::fmt::Debug + ErrorMessage,
{
    seed(&mut store, D1, &[b"a", b"b", b"c", b"d"]);

    let cases: [(ConformanceBound<'_>, ConformanceBound<'_>, &[&[u8]]); 9] = [
        (
            Bound::Unbounded,
            Bound::Unbounded,
            &[b"a", b"b", b"c", b"d"],
        ),
        (Bound::Unbounded, Bound::Included(b"c"), &[b"a", b"b", b"c"]),
        (Bound::Unbounded, Bound::Excluded(b"c"), &[b"a", b"b"]),
        (Bound::Included(b"b"), Bound::Unbounded, &[b"b", b"c", b"d"]),
        (Bound::Excluded(b"b"), Bound::Unbounded, &[b"c", b"d"]),
        (Bound::Included(b"b"), Bound::Included(b"c"), &[b"b", b"c"]),
        (Bound::Included(b"b"), Bound::Excluded(b"c"), &[b"b"]),
        (Bound::Excluded(b"b"), Bound::Included(b"c"), &[b"c"]),
        (Bound::Excluded(b"b"), Bound::Excluded(b"c"), &[]),
    ];
    for (start, end, expected) in cases {
        let got = scan(&store, D1, start, end, false);
        let expected_pairs: Vec<(Vec<u8>, Vec<u8>)> =
            expected.iter().map(|k| (k.to_vec(), k.to_vec())).collect();
        assert_eq!(got, expected_pairs, "start {start:?}, end {end:?}");
    }

    // Inverted bounds select nothing, in either direction; equal
    // excluded bounds are the empty range.
    for reverse in [false, true].into_iter() {
        assert!(
            scan(
                &store,
                D1,
                Bound::Included(b"c"),
                Bound::Included(b"b"),
                reverse
            )
            .is_empty()
        );
        assert!(
            scan(
                &store,
                D1,
                Bound::Excluded(b"c"),
                Bound::Excluded(b"c"),
                reverse
            )
            .is_empty()
        );
    }
}

fn reverse_scan_returns_the_same_set_descending<S: KvDirNav>(mut store: S)
where
    S::Error: core::fmt::Debug + ErrorMessage,
{
    for dir in &[D1, D2] {
        seed(&mut store, dir, ORDER_KEYS);
    }
    for dir in &[D1, D2] {
        let fwd = scan(&store, dir, Bound::Unbounded, Bound::Unbounded, false);
        let rev = scan(&store, dir, Bound::Unbounded, Bound::Unbounded, true);
        assert_eq!(
            rev.into_iter().rev().collect::<Vec<_>>(),
            fwd,
            "whole directory, {dir:?}"
        );
    }
    // Bounded reverse: the same subset, descending.
    let fwd = scan(&store, D1, Bound::Included(b""), Bound::Excluded(K2), false);
    let expected_pairs = owned_pairs(&[(b"", b""), (K1, K1), (K10, K10)]);
    assert_eq!(fwd, expected_pairs);
    let rev = scan(&store, D1, Bound::Included(b""), Bound::Excluded(K2), true);
    assert_eq!(rev, fwd.into_iter().rev().collect::<Vec<_>>());
}

fn scan_sees_overwrites_and_deletes<S: KvDirNav>(mut store: S)
where
    S::Error: core::fmt::Debug + ErrorMessage,
{
    seed(&mut store, D1, &[b"a", b"b", b"c", b"d"]);
    KvStore::set(&mut store, D1, b"b", b"overridden")
        .expect("override");
    KvStore::set(&mut store, D1, b"e", b"new")
        .expect("insert");
    KvStore::delete(&mut store, D1, b"c")
        .expect("delete");

    let fwd = scan(&store, D1, Bound::Unbounded, Bound::Unbounded, false);
    assert_eq!(
        fwd,
        owned_pairs(&[
            (b"a", b"a"),
            (b"b", b"overridden"),
            (b"d", b"d"),
            (b"e", b"new"),
        ])
    );
    // The same merged view, descending.
    let rev = scan(&store, D1, Bound::Unbounded, Bound::Unbounded, true);
    assert_eq!(rev, fwd.into_iter().rev().collect::<Vec<_>>());
}

fn clear_range_bounded_and_reinsert<S: KvDirNav>(mut store: S)
where
    S::Error: core::fmt::Debug + ErrorMessage,
{
    seed(&mut store, D1, &[b"a", b"b", b"c", b"d", b"e"]);

    store
        .clear_range(D1, Bound::Included(b"b"), Bound::Excluded(b"d"))
        .expect("clear b..d");
    assert_eq!(
        keys(&store, D1, Bound::Unbounded, Bound::Unbounded),
        owned(&[b"a", b"d", b"e"])
    );
    // Point reads agree with the scan.
    assert_eq!(
        KvStore::get(&store, D1, b"b").expect("get b"),
        None
    );
    assert_eq!(
        KvStore::get(&store, D1, b"c").expect("get c"),
        None
    );
    assert_eq!(
        KvStore::get(&store, D1, b"d").expect("get d"),
        Some(b"d".to_vec())
    );

    // Re-insert into the just-cleared range.
    KvStore::set(&mut store, D1, b"c", b"again")
        .expect("reinsert");
    assert_eq!(
        keys(&store, D1, Bound::Unbounded, Bound::Unbounded),
        owned(&[b"a", b"c", b"d", b"e"])
    );

    // A clear that matches nothing is a no-op.
    store
        .clear_range(D1, Bound::Included(b"z"), Bound::Excluded(b"zz"))
        .expect("clear nothing");
    assert_eq!(
        keys(&store, D1, Bound::Unbounded, Bound::Unbounded),
        owned(&[b"a", b"c", b"d", b"e"])
    );
}

fn clear_range_excluded_start_included_end<S: KvDirNav>(mut store: S)
where
    S::Error: core::fmt::Debug + ErrorMessage,
{
    seed(&mut store, D1, &[b"a", b"b", b"c", b"d"]);

    store
        .clear_range(D1, Bound::Excluded(b"a"), Bound::Included(b"c"))
        .expect("clear (a, c]");
    // Exactly `a` and `d` survive: the excluded start and
    // the key past the included end are untouched, the keys
    // inside the range (`b`, `c`) are gone.
    assert_eq!(
        keys(&store, D1, Bound::Unbounded, Bound::Unbounded),
        owned(&[b"a", b"d"])
    );
    assert_eq!(
        KvStore::get(&store, D1, b"a").expect("get a"),
        Some(b"a".to_vec())
    );
    assert_eq!(
        KvStore::get(&store, D1, b"c").expect("get c"),
        None
    );
}

fn clear_range_whole_directory_keeps_the_directory<S: KvDirNav>(mut store: S)
where
    S::Error: core::fmt::Debug + ErrorMessage,
{
    seed(&mut store, D2, &[b"x", b"y"]);
    assert!(
        KvDirNav::dir_exists(&store, D2)
            .expect("a/b exists")
    );

    store
        .clear_range(D2, Bound::Unbounded, Bound::Unbounded)
        .expect("clear the whole directory");
    assert!(
        scan(&store, D2, Bound::Unbounded, Bound::Unbounded, false)
            .is_empty()
    );
    // A data-only clear does not remove the directory.
    assert!(
        KvDirNav::dir_exists(&store, D2)
            .expect("a/b still exists")
    );

    // A neighbouring directory is untouched.
    seed(&mut store, D1, &[b"n"]);
    assert_eq!(
        keys(&store, D1, Bound::Unbounded, Bound::Unbounded),
        owned(&[b"n"])
    );
}

fn clear_range_missing_directory_is_a_noop<S: KvDirNav>(mut store: S)
where
    S::Error: core::fmt::Debug + ErrorMessage,
{
    store
        .clear_range(&[b"never"], Bound::Unbounded, Bound::Unbounded)
        .expect("clearing a missing directory is a no-op");
    assert!(
        !KvDirNav::dir_exists(&store, &[b"never"])
            .expect("still absent")
    );
}

fn paged_traversal_over_a_thousand_rows<S: KvDirNav>(mut store: S)
where
    S::Error: core::fmt::Debug + ErrorMessage,
{
    // 1024 keys, zero-padded so lexicographic order is numeric.
    let n: usize = 1024;
    let make = |i: usize| format!("k{:04}", i).into_bytes();
    for i in 0..n {
        let key = make(i);
        store.set(D0, &key, &key).expect("seed must succeed");
    }

    // Page forward: five via next, one hundred via take, the rest
    // via collect.
    let mut stream =
        KvStore::range(&store, D0, Bound::Unbounded, Bound::Unbounded, false);
    let mut got: Vec<Vec<u8>> = Vec::new();
    for _ in 0..5 {
        let (pair, rest) = stream
            .next()
            .expect("next must succeed")
            .expect("rows remain");
        got.push(pair.key);
        stream = rest;
    }
    assert_eq!(got, (0..5).map(make).collect::<Vec<_>>());
    let mid = stream.take(100).expect("take must succeed");
    assert_eq!(
        mid.into_iter().map(|pair| pair.key).collect::<Vec<_>>(),
        (5..105).map(make).collect::<Vec<_>>()
    );
    // `take` consumes its stream: a fresh, bounded scan for the
    // tail.
    let from = make(105);
    let tail = keys(
        &store,
        D0,
        Bound::Included(from.as_slice()),
        Bound::Unbounded,
    );
    assert_eq!(tail, (105..n).map(make).collect::<Vec<_>>());

    // The whole set descending, in one scan.
    let rev = scan(&store, D0, Bound::Unbounded, Bound::Unbounded, true);
    assert_eq!(
        rev.into_iter().map(|(k, _)| k).collect::<Vec<_>>(),
        (0..n)
            .map(make)
            .collect::<Vec<_>>()
            .into_iter()
            .rev()
            .collect::<Vec<_>>()
    );

    // A bounded window selects exactly that window.
    let lo = make(100);
    let hi = make(200);
    let window = keys(&store, D0, Bound::Included(&lo), Bound::Excluded(&hi));
    assert_eq!(window, (100..200).map(make).collect::<Vec<_>>());
}

fn take_limits_what_the_caller_polls<S: KvDirNav>(mut store: S)
where
    S::Error: core::fmt::Debug + ErrorMessage,
{
    seed(&mut store, D1, &[b"a", b"b", b"c", b"d", b"e"]);

    let got = store
        .range(D1, Bound::Unbounded, Bound::Unbounded, false)
        .take(3)
        .expect("take must succeed");
    assert_eq!(
        got.into_iter().map(|pair| pair.key).collect::<Vec<_>>(),
        owned(&[b"a", b"b", b"c"])
    );

    // A take past the end of the range returns what is there.
    let got = store
        .range(D1, Bound::Unbounded, Bound::Unbounded, false)
        .take(100)
        .expect("take past the end must succeed");
    assert_eq!(got.len(), 5);

    // for_each drains a bounded range into the caller's sink.
    let mut sink: Vec<KvPair> = Vec::new();
    store
        .range(D1, Bound::Included(b"b"), Bound::Excluded(b"e"), false)
        .for_each(&mut sink)
        .expect("for_each must succeed");
    let sink: Vec<Vec<u8>> = sink.into_iter().map(|pair| pair.key).collect();
    assert_eq!(sink, owned(&[b"b", b"c", b"d"]));
}

fn unknown_directory_reads_are_empty<S: KvDirNav>(mut store: S)
where
    S::Error: core::fmt::Debug + ErrorMessage,
{
    seed(&mut store, D1, &[b"present"]);

    let missing: &[&[u8]] = &[b"zz", b"deep"];
    assert_eq!(
        KvStore::get(&store, missing, b"present")
            .expect("get"),
        None
    );
    assert!(
        scan(&store, missing, Bound::Unbounded, Bound::Unbounded, false)
            .is_empty()
    );
}

fn nav_lists_immediate_children_sorted<S: KvDirNav>(mut store: S)
where
    S::Error: core::fmt::Debug + ErrorMessage,
{
    // The baseline root listing at suite start: children that
    // exist before this suite runs (a committed top-level
    // directory on a shared live cluster, for instance). The
    // root assertion below is exact against the union with
    // this baseline, so a private engine root (empty
    // baseline) still asserts exact listings.
    let base = nav_list(&store, D0);
    seed(&mut store, D1, &[b"x"]);
    seed(&mut store, D2, &[b"y"]);
    seed(&mut store, D3, &[b"z"]);

    // The root's children are the baseline plus the top-level
    // segments, sorted.
    assert_eq!(
        nav_list(&store, D0),
        nav_union(&base, &owned(&[b"a", b"c"]))
    );
    // `a`'s child is `b`; deeper nesting is not listed here.
    assert_eq!(nav_list(&store, D1), owned(&[b"b"]));
    // Directories with children but no keys of their own still
    // exist and list their children: existence and listing are
    // mapping facts, independent of data keys.
    KvStore::set(&mut store, &[b"n", b"o", b"p"], b"k", b"v")
        .expect("set deep");
    assert!(
        KvDirNav::dir_exists(&store, &[b"n"])
            .expect("n exists")
    );
    assert!(
        KvDirNav::dir_exists(&store, &[b"n", b"o"])
            .expect("n/o exists")
    );
    assert_eq!(nav_list(&store, &[b"n"]), owned(&[b"o"]));
    assert_eq!(nav_list(&store, &[b"n", b"o"]), owned(&[b"p"]));
    // Listing a missing directory is empty, not an error.
    assert!(nav_list(&store, &[b"nope"]).is_empty());
    // Existence under a missing intermediate segment is
    // false: the layer answers `Ok(false)`, not a
    // missing-path error.
    assert!(
        !KvDirNav::dir_exists(&store, &[b"nope", b"x"])
            .expect("deep missing dir_exists")
    );
}

fn nav_remove_dir_is_recursive<S: KvDirNav>(mut store: S)
where
    S::Error: core::fmt::Debug + ErrorMessage,
{
    let base = nav_list(&store, D0);
    seed(&mut store, D1, &[b"top"]);
    seed(&mut store, D2, &[b"mid"]);
    seed(&mut store, &[b"a", b"b", b"x"], &[b"deep"]);
    seed(&mut store, D3, &[b"keep"]);

    // Removing `a` removes `a`, `a/b` and `a/b/x` — data and
    // mapping rows alike.
    assert!(
        KvDirNav::remove_dir(&mut store, D1)
            .expect("remove a")
    );
    assert_eq!(
        KvStore::get(&store, D1, b"top")
            .expect("a gone"),
        None
    );
    assert_eq!(
        KvStore::get(&store, D2, b"mid")
            .expect("a/b gone"),
        None
    );
    assert_eq!(
        KvStore::get(&store, &[b"a", b"b", b"x"], b"deep")
            .expect("a/b/x gone"),
        None
    );
    assert!(
        !KvDirNav::dir_exists(&store, D1)
            .expect("a removed")
    );
    assert!(
        !KvDirNav::dir_exists(&store, D2)
            .expect("a/b removed")
    );
    assert!(nav_list(&store, D0) == nav_union(&base, &owned(&[b"c"])));

    // A sibling directory survives.
    assert_eq!(
        KvStore::get(&store, D3, b"keep")
            .expect("c kept"),
        Some(b"keep".to_vec())
    );

    // Removing a missing directory is `Ok(false)`.
    assert!(
        !KvDirNav::remove_dir(&mut store, D1)
            .expect("remove missing")
    );

    // The root is not removable: the core KeyError answer,
    // wrapped by the backend's error type.
    let err = KvDirNav::remove_dir(&mut store, D0)
        .expect_err("the root must not be removable");
    assert!(
        !RetryableStorageError::is_retryable(&err),
        "a key error is not retryable"
    );
    assert!(
        err.message()
            .contains("the root directory cannot be removed"),
        "expected the RootNotRemovable message, got: {err:?}"
    );
}

fn non_utf8_dir_segment_is_rejected<S: KvDirNav>(mut store: S)
where
    S::Error: core::fmt::Debug + ErrorMessage,
{
    let bad_segment: &[u8] = &[0xFFu8, 0xFEu8];
    let bad: &[&[u8]] = &[bad_segment];

    let err = KvStore::get(&store, bad, b"k")
        .expect_err("must reject");
    assert!(
        !RetryableStorageError::is_retryable(&err),
        "a key error is not retryable"
    );
    assert!(
        err.message().contains("is not valid UTF-8"),
        "expected the DirSegmentNotUtf8 message, got: {err:?}"
    );
    assert!(KvDirNav::dir_exists(&store, bad).is_err());
    assert!(
        KvDirNav::remove_dir(&mut store, bad)
            .is_err_and(|e| e.message().contains("is not valid UTF-8"))
    );
}

#[test]
fn kv_set_get_delete_round_trips() {
    set_get_delete_round_trips(memory());
    set_get_delete_round_trips(durable());
    set_get_delete_round_trips(browser());
    set_get_delete_round_trips(pinned(memory(), &[]));
    set_get_delete_round_trips(pinned(durable(), &[]));
    set_get_delete_round_trips(pinned(memory(), &[b"a", b"b"]));
    set_get_delete_round_trips(pinned(memory(), &[b"x", b"y", b"z"]));
    set_get_delete_round_trips(pinned(durable(), &[b"r1"]));
}

#[test]
fn kv_scan_of_one_directory_never_yields_another() {
    scan_of_one_directory_never_yields_another(memory());
    scan_of_one_directory_never_yields_another(durable());
    scan_of_one_directory_never_yields_another(browser());
    scan_of_one_directory_never_yields_another(pinned(memory(), &[]));
    scan_of_one_directory_never_yields_another(pinned(durable(), &[]));
    scan_of_one_directory_never_yields_another(pinned(memory(), &[b"a", b"b"]));
    scan_of_one_directory_never_yields_another(pinned(memory(), &[b"x", b"y", b"z"]));
    scan_of_one_directory_never_yields_another(pinned(durable(), &[b"r1"]));
}

#[test]
fn kv_orders_keys_lexicographically_within_each_directory() {
    orders_keys_lexicographically_within_each_directory(memory());
    orders_keys_lexicographically_within_each_directory(durable());
    orders_keys_lexicographically_within_each_directory(browser());
    orders_keys_lexicographically_within_each_directory(pinned(memory(), &[]));
    orders_keys_lexicographically_within_each_directory(pinned(durable(), &[]));
    orders_keys_lexicographically_within_each_directory(pinned(memory(), &[b"a", b"b"]));
    orders_keys_lexicographically_within_each_directory(pinned(memory(), &[b"x", b"y", b"z"]));
    orders_keys_lexicographically_within_each_directory(pinned(durable(), &[b"r1"]));
}

#[test]
fn kv_bounds_matrix_selects_exactly_the_bounded_keys() {
    bounds_matrix_selects_exactly_the_bounded_keys(memory());
    bounds_matrix_selects_exactly_the_bounded_keys(durable());
    bounds_matrix_selects_exactly_the_bounded_keys(browser());
    bounds_matrix_selects_exactly_the_bounded_keys(pinned(memory(), &[]));
    bounds_matrix_selects_exactly_the_bounded_keys(pinned(durable(), &[]));
    bounds_matrix_selects_exactly_the_bounded_keys(pinned(memory(), &[b"a", b"b"]));
    bounds_matrix_selects_exactly_the_bounded_keys(pinned(memory(), &[b"x", b"y", b"z"]));
    bounds_matrix_selects_exactly_the_bounded_keys(pinned(durable(), &[b"r1"]));
}

#[test]
fn kv_reverse_scan_returns_the_same_set_descending() {
    reverse_scan_returns_the_same_set_descending(memory());
    reverse_scan_returns_the_same_set_descending(durable());
    reverse_scan_returns_the_same_set_descending(browser());
    reverse_scan_returns_the_same_set_descending(pinned(memory(), &[]));
    reverse_scan_returns_the_same_set_descending(pinned(durable(), &[]));
    reverse_scan_returns_the_same_set_descending(pinned(memory(), &[b"a", b"b"]));
    reverse_scan_returns_the_same_set_descending(pinned(memory(), &[b"x", b"y", b"z"]));
    reverse_scan_returns_the_same_set_descending(pinned(durable(), &[b"r1"]));
}

#[test]
fn kv_scan_sees_overwrites_and_deletes() {
    scan_sees_overwrites_and_deletes(memory());
    scan_sees_overwrites_and_deletes(durable());
    scan_sees_overwrites_and_deletes(browser());
    scan_sees_overwrites_and_deletes(pinned(memory(), &[]));
    scan_sees_overwrites_and_deletes(pinned(durable(), &[]));
    scan_sees_overwrites_and_deletes(pinned(memory(), &[b"a", b"b"]));
    scan_sees_overwrites_and_deletes(pinned(memory(), &[b"x", b"y", b"z"]));
    scan_sees_overwrites_and_deletes(pinned(durable(), &[b"r1"]));
}

#[test]
fn kv_clear_range_bounded_and_reinsert() {
    clear_range_bounded_and_reinsert(memory());
    clear_range_bounded_and_reinsert(durable());
    clear_range_bounded_and_reinsert(browser());
    clear_range_bounded_and_reinsert(pinned(memory(), &[]));
    clear_range_bounded_and_reinsert(pinned(durable(), &[]));
    clear_range_bounded_and_reinsert(pinned(memory(), &[b"a", b"b"]));
    clear_range_bounded_and_reinsert(pinned(memory(), &[b"x", b"y", b"z"]));
    clear_range_bounded_and_reinsert(pinned(durable(), &[b"r1"]));
}

#[test]
fn kv_clear_range_excluded_start_included_end() {
    clear_range_excluded_start_included_end(memory());
    clear_range_excluded_start_included_end(durable());
    clear_range_excluded_start_included_end(browser());
    clear_range_excluded_start_included_end(pinned(memory(), &[]));
    clear_range_excluded_start_included_end(pinned(durable(), &[]));
    clear_range_excluded_start_included_end(pinned(memory(), &[b"a", b"b"]));
    clear_range_excluded_start_included_end(pinned(memory(), &[b"x", b"y", b"z"]));
    clear_range_excluded_start_included_end(pinned(durable(), &[b"r1"]));
}

#[test]
fn kv_clear_range_whole_directory_keeps_the_directory() {
    clear_range_whole_directory_keeps_the_directory(memory());
    clear_range_whole_directory_keeps_the_directory(durable());
    clear_range_whole_directory_keeps_the_directory(browser());
    clear_range_whole_directory_keeps_the_directory(pinned(memory(), &[]));
    clear_range_whole_directory_keeps_the_directory(pinned(durable(), &[]));
    clear_range_whole_directory_keeps_the_directory(pinned(memory(), &[b"a", b"b"]));
    clear_range_whole_directory_keeps_the_directory(pinned(memory(), &[b"x", b"y", b"z"]));
    clear_range_whole_directory_keeps_the_directory(pinned(durable(), &[b"r1"]));
}

#[test]
fn kv_clear_range_missing_directory_is_a_noop() {
    clear_range_missing_directory_is_a_noop(memory());
    clear_range_missing_directory_is_a_noop(durable());
    clear_range_missing_directory_is_a_noop(browser());
    clear_range_missing_directory_is_a_noop(pinned(memory(), &[]));
    clear_range_missing_directory_is_a_noop(pinned(durable(), &[]));
    clear_range_missing_directory_is_a_noop(pinned(memory(), &[b"a", b"b"]));
    clear_range_missing_directory_is_a_noop(pinned(memory(), &[b"x", b"y", b"z"]));
    clear_range_missing_directory_is_a_noop(pinned(durable(), &[b"r1"]));
}

#[test]
fn kv_paged_traversal_over_a_thousand_rows() {
    paged_traversal_over_a_thousand_rows(memory());
    paged_traversal_over_a_thousand_rows(durable());
    paged_traversal_over_a_thousand_rows(browser());
    paged_traversal_over_a_thousand_rows(pinned(memory(), &[]));
    paged_traversal_over_a_thousand_rows(pinned(durable(), &[]));
    paged_traversal_over_a_thousand_rows(pinned(memory(), &[b"a", b"b"]));
    paged_traversal_over_a_thousand_rows(pinned(memory(), &[b"x", b"y", b"z"]));
    paged_traversal_over_a_thousand_rows(pinned(durable(), &[b"r1"]));
}

#[test]
fn kv_take_limits_what_the_caller_polls() {
    take_limits_what_the_caller_polls(memory());
    take_limits_what_the_caller_polls(durable());
    take_limits_what_the_caller_polls(browser());
    take_limits_what_the_caller_polls(pinned(memory(), &[]));
    take_limits_what_the_caller_polls(pinned(durable(), &[]));
    take_limits_what_the_caller_polls(pinned(memory(), &[b"a", b"b"]));
    take_limits_what_the_caller_polls(pinned(memory(), &[b"x", b"y", b"z"]));
    take_limits_what_the_caller_polls(pinned(durable(), &[b"r1"]));
}

#[test]
fn kv_unknown_directory_reads_are_empty() {
    unknown_directory_reads_are_empty(memory());
    unknown_directory_reads_are_empty(durable());
    unknown_directory_reads_are_empty(browser());
    unknown_directory_reads_are_empty(pinned(memory(), &[]));
    unknown_directory_reads_are_empty(pinned(durable(), &[]));
    unknown_directory_reads_are_empty(pinned(memory(), &[b"a", b"b"]));
    unknown_directory_reads_are_empty(pinned(memory(), &[b"x", b"y", b"z"]));
    unknown_directory_reads_are_empty(pinned(durable(), &[b"r1"]));
}

#[test]
fn kv_nav_lists_immediate_children_sorted() {
    nav_lists_immediate_children_sorted(memory());
    nav_lists_immediate_children_sorted(durable());
    nav_lists_immediate_children_sorted(browser());
    nav_lists_immediate_children_sorted(pinned(memory(), &[]));
    nav_lists_immediate_children_sorted(pinned(durable(), &[]));
}

#[test]
fn kv_nav_remove_dir_is_recursive() {
    nav_remove_dir_is_recursive(memory());
    nav_remove_dir_is_recursive(durable());
    nav_remove_dir_is_recursive(browser());
    nav_remove_dir_is_recursive(pinned(memory(), &[]));
    nav_remove_dir_is_recursive(pinned(durable(), &[]));
}

#[test]
fn kv_non_utf8_dir_segment_is_rejected() {
    non_utf8_dir_segment_is_rejected(memory());
    non_utf8_dir_segment_is_rejected(durable());
    non_utf8_dir_segment_is_rejected(browser());
    non_utf8_dir_segment_is_rejected(pinned(memory(), &[]));
    non_utf8_dir_segment_is_rejected(pinned(durable(), &[]));
}
