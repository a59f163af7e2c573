//! The directory engine.

use core::ops::Bound;

use fasm_storage::btreemap::{BufReadView, BufViewError, BufWriteView};
use fasm_storage::bytemap::ByteMap;
use fasm_storage::flatdir::layout::{LAYOUT_VERSION, ROOT_NODE, VERSION_KEY};
use fasm_storage::flatdir::ops::validate;
use fasm_storage::flatengine::{map_bounds, raw_range_empty};
use fasm_storage::{FlatEngine, FlatError, KeyError, RawKv};

/// A raw view over an empty base, with its writes in a buffer.
fn mem() -> BufWriteView<'static> {
    let base: &'static ByteMap<Vec<u8>> = Box::leak(Box::new(ByteMap::new()));
    BufWriteView::new(base, ByteMap::new())
}

fn raw_keys(e: &FlatEngine<BufWriteView<'static>>) -> Vec<Vec<u8>> {
    e.raw()
        .scan(Bound::Unbounded, Bound::Unbounded, true)
        .unwrap()
        .into_iter()
        .map(|pair| pair.key)
        .collect()
}

fn engine() -> FlatEngine<BufWriteView<'static>> {
    FlatEngine::new(mem())
}

fn ok<T>(r: Result<T, FlatError<BufViewError>>) -> T {
    r.unwrap()
}

// -- fresh stores ------------------------------------------------------

#[test]
fn fresh_reads_return_empty_and_first_write_initialises() {
    let mut e = engine();
    assert_eq!(ok(e.prefix_of(&[])), None);
    assert_eq!(ok(e.get(&[], b"k")), None);
    assert!(ok(e.scan(&[], Bound::Unbounded, Bound::Unbounded, true)).is_empty());
    assert!(ok(e.list_dirs(&[])).is_empty());
    assert!(!ok(e.dir_exists(&[])));
    // Removing from a fresh store is a miss, not an error.
    assert!(!ok(e.remove_dir(&[b"a"])));
    // The first write initialises the store lazily (version row,
    // anchor node).
    ok(e.set(&[], b"k", b"v"));
    assert!(ok(e.dir_exists(&[])));
    assert_eq!(ok(e.get(&[], b"k")), Some(b"v".to_vec()));
    // The version row is the layout's 12-byte 1.0.0.
    let version = e.raw().get(&VERSION_KEY).unwrap();
    assert_eq!(version, Some(LAYOUT_VERSION.to_vec()));
}

/// A first write in a one-segment directory produces exactly nine
/// raw rows: the version row, the anchor node's child and layer
/// rows, the directory node's child and layer rows, the HCA
/// counter row, two HCA recent rows, and the data row. The root
/// node carries no layer row.
#[test]
fn a_first_set_produces_exactly_nine_raw_rows() {
    let mut e = engine();
    ok(e.set(&[b"a"], b"k", b"v"));
    assert_eq!(raw_keys(&e).len(), 9, "unexpected raw rows: {:?}", raw_keys(&e));
}

// -- foreign stores ------------------------------------------------------

#[test]
fn reads_on_a_foreign_store_fail_closed() {
    // A version row this layout does not read (major = 2): every
    // operation fails with `Foreign` rather than answering over
    // someone else's data.
    let mut e = engine();
    let mut v = [0u8; 12];
    v[0..4].copy_from_slice(&2u32.to_le_bytes());
    e.raw_mut()
        .insert(&VERSION_KEY, &v)
        .unwrap();
    assert_eq!(e.prefix_of(&[]), Err(FlatError::Foreign));
    assert_eq!(e.get(&[], b"k"), Err(FlatError::Foreign));
    assert!(matches!(
        e.scan(&[], Bound::Unbounded, Bound::Unbounded, true),
        Err(FlatError::Foreign)
    ));
    assert!(matches!(
        e.data_bounds(&[], Bound::Unbounded, Bound::Unbounded),
        Err(FlatError::Foreign)
    ));
    assert_eq!(e.dir_exists(&[]), Err(FlatError::Foreign));
    assert_eq!(e.list_dirs(&[]), Err(FlatError::Foreign));
    assert_eq!(e.set(&[], b"k", b"v"), Err(FlatError::Foreign));
    assert_eq!(e.remove_dir(&[b"a"]), Err(FlatError::Foreign));
}

#[test]
fn a_malformed_version_row_fails_closed() {
    // A short version value is not a version: fail closed.
    let mut e = engine();
    e.raw_mut()
        .insert(&VERSION_KEY, &[1, 0])
        .unwrap();
    assert_eq!(e.dir_exists(&[]), Err(FlatError::Foreign));
}

#[test]
fn a_corrupt_node_value_is_corrupt_not_a_panic() {
    // A healthy store whose anchor child row's value is then flipped
    // to a non-packing byte string: the node walk reports `Corrupt`
    // rather than panicking.
    let mut e = engine();
    e.set(&[b"dir"], b"k", b"v").unwrap();
    // The anchor child row sits under the root node and is the only
    // row there tagged with INT(0) (0x14): the HCA and version rows
    // are tagged 0x01 (BYTES) and sort before it.
    let mut child_tag = ROOT_NODE.to_vec();
    child_tag.push(0x14);
    let row_key = raw_keys(&e)
        .into_iter()
        .find(|k| k.starts_with(&child_tag))
        .expect("the anchor child row");
    e.raw_mut().insert(&row_key, &[0x99, 0x00]).unwrap();
    assert_eq!(e.get(&[b"dir"], b"k"), Err(FlatError::Corrupt));
    assert!(matches!(
        e.scan(&[b"dir"], Bound::Unbounded, Bound::Unbounded, true),
        Err(FlatError::Corrupt)
    ));
    assert_eq!(e.remove_dir(&[b"dir"]), Err(FlatError::Corrupt));
}

// -- allocation ---------------------------------------------------------

#[test]
fn allocation_is_recursive_and_stable() {
    let mut e = engine();
    let p = ok(e.allocate_dir(&[b"a", b"b"]));
    // Re-resolving finds the same prefix (no new allocation).
    assert_eq!(ok(e.prefix_of(&[b"a", b"b"])), Some(p.clone()));
    // Siblings get different prefixes; the ancestor resolves too.
    let q = ok(e.allocate_dir(&[b"a", b"c"]));
    assert_ne!(p, q);
    assert!(ok(e.prefix_of(&[b"a"])).is_some());
    // Every allocated prefix starts in the packed-i64 band
    // (0x0c..=0x1c): never the meta (0xFE) or reserved (0xFF) region.
    let dirs: [[&[u8]; 2]; 2] = [[b"a" as &[u8], b"b"], [b"a" as &[u8], b"c"]];
    for dir in dirs {
        let p = ok(e.prefix_of(&dir)).unwrap();
        assert!((0x0c..=0x1c).contains(&p[0]), "prefix {p:?}");
    }
}

#[test]
fn many_allocations_stay_in_the_data_region() {
    // 300 directories (past the first HCA window advance): every
    // allocated prefix stays in the data region and every data key
    // lands outside the meta region.
    let mut e = engine();
    for i in 0..300u32 {
        let d = format!("d{i:03}").into_bytes();
        let d = [d.as_slice()];
        let p = ok(e.allocate_dir(&d));
        assert!((0x0c..=0x1c).contains(&p[0]), "prefix {p:?} at {i}");
    }
}

#[test]
fn resolve_missing_dir_is_none() {
    let mut e = engine();
    ok(e.set(&[], b"k", b"v"));
    assert_eq!(ok(e.prefix_of(&[b"nope"])), None);
    assert_eq!(ok(e.prefix_of(&[b"nope", b"deeper"])), None);
}

// -- data operations ----------------------------------------------------

#[test]
fn set_get_delete_round_trips_per_dir() {
    let mut e = engine();
    ok(e.set(&[b"asset", b"btc"], b"k", b"v"));
    assert_eq!(ok(e.get(&[b"asset", b"btc"], b"k")), Some(b"v".to_vec()));
    // Same key, different directory: isolated.
    assert_eq!(ok(e.get(&[b"asset"], b"k")), None);
    assert_eq!(ok(e.get(&[b"btc"], b"k")), None);
    ok(e.delete(&[b"asset", b"btc"], b"k"));
    assert_eq!(ok(e.get(&[b"asset", b"btc"], b"k")), None);
}

#[test]
fn scan_orders_within_dir_only() {
    let mut e = engine();
    for k in [b"b", b"a", b"c"] {
        ok(e.set(&[b"d"], k, k));
        ok(e.set(&[b"other"], k, k));
    }
    let rows = ok(e.scan(&[b"d"], Bound::Unbounded, Bound::Unbounded, true));
    let keys: Vec<Vec<u8>> = rows.iter().map(|p| p.key.clone()).collect();
    assert_eq!(keys, vec![b"a".to_vec(), b"b".to_vec(), b"c".to_vec()]);
    let rows = ok(e.scan(&[b"d"], Bound::Unbounded, Bound::Unbounded, false));
    assert_eq!(rows.first().unwrap().key, b"c".to_vec());
}

#[test]
fn scan_bound_matrix() {
    let mut e = engine();
    for k in [b"a", b"b", b"c", b"\xff"] {
        ok(e.set(&[b"d"], k, b"v"));
    }
    let get = |s: core::ops::Bound<&[u8]>,
               en: core::ops::Bound<&[u8]>,
               e: &FlatEngine<BufWriteView<'static>>|
     -> Vec<Vec<u8>> {
        ok(e.scan(&[b"d"], s, en, true))
            .into_iter()
            .map(|pair| pair.key)
            .collect()
    };
    assert_eq!(
        get(Bound::Included(b"b"), Bound::Excluded(b"c"), &e),
        vec![b"b".to_vec()]
    );
    assert_eq!(
        get(Bound::Excluded(b"b"), Bound::Included(b"c"), &e),
        vec![b"c".to_vec()]
    );
    assert_eq!(
        get(Bound::Excluded(&[0xFFu8]), Bound::Unbounded, &e),
        Vec::<Vec<u8>>::new()
    );
    assert_eq!(
        get(Bound::Unbounded, Bound::Included(&[0xFFu8]), &e),
        vec![b"a".to_vec(), b"b".to_vec(), b"c".to_vec(), vec![0xFF]]
    );
    assert_eq!(
        get(Bound::Included(&[0xFFu8]), Bound::Unbounded, &e),
        vec![vec![0xFF]]
    );
    // An Excluded bound at all-0xFF: the range is empty.
    assert_eq!(
        get(Bound::Excluded(&[0xFFu8]), Bound::Excluded(&[0xFFu8]), &e),
        Vec::<Vec<u8>>::new()
    );
}

#[test]
fn clear_range_clears_within_dir_only() {
    let mut e = engine();
    for k in [b"a", b"b", b"c"] {
        ok(e.set(&[b"d"], k, b"v"));
        ok(e.set(&[b"e"], k, b"v"));
    }
    ok(e.clear_range(&[b"d"], Bound::Included(b"b"), Bound::Excluded(b"c")));
    assert_eq!(ok(e.get(&[b"d"], b"a")), Some(b"v".to_vec()));
    assert_eq!(ok(e.get(&[b"d"], b"b")), None);
    assert_eq!(ok(e.get(&[b"d"], b"c")), Some(b"v".to_vec()));
    assert_eq!(ok(e.get(&[b"e"], b"b")), Some(b"v".to_vec()));
    // Whole directory.
    ok(e.clear_range(&[b"d"], Bound::Unbounded, Bound::Unbounded));
    assert!(ok(e.scan(&[b"d"], Bound::Unbounded, Bound::Unbounded, true)).is_empty());
    // The directory still exists (data-free directories are entities).
    assert!(ok(e.dir_exists(&[b"d"])));
}

// -- navigation ---------------------------------------------------------

#[test]
fn nav_list_exists_remove() {
    let mut e = engine();
    ok(e.set(&[b"a", b"1"], b"k", b"v"));
    ok(e.set(&[b"a", b"2"], b"k", b"v"));
    ok(e.set(&[b"b"], b"k", b"v"));
    assert_eq!(ok(e.list_dirs(&[])), vec![b"a".to_vec(), b"b".to_vec()]);
    assert_eq!(ok(e.list_dirs(&[b"a"])), vec![b"1".to_vec(), b"2".to_vec()]);
    assert!(ok(e.dir_exists(&[b"a"])));
    assert!(ok(e.dir_exists(&[b"a", b"1"])));
    assert!(!ok(e.dir_exists(&[b"a", b"3"])));
    // A directory with no data keys still exists.
    ok(e.allocate_dir(&[b"empty"]));
    assert!(ok(e.dir_exists(&[b"empty"])));
    assert!(ok(e.list_dirs(&[b"empty"])).is_empty());
    // Missing: empty list, not an error.
    assert!(ok(e.list_dirs(&[b"nope"])).is_empty());
    assert!(!ok(e.dir_exists(&[b"nope"])));
}

#[test]
fn nav_remove_is_recursive() {
    let mut e = engine();
    ok(e.set(&[b"a", b"b", b"c"], b"k1", b"v1"));
    ok(e.set(&[b"a", b"b"], b"k2", b"v2"));
    ok(e.set(&[b"a", b"d"], b"k3", b"v3"));
    ok(e.set(&[b"z"], b"k4", b"v4"));
    // Remove the middle directory: b/c and b go, a/d stays.
    assert!(ok(e.remove_dir(&[b"a", b"b"])));
    assert_eq!(ok(e.get(&[b"a", b"b", b"c"], b"k1")), None);
    assert_eq!(ok(e.get(&[b"a", b"b"], b"k2")), None);
    assert_eq!(ok(e.get(&[b"a", b"d"], b"k3")), Some(b"v3".to_vec()));
    assert!(ok(e.dir_exists(&[b"a"])));
    assert!(!ok(e.dir_exists(&[b"a", b"b"])));
    // Removing a leaf directory removes it and its data.
    assert!(ok(e.remove_dir(&[b"a", b"d"])));
    assert_eq!(ok(e.get(&[b"a", b"d"], b"k3")), None);
    // Missing: false.
    assert!(!ok(e.remove_dir(&[b"a", b"b"])));
    // Unaffected directories keep their data.
    assert_eq!(ok(e.get(&[b"z"], b"k4")), Some(b"v4".to_vec()));
}

#[test]
fn nav_root_is_not_removable() {
    let mut e = engine();
    ok(e.set(&[], b"k", b"v"));
    assert_eq!(
        e.remove_dir(&[]),
        Err(FlatError::Key(KeyError::RootNotRemovable))
    );
    // The root survived.
    assert!(ok(e.dir_exists(&[])));
}

#[test]
fn nav_rejects_non_utf8() {
    let mut e = engine();
    let seg: &[u8] = b"\xFF\xFE";
    let bad = [seg];
    assert_eq!(
        e.list_dirs(&bad),
        Err(FlatError::Key(KeyError::DirSegmentNotUtf8 { segment: 0 }))
    );
    assert_eq!(
        e.remove_dir(&bad),
        Err(FlatError::Key(KeyError::DirSegmentNotUtf8 { segment: 0 }))
    );
}

#[test]
fn remove_and_recreate_work() {
    // Removal leaves no trace that blocks re-creation: the HCA may
    // even re-claim the same candidate value (the allocator tracks
    // windows, not used prefixes); what matters is
    // that the recreated directory is fully functional and no stale
    // row of the old one is read.
    let mut e = engine();
    ok(e.set(&[b"x"], b"k", b"v1"));
    let p1 = ok(e.prefix_of(&[b"x"])).unwrap();
    assert!(ok(e.remove_dir(&[b"x"])));
    assert!(!ok(e.dir_exists(&[b"x"])));
    assert_eq!(ok(e.get(&[b"x"], b"k")), None);
    ok(e.set(&[b"x"], b"k", b"v2"));
    let p2 = ok(e.prefix_of(&[b"x"])).unwrap();
    assert_eq!(ok(e.get(&[b"x"], b"k")), Some(b"v2".to_vec()));
    // If the allocator re-claimed the same prefix, the old data row
    // was cleared by the removal (same raw key, new value wins).
    if p1 == p2 {
        assert_eq!(
            ok(e.scan(&[b"x"], Bound::Unbounded, Bound::Unbounded, true)).len(),
            1
        );
    }
    // The store still validates as a whole layout.
    assert!(validate(e.raw()).is_ok());
}

#[test]
fn bounds_map_into_the_directory_region() {
    let p = [0x15u8, 0x07];
    assert_eq!(
        map_bounds(&p, Bound::Unbounded, Bound::Unbounded),
        (Bound::Included(vec![0x15, 0x07]), Bound::Excluded(vec![0x15, 0x08]))
    );
    assert_eq!(
        map_bounds(&p, Bound::Excluded(b"a"), Bound::Included(b"b")),
        (
            Bound::Excluded(vec![0x15, 0x07, b'a']),
            Bound::Excluded(vec![0x15, 0x07, b'b', 0x00])
        )
    );
    let (s, e) = map_bounds(&p, Bound::Included(b"b"), Bound::Excluded(b"b"));
    assert!(raw_range_empty(&s, &e));
    let (s, e) = map_bounds(&p, Bound::Included(b"b"), Bound::Included(b"b"));
    assert!(!raw_range_empty(&s, &e));
}

#[test]
fn data_bounds_name_the_raw_range_and_describe_its_size() {
    let mut e = engine();
    assert!(matches!(e.data_bounds(&[], Bound::Unbounded, Bound::Unbounded), Ok(None)));
    ok(e.set(&[b"d"], b"k", b"v"));
    let p = ok(e.prefix_of(&[b"d"])).unwrap();
    let b = ok(e.data_bounds(&[b"d"], Bound::Included(b"k"), Bound::Unbounded)).unwrap();
    assert_eq!(b.prefix, p);
    let mut first = p.clone();
    first.push(b'k');
    assert_eq!(b.start, Bound::Included(first));
    let text = b.describe();
    assert!(text.starts_with(&format!(
        "DataBounds {{ prefix_len: {}, start: \"incl({} bytes)\", end: \"excl(",
        p.len(),
        p.len() + 1
    )));
    assert!(matches!(
        e.data_bounds(&[b"d"], Bound::Included(b"z"), Bound::Excluded(b"a")),
        Ok(None)
    ));
}

#[test]
fn a_read_only_view_refuses_writes() {
    let base: ByteMap<Vec<u8>> = ByteMap::new();
    let buffer: ByteMap<Option<Vec<u8>>> = ByteMap::new();
    let mut e = FlatEngine::new(BufReadView::new(&base, &buffer));
    assert_eq!(e.set(&[b"a"], b"k", b"v"), Err(FlatError::Engine(BufViewError)));
    assert_eq!(e.get(&[b"a"], b"k"), Ok(None));
    assert_eq!(e.delete(&[b"a"], b"k"), Ok(()));
}

/// Bounds that name no key give no raw range.
#[test]
fn bounds_that_name_no_keys_have_no_raw_range() {
    let mut e = engine();
    ok(e.set(&[b"d"], b"k", b"v"));
    assert!(matches!(e.data_bounds(&[b"d"], Bound::Excluded(b"k"), Bound::Included(b"k")), Ok(None)));
    assert!(matches!(e.data_bounds(&[b"d"], Bound::Included(b"k"), Bound::Excluded(b"k")), Ok(None)));
    assert!(matches!(e.data_bounds(&[b"d"], Bound::Included(b"l"), Bound::Included(b"k")), Ok(None)));
    assert!(matches!(e.data_bounds(&[b"d"], Bound::Included(b"k"), Bound::Included(b"k")), Ok(Some(_))));
    assert!(matches!(e.data_bounds(&[b"none"], Bound::Unbounded, Bound::Unbounded), Ok(None)));
}

/// Removing a directory of a fresh store does not initialise it.
#[test]
fn a_missing_removal_leaves_a_fresh_store_fresh() {
    let mut e = engine();
    assert!(!ok(e.remove_dir(&[b"absent"])));
    assert!(raw_keys(&e).is_empty());
}

/// A store of another version is refused and left as it is.
#[test]
fn a_foreign_store_is_left_as_it_is() {
    let mut e = engine();
    e.raw_mut().insert(&VERSION_KEY, &[9; 12]).unwrap();
    assert_eq!(e.set(&[b"d"], b"k", b"v"), Err(FlatError::Foreign));
    assert_eq!(e.remove_dir(&[b"d"]), Err(FlatError::Foreign));
    assert_eq!(e.allocate_dir(&[b"d"]), Err(FlatError::Foreign));
    assert_eq!(raw_keys(&e), vec![VERSION_KEY.to_vec()]);
    assert_eq!(e.raw().get(&VERSION_KEY).unwrap(), Some(vec![9; 12]));
}
