//! What holds of the directory operations together, on concrete stores.

use core::ops::Bound;

use fasm_storage::btreemap::{BTreeMapStore, BTreeMapTransaction, BufReadView, BufWriteView};
use fasm_storage::bytemap::ByteMap;
use fasm_storage::flatdir::ops::validate;
use fasm_storage::{Commit, FlatEngine, KvDirNav, KvStore, RawKv};

type Listing = Vec<(Vec<Vec<u8>>, Vec<(Vec<u8>, Vec<u8>)>)>;

fn paths() -> Vec<Vec<Vec<u8>>> {
    [&[][..], &["a"], &["a", "b"], &["a", "b", "c"], &["ab"], &["b"], &["b", "a"]]
        .iter()
        .map(|p| p.iter().map(|s| s.as_bytes().to_vec()).collect())
        .collect()
}

fn slices(path: &[Vec<u8>]) -> Vec<&[u8]> {
    path.iter().map(|s| s.as_slice()).collect()
}

/// The content of every path, and which of them exist.
fn picture(tx: &BTreeMapTransaction<'_>) -> (Listing, Vec<bool>) {
    let mut contents = Vec::new();
    let mut found = Vec::new();
    for path in paths() {
        let rows = tx
            .range(&slices(&path), Bound::Unbounded, Bound::Unbounded, false)
            .collect()
            .expect("scan")
            .into_iter()
            .map(|p| (p.key, p.value))
            .collect();
        found.push(tx.dir_exists(&slices(&path)).expect("exists"));
        contents.push((path, rows));
    }
    (contents, found)
}

/// A store with two keys in every path but `b/a`.
fn populated() -> BTreeMapStore {
    let mut store = BTreeMapStore::new();
    let mut tx = store.transaction();
    for path in paths() {
        if path.len() == 2 && path[0] == b"b" {
            continue;
        }
        for key in [b"k", b"l"] {
            tx.set(&slices(&path), key, path.concat().as_slice()).expect("set");
        }
    }
    let writes = tx.commit().expect("commit");
    store.apply(writes);
    store
}

fn sound(store: &BTreeMapStore) -> bool {
    let none: ByteMap<Option<Vec<u8>>> = ByteMap::new();
    validate(&BufReadView::new(store.raw(), &none)).is_ok()
}

#[test]
fn a_fresh_store_is_empty_and_sound() {
    let store = BTreeMapStore::new();
    assert!(sound(&store));
    let (contents, found) = picture(&store.transaction());
    assert!(contents.iter().all(|(_, rows)| rows.is_empty()));
    assert!(found.iter().all(|f| !f));
}

#[test]
fn different_paths_have_different_prefixes() {
    let store = populated();
    let none: ByteMap<Option<Vec<u8>>> = ByteMap::new();
    let engine = FlatEngine::new(BufReadView::new(store.raw(), &none));
    let mut prefixes: Vec<Vec<u8>> = Vec::new();
    for path in paths() {
        if let Some(p) = engine.prefix_of(&slices(&path)).expect("resolve") {
            // No directory's prefix begins another's.
            assert!(prefixes.iter().all(|q| !q.starts_with(&p) && !p.starts_with(q)));
            assert!((0x0c..=0x1c).contains(&p[0]));
            prefixes.push(p);
        }
    }
    assert_eq!(prefixes.len(), 6);
}

#[test]
fn an_invalid_path_changes_nothing() {
    let store = populated();
    let before = picture(&store.transaction());
    let mut tx = store.transaction();
    let bad: &[&[u8]] = &[b"a", b"\xFF"];
    assert!(tx.set(bad, b"k", b"v").is_err());
    assert!(tx.delete(bad, b"k").is_err());
    assert!(tx.clear_range(bad, Bound::Unbounded, Bound::Unbounded).is_err());
    assert!(tx.remove_dir(bad).is_err());
    assert!(tx.remove_dir(&[]).is_err());
    assert_eq!(tx.pending_len(), 0);
    assert_eq!(picture(&tx), before);
}

#[test]
fn opening_a_directory_again_gives_the_same_prefix() {
    let base: &'static ByteMap<Vec<u8>> = Box::leak(Box::new(ByteMap::new()));
    let mut engine = FlatEngine::new(BufWriteView::new(base, ByteMap::new()));
    let first = engine.allocate_dir(&[b"a", b"b"]).expect("create");
    let rows = engine.raw().scan(Bound::Unbounded, Bound::Unbounded, true).expect("scan");
    assert_eq!(engine.allocate_dir(&[b"a", b"b"]).expect("open"), first);
    assert!(engine.raw().scan(Bound::Unbounded, Bound::Unbounded, true).expect("scan") == rows);
}

#[test]
fn a_set_changes_one_key_of_one_directory() {
    let mut store = populated();
    for path in paths() {
        let before = picture(&store.transaction());
        let mut tx = store.transaction();
        tx.set(&slices(&path), b"k", b"changed").expect("set");
        let after = picture(&tx);
        for (i, (p, rows)) in after.0.iter().enumerate() {
            if *p == path {
                assert_eq!(rows[0], (b"k".to_vec(), b"changed".to_vec()));
                assert_eq!(rows[1..], before.0[i].1[before.0[i].1.len().min(1)..]);
                assert!(after.1[i]);
            } else {
                assert_eq!(rows, &before.0[i].1);
                assert_eq!(after.1[i], before.1[i]);
            }
        }
        let writes = tx.commit().expect("commit");
        store.apply(writes);
        assert!(sound(&store));
    }
}

#[test]
fn deletes_and_clears_change_one_directory_and_remove_none() {
    let store = populated();
    let before = picture(&store.transaction());
    for path in paths() {
        let mut deleted = store.transaction();
        deleted.delete(&slices(&path), b"k").expect("delete");
        let mut cleared = store.transaction();
        cleared.clear_range(&slices(&path), Bound::Unbounded, Bound::Excluded(b"l")).expect("clear");
        for tx in [&deleted, &cleared] {
            let after = picture(tx);
            assert_eq!(after.1, before.1);
            for (i, (p, rows)) in after.0.iter().enumerate() {
                let skip = if *p == path { before.0[i].1.len().min(1) } else { 0 };
                assert_eq!(rows[..], before.0[i].1[skip..]);
            }
        }
    }
}

#[test]
fn a_removal_takes_the_subtree_and_nothing_else() {
    for path in paths() {
        if path.is_empty() {
            continue;
        }
        let mut store = populated();
        let before = picture(&store.transaction());
        let mut tx = store.transaction();
        let at = paths().iter().position(|p| *p == path).expect("a path");
        assert_eq!(tx.remove_dir(&slices(&path)).expect("remove"), before.1[at]);
        let after = picture(&tx);
        for (i, (p, rows)) in after.0.iter().enumerate() {
            if p.starts_with(&path) {
                assert!(rows.is_empty());
                assert!(!after.1[i]);
            } else {
                assert_eq!(rows, &before.0[i].1);
                assert_eq!(after.1[i], before.1[i]);
            }
        }
        let writes = tx.commit().expect("commit");
        store.apply(writes);
        assert!(sound(&store));
    }
}

#[test]
fn a_listing_names_the_children_that_exist() {
    let store = populated();
    let tx = store.transaction();
    for path in paths() {
        let names = tx.list_dirs(&slices(&path)).expect("list");
        let children: Vec<Vec<u8>> = paths()
            .into_iter()
            .filter(|p| p.len() == path.len() + 1 && p.starts_with(&path))
            .filter(|p| tx.dir_exists(&slices(p)).expect("exists"))
            .map(|p| p[path.len()].clone())
            .collect();
        assert_eq!(names, children);
    }
}

#[test]
fn many_directories_stay_sound() {
    let mut store = BTreeMapStore::new();
    let mut tx = store.transaction();
    for i in 0..150u32 {
        let name = format!("d{i:03}").into_bytes();
        tx.set(&[&name], b"k", &i.to_be_bytes()).expect("set");
        if i % 3 == 2 {
            assert!(tx.remove_dir(&[&name]).expect("remove"));
        }
    }
    let writes = tx.commit().expect("commit");
    store.apply(writes);
    assert!(sound(&store));
    assert_eq!(store.transaction().list_dirs(&[]).expect("list").len(), 100);
}

#[test]
fn a_set_brings_the_ancestors_and_no_other_directory() {
    let mut store = BTreeMapStore::new();
    let mut tx = store.transaction();
    tx.set(&[b"b"], b"k", b"v").expect("set");
    let writes = tx.commit().expect("commit");
    store.apply(writes);
    let before = picture(&store.transaction()).1;
    let mut tx = store.transaction();
    let path: Vec<Vec<u8>> = [b"a", b"b", b"c"].iter().map(|s| s.to_vec()).collect();
    tx.set(&slices(&path), b"k", b"v").expect("set");
    let (contents, after) = picture(&tx);
    for (i, (p, rows)) in contents.iter().enumerate() {
        assert_eq!(after[i], before[i] || path.starts_with(p));
        assert_eq!(rows.len(), usize::from(*p == path || p[..] == [b"b".to_vec()]));
    }
}
