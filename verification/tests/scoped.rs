//! The directory-pinned view.

use core::ops::Bound;
use std::collections::BTreeMap;

use fasm_storage::btreemap::{BTreeMapError, BTreeMapStore, BTreeMapTransaction, WriteSet};
use fasm_storage::scoped::join_dir;
use fasm_storage::{bound_as_slice, Commit, KvDirNav, KvStore, ScopedKvStore};

/// A fresh empty store (the committed base plus its opener).
fn open_store() -> BTreeMapStore {
    BTreeMapStore::new()
}

/// A fresh write transaction over a fresh empty store.
fn open_transaction() -> BTreeMapTransaction<'static> {
    let store: &'static BTreeMapStore = Box::leak(Box::new(open_store()));
    store.transaction()
}

/// Collect a bounded range scan within `dir` as `(key, value)` pairs.
fn scan_bounded<KV: KvStore>(
    store: &KV,
    dir: &[&[u8]],
    bounds: &(Bound<Vec<u8>>, Bound<Vec<u8>>),
    reverse: bool,
) -> Vec<(Vec<u8>, Vec<u8>)>
where
    KV::Error: core::fmt::Debug,
{
    store
        .range(dir, bound_as_slice(&bounds.0), bound_as_slice(&bounds.1), reverse)
        .collect()
        .expect("scan must succeed")
        .into_iter()
        .map(|pair| (pair.key, pair.value))
        .collect()
}

/// A deterministic generator of operations.
struct Lcg(u64);

impl Lcg {
    /// A value below `n`.
    fn below(&mut self, n: u64) -> u64 {
        self.0 = self.0.wrapping_mul(6364136223846793005).wrapping_add(1442695040888963407);
        (self.0 >> 33) % n
    }

    /// A key over a tiny alphabet, so that keys meet and prefix each other.
    fn key(&mut self) -> Vec<u8> {
        let len = self.below(5);
        (0..len).map(|_| [0xFFu8, 0xFF, 0x00, 0x00, 0x01, 0xFE][self.below(6) as usize]).collect()
    }

    fn value(&mut self) -> Vec<u8> {
        let len = self.below(4);
        (0..len).map(|_| self.below(256) as u8).collect()
    }

    fn dir(&mut self) -> Vec<Vec<u8>> {
        let len = self.below(3);
        (0..len).map(|_| vec![b'a' + self.below(2) as u8]).collect()
    }

    fn entries(&mut self) -> BTreeMap<Vec<u8>, Vec<u8>> {
        let n = self.below(8);
        (0..n).map(|_| (self.key(), self.value())).collect()
    }
}
#[test]
fn scoped_store_pins_the_directory() {
    let mut store = open_store();
    let mut scope =
        ScopedKvStore::new(store.transaction(), vec![b"c1".to_vec(), b"swap".to_vec()]);
    assert_eq!(scope.dir(), &[b"c1".to_vec(), b"swap".to_vec()]);

    scope.set(&[], b"key", b"value").expect("set");
    scope.set(&[], b"", b"root").expect("set empty key");

    // Commit, then inspect the committed base through the opener.
    let writes = scope.commit().expect("commit must not fail");
    store.apply(writes);
    // The pin directory's own empty key and `key` land in the pin, and
    // nothing else: the layout rows plus the pin's two data rows.
    let check = store.transaction();
    assert_eq!(
        check.get(&[b"c1", b"swap"], b"key").expect("get key"),
        Some(b"value".to_vec())
    );
    assert_eq!(
        check
            .get(&[b"c1", b"swap"], b"")
            .expect("get empty key"),
        Some(b"root".to_vec())
    );
    // The pin's parent directory exists (allocated on the way) but holds
    // no keys of its own.
    let visible: Vec<Vec<u8>> = check
        .range(&[b"c1"], Bound::Unbounded, Bound::Unbounded, false)
        .collect()
        .expect("scan parent")
        .into_iter()
        .map(|pair| pair.key)
        .collect();
    assert!(visible.is_empty(), "the parent holds no data of its own");
}

#[test]
fn scoped_stores_do_not_see_each_others_keys() {
    let mut store = open_store();
    let mut first = ScopedKvStore::new(store.transaction(), vec![b"a".to_vec()]);
    first.set(&[], b"key", b"first").expect("set first");
    first
        .set(&[], b"other", b"first-other")
        .expect("set first other");
    let writes = first.commit().expect("commit first");
    store.apply(writes);

    let mut second = ScopedKvStore::new(store.transaction(), vec![b"b".to_vec()]);
    second
        .set(&[], b"key", b"second")
        .expect("set second");
    let writes = second.commit().expect("commit second");
    store.apply(writes);

    // Same caller-space key, different directories, no collision. A fresh
    // scoped handle reads the committed write through its pin.
    let second = ScopedKvStore::new(store.transaction(), vec![b"b".to_vec()]);
    assert_eq!(
        second.get(&[], b"key").expect("get second"),
        Some(b"second".to_vec())
    );
    let visible: Vec<Vec<u8>> = second
        .range(&[], Bound::Unbounded, Bound::Unbounded, false)
        .collect()
        .expect("scan second")
        .into_iter()
        .map(|pair| pair.key)
        .collect();
    assert_eq!(visible, vec![b"key".to_vec()]);

    let mut back = ScopedKvStore::new(store.transaction(), vec![b"a".to_vec()]);
    assert_eq!(
        back.get(&[], b"key").expect("get first"),
        Some(b"first".to_vec())
    );

    // Clearing one directory wholesale leaves the other intact.
    back.clear_range(&[], Bound::Unbounded, Bound::Unbounded)
        .expect("clear first");
    let writes = back.commit().expect("commit first clear");
    store.apply(writes);

    // The base still holds the second scope's key.
    let check = store.transaction();
    assert_eq!(
        check.get(&[b"b"], b"key").expect("get"),
        Some(b"second".to_vec())
    );
    assert_eq!(check.get(&[b"a"], b"key").expect("get"), None);
}

#[test]
fn scoped_relative_paths_name_subdirectories_of_the_pin() {
    let mut store = open_store();
    let mut scope = ScopedKvStore::new(store.transaction(), vec![b"a".to_vec()]);

    // The empty relative path names the pin itself.
    scope.set(&[], b"top", b"t").expect("set at pin");
    // A relative path names a subdirectory of the pin.
    scope.set(&[b"sub"], b"k", b"v").expect("set in sub");

    let writes = scope.commit().expect("commit");
    store.apply(writes);

    let check = store.transaction();
    assert_eq!(
        check.get(&[b"a"], b"top").expect("pin key"),
        Some(b"t".to_vec())
    );
    assert_eq!(
        check.get(&[b"a", b"sub"], b"k").expect("sub key"),
        Some(b"v".to_vec())
    );
    // A scan at the pin's level never yields the subdirectory's keys.
    let visible: Vec<Vec<u8>> = check
        .range(&[b"a"], Bound::Unbounded, Bound::Unbounded, false)
        .collect()
        .expect("scan pin")
        .into_iter()
        .map(|pair| pair.key)
        .collect();
    assert_eq!(visible, vec![b"top".to_vec()]);
}

#[test]
fn scoped_nesting_appends_one_segment() {
    let mut store = open_store();
    let mut nested =
        ScopedKvStore::new(store.transaction(), vec![b"c1".to_vec()]).nested(b"swap".to_vec());
    assert_eq!(nested.dir(), &[b"c1".to_vec(), b"swap".to_vec()]);

    nested.set(&[], b"status", b"funded").expect("set");
    assert_eq!(
        nested
            .inner()
            .get(&[b"c1", b"swap"], b"status")
            .expect("raw get"),
        Some(b"funded".to_vec())
    );

    nested
        .inner_mut()
        .clear_range(&[b"c1", b"swap"], Bound::Unbounded, Bound::Unbounded)
        .expect("clear the pin");
    assert_eq!(nested.get(&[], b"status").expect("get"), None);
}

#[test]
fn scoped_commit_forwards_unwrapped() {
    let scope = ScopedKvStore::new(open_transaction(), vec![b"p".to_vec()]);
    // The commit error type is the backend's own.
    let result: Result<WriteSet, BTreeMapError> = scope.commit();
    result.expect("commit must not fail");
}

/// What goes in through a pin comes back out, in order in both directions.
#[test]
fn scopes_round_trip_every_entry() {
    let mut rng = Lcg(11);
    let all = (Bound::Unbounded, Bound::Unbounded);
    for _ in 0..40 {
        let (pin, entries) = (rng.dir(), rng.entries());
        let mut scope = ScopedKvStore::new(open_transaction(), pin);
        for (key, value) in &entries {
            scope.set(&[], key, value).expect("set must succeed");
        }
        for (key, value) in &entries {
            assert_eq!(scope.get(&[], key).expect("get must succeed"), Some(value.clone()));
            assert!(scope.contains_key(&[], key).expect("contains_key must succeed"));
        }
        let mut expected: Vec<(Vec<u8>, Vec<u8>)> = entries.into_iter().collect();
        assert_eq!(scan_bounded(&scope, &[], &all, false), expected);
        expected.reverse();
        assert_eq!(scan_bounded(&scope, &[], &all, true), expected);
    }
}

/// Two scopes with different pins in one transaction cannot see each other's
/// keys, and clearing one leaves the other.
#[test]
fn disjoint_pins_cannot_see_each_other() {
    let mut rng = Lcg(13);
    let all = (Bound::Unbounded, Bound::Unbounded);
    for _ in 0..40 {
        let (pin_a, pin_b) = (rng.dir(), rng.dir());
        if pin_a == pin_b {
            continue;
        }
        let (first_entries, second_entries) = (rng.entries(), rng.entries());
        let mut first = ScopedKvStore::new(open_transaction(), pin_a.clone());
        for (key, value) in &first_entries {
            first.set(&[], key, value).expect("set must succeed");
        }
        let mut second = ScopedKvStore::new(first.into_inner(), pin_b.clone());
        for (key, value) in &second_entries {
            second.set(&[], key, value).expect("set must succeed");
        }
        let expected: Vec<(Vec<u8>, Vec<u8>)> = second_entries.into_iter().collect();
        assert_eq!(scan_bounded(&second, &[], &all, false), expected);
        second.clear_range(&[], Bound::Unbounded, Bound::Unbounded).expect("clear must succeed");
        let first = ScopedKvStore::new(second.into_inner(), pin_a);
        let expected: Vec<(Vec<u8>, Vec<u8>)> = first_entries.into_iter().collect();
        assert_eq!(scan_bounded(&first, &[], &all, false), expected);
    }
}

#[test]
fn a_scoped_listing_is_relative_to_the_pin() {
    let mut scope = ScopedKvStore::new(open_transaction(), vec![b"p".to_vec()]);
    scope.set(&[b"x"], b"k", b"v").expect("set");
    scope.set(&[b"y", b"z"], b"k", b"v").expect("set");
    assert_eq!(scope.list_dirs(&[]).expect("list"), vec![b"x".to_vec(), b"y".to_vec()]);
    assert!(scope.dir_exists(&[b"y", b"z"]).expect("exists"));
    assert!(!scope.dir_exists(&[b"p"]).expect("exists"));
    // The pin itself is an ordinary directory of the store beneath.
    assert!(scope.remove_dir(&[]).expect("remove the pin"));
    assert!(!scope.inner().dir_exists(&[b"p"]).expect("exists"));
    assert!(!scope.remove_dir(&[]).expect("remove again"));
}

#[test]
fn joined_paths_lead_with_the_pin() {
    let pin = vec![b"a".to_vec(), b"b".to_vec()];
    assert_eq!(join_dir(&pin, &[b"c"]), vec![&b"a"[..], &b"b"[..], &b"c"[..]]);
    assert_eq!(join_dir(&Vec::new(), &[]), Vec::<&[u8]>::new());
}

/// What lies outside of the pin stays as it is, the root included.
#[test]
fn a_scope_leaves_what_is_outside_alone() {
    let mut tx = open_transaction();
    for dir in [&[][..], &[&b"pin"[..]], &[&b"other"[..]], &[&b"pin"[..], &b"x"[..]]] {
        tx.set(dir, b"k", b"v").expect("set");
    }
    let mut scope = ScopedKvStore::new(tx, vec![b"pin".to_vec()]);
    scope.set(&[b"y"], b"k", b"w").expect("set");
    scope.delete(&[b"other"], b"k").expect("delete");
    scope.clear_range(&[], Bound::Unbounded, Bound::Unbounded).expect("clear");
    assert!(scope.remove_dir(&[b"x"]).expect("remove"));
    assert!(!scope.remove_dir(&[b"other"]).expect("remove"));
    let tx = scope.into_inner();
    assert_eq!(tx.get(&[], b"k").expect("get"), Some(b"v".to_vec()));
    assert_eq!(tx.get(&[b"other"], b"k").expect("get"), Some(b"v".to_vec()));
    assert_eq!(tx.get(&[b"pin"], b"k").expect("get"), None);
    assert_eq!(tx.get(&[b"pin", b"y"], b"k").expect("get"), Some(b"w".to_vec()));
    assert_eq!(tx.list_dirs(&[]).expect("list"), vec![b"other".to_vec(), b"pin".to_vec()]);
    assert_eq!(tx.list_dirs(&[b"pin"]).expect("list"), vec![b"y".to_vec()]);
}
