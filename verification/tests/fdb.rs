//! The cluster backend's paths, bounds, selectors and pages.

use core::ops::Bound;

use fasm_storage::btreemap::{BTreeMapStore, BTreeMapTransaction};
use fasm_storage::bytemap::ByteMap;
use fasm_storage::fdb::{
    after_failure, clear_bounds, created, dir_err, dir_path, end_selector, join, just_after, listed, opened, range_option, region_end,
    refused_mutation, removal_path, scan_plan, start_selector, strip_page, DirectoryFailure, FdbStorageError, PagedScan, ResolvedDir,
    ScanPlan, ScanStep, Selector,
};
use fasm_storage::{Commit, ErrorMessage, FlatEngine, KeyError, KvPair, KvStore, RawKv, RetryableStorageError};

/// Engine errors that the directory layer passed on keep their retryability;
/// structural layer errors stay non-retryable.
#[test]
fn dir_err_keeps_retryable_fdb_errors_retryable() {
    let e = dir_err(DirectoryFailure::Engine { code: 1020, retryable: true, message: "not_committed".to_owned() });
    assert!(matches!(e, FdbStorageError::Fdb { code: 1020, .. }));
    assert!(e.is_retryable());

    let e = dir_err(DirectoryFailure::Engine { code: 1037, retryable: true, message: "process_behind".to_owned() });
    assert!(matches!(e, FdbStorageError::Fdb { code: 1037, .. }));
    assert!(e.is_retryable());

    let e = dir_err(DirectoryFailure::Other("DirAlreadyExists".to_owned()));
    assert!(matches!(e, FdbStorageError::Directory(_)));
    assert!(!e.is_retryable());

    let missing = DirectoryFailure::Missing("PathDoesNotExists".to_owned());
    assert!(missing.is_missing());
    assert!(!dir_err(missing).is_retryable());
}

#[test]
fn only_engine_and_commit_errors_can_be_retryable() {
    let commit = |retryable_not_committed: bool| FdbStorageError::Commit {
        retryable_not_committed,
        message: "m".to_owned(),
    };
    assert!(commit(true).is_retryable());
    assert!(!commit(false).is_retryable());
    assert!(!FdbStorageError::Key(KeyError::RootNotRemovable).is_retryable());
    assert!(!FdbStorageError::PrefixViolation.is_retryable());
    assert!(!FdbStorageError::ReadOnlyMutation.is_retryable());
    assert_eq!(commit(true).message(), "transaction commit: m");
    assert_eq!(
        FdbStorageError::Fdb { code: 1, retryable: false, message: "m".to_owned() }.message(),
        "foundationdb: m"
    );
    assert_eq!(FdbStorageError::Directory("m".to_owned()).message(), "foundationdb directory: m");
    assert_eq!(
        FdbStorageError::Key(KeyError::RootNotRemovable).message(),
        "the root directory cannot be removed"
    );
    assert_eq!(
        FdbStorageError::PrefixViolation.message(),
        "range returned a key outside the resolved directory"
    );
    assert_eq!(
        FdbStorageError::ReadOnlyMutation.message(),
        "mutation attempted through read-only foundationdb state handle"
    );
}

#[test]
fn paths_are_rooted_under_the_reserved_segment() {
    let path = dir_path(&[b"a", "\u{20AC}".as_bytes()]).expect("path");
    assert_eq!(path.len(), 3);
    assert_eq!(path[0], fasm_storage::flatdir::ROOT_PATH_SEGMENT);
    assert_eq!(&path[1..], &["a".to_owned(), "\u{20AC}".to_owned()]);
    assert_eq!(dir_path(&[b"a", b"\xFF"]), Err(KeyError::DirSegmentNotUtf8 { segment: 1 }));
}

#[test]
fn the_root_is_not_removed() {
    assert_eq!(removal_path(&[]), Err(KeyError::RootNotRemovable));
    assert_eq!(removal_path(&[b"\xFF"]), Err(KeyError::DirSegmentNotUtf8 { segment: 0 }));
    assert_eq!(removal_path(&[b"a"]).expect("path").len(), 2);
}

#[test]
fn a_missing_directory_is_empty_to_reads() {
    let missing = || DirectoryFailure::Missing("PathDoesNotExists".to_owned());
    let other = || DirectoryFailure::Other("BadPrefix".to_owned());
    assert!(matches!(opened(Err(missing())), Ok(None)));
    assert!(matches!(opened(Err(other())), Err(FdbStorageError::Directory(_))));
    assert!(matches!(opened(Ok(vec![0x15, 0x01])), Ok(Some(d)) if d.end == vec![0x15, 0x02]));
    assert!(matches!(opened(Ok(vec![0xFF])), Err(FdbStorageError::Directory(_))));
    assert!(matches!(created(Err(missing())), Err(FdbStorageError::Directory(_))));
    assert!(matches!(created(Ok(vec![0x14])), Ok(d) if d.prefix == vec![0x14]));
    assert_eq!(listed(Err(missing())), Ok(vec![]));
    assert!(matches!(listed(Err(other())), Err(FdbStorageError::Directory(_))));
    let names = ["b", "\u{20AC}", "a", "b", ""].iter().map(|n| n.to_string()).collect();
    assert_eq!(
        listed(Ok(names)),
        Ok(vec![
            b"".to_vec(),
            b"a".to_vec(),
            b"b".to_vec(),
            b"b".to_vec(),
            "\u{20AC}".as_bytes().to_vec()
        ])
    );
}

#[test]
fn a_scan_is_planned_before_the_engine_is_asked() {
    assert!(matches!(
        scan_plan(&[b"\xFF"], Bound::Included(b"b"), Bound::Excluded(b"a")),
        ScanPlan::Failed(KeyError::DirSegmentNotUtf8 { segment: 0 })
    ));
    assert!(matches!(scan_plan(&[], Bound::Included(b"b"), Bound::Excluded(b"a")), ScanPlan::Empty));
    assert!(matches!(scan_plan(&[b"d"], Bound::Unbounded, Bound::Unbounded), ScanPlan::Open(path) if path.len() == 2));
}

#[test]
fn bounds_become_selectors() {
    let p = [0x15u8, 0x01];
    let end = region_end(&p).expect("a bounded region");
    assert_eq!(end, vec![0x15, 0x02]);
    assert!(matches!(region_end(&[0xFF, 0xFF]), Err(FdbStorageError::Directory(_))));
    assert_eq!(join(&p, b"k"), vec![0x15, 0x01, b'k']);
    assert_eq!(just_after(&p, b"k"), vec![0x15, 0x01, b'k', 0x00]);
    assert_eq!(start_selector(&p, Bound::Included(b"k")), Selector::FirstGreaterOrEqual(vec![0x15, 0x01, b'k']));
    assert_eq!(start_selector(&p, Bound::Excluded(b"k")), Selector::FirstGreaterThan(vec![0x15, 0x01, b'k']));
    assert_eq!(start_selector(&p, Bound::Unbounded), Selector::FirstGreaterOrEqual(vec![0x15, 0x01]));
    assert_eq!(end_selector(&p, &end, Bound::Included(b"k")), Selector::FirstGreaterThan(vec![0x15, 0x01, b'k']));
    assert_eq!(end_selector(&p, &end, Bound::Excluded(b"k")), Selector::FirstGreaterOrEqual(vec![0x15, 0x01, b'k']));
    assert_eq!(end_selector(&p, &end, Bound::Unbounded), Selector::FirstGreaterOrEqual(vec![0x15, 0x02]));
}

#[test]
fn crossed_ranges_ask_the_engine_for_nothing() {
    let d = ResolvedDir::new(vec![0x15, 0x01]).expect("a bounded region");
    assert!(range_option(&d, Bound::Included(b"z"), Bound::Excluded(b"a"), false).is_none());
    assert!(range_option(&d, Bound::Excluded(b"k"), Bound::Excluded(b"k"), false).is_none());
    let range = range_option(&d, Bound::Excluded(b"a"), Bound::Unbounded, true).expect("a range");
    assert!(range.reverse);
    assert_eq!(range.begin, Selector::FirstGreaterThan(vec![0x15, 0x01, b'a']));
    assert_eq!(range.end, Selector::FirstGreaterOrEqual(vec![0x15, 0x02]));
    assert!(ResolvedDir::new(vec![0xFF]).is_err());
}

#[test]
fn clears_are_half_open_raw_ranges() {
    let d = ResolvedDir::new(vec![0x15, 0x01]).expect("a bounded region");
    assert_eq!(
        clear_bounds(&d, Bound::Excluded(b"a"), Bound::Included(b"c")),
        Some((vec![0x15, 0x01, b'a', 0x00], vec![0x15, 0x01, b'c', 0x00]))
    );
    assert_eq!(
        clear_bounds(&d, Bound::Unbounded, Bound::Unbounded),
        Some((vec![0x15, 0x01], vec![0x15, 0x02]))
    );
    assert_eq!(clear_bounds(&d, Bound::Included(b"c"), Bound::Excluded(b"a")), None);
}

#[test]
fn pages_outside_the_directory_are_violations() {
    let pair = |key: &[u8]| KvPair { key: key.to_vec(), value: b"v".to_vec() };
    let page = strip_page(&[0x15], vec![pair(&[0x15, b'a']), pair(&[0x15])]).ok().expect("stripped");
    assert_eq!(page[0].key, b"a".to_vec());
    assert_eq!(page[1].key, Vec::<u8>::new());
    assert!(matches!(
        strip_page(&[0x15], vec![pair(&[0x15, b'a']), pair(&[0x16])]),
        Err(FdbStorageError::PrefixViolation)
    ));
}

fn raw_rows(store: &BTreeMapStore) -> Vec<KvPair> {
    store
        .keys()
        .into_iter()
        .map(|key| {
            let value = store.get_committed(&key).expect("committed row");
            KvPair { key, value }
        })
        .collect()
}

/// Pages of rows behind a cursor, as an engine hands them out.
fn fetch(rows: &[KvPair], at: usize, size: usize) -> (Vec<KvPair>, Option<usize>) {
    let end = rows.len().min(at + size);
    (rows[at..end].to_vec(), if end < rows.len() { Some(end) } else { None })
}

#[test]
fn scan_pages_past_one_page_worth_of_keys() {
    let mut store = BTreeMapStore::new();
    let mut tx: BTreeMapTransaction<'_> = store.transaction();
    let n = 200u32;
    for i in 0..n {
        let key = format!("k{i:04}").into_bytes();
        tx.set(&[b"run", b"d"], &key, b"v").expect("set");
    }
    let writes = tx.commit().expect("commit");
    store.apply(writes);

    let none: ByteMap<Option<Vec<u8>>> = ByteMap::new();
    let view = fasm_storage::btreemap::BufReadView::new(store.raw(), &none);
    assert!(view.get(b"").is_ok());
    let engine = FlatEngine::new(view);
    let prefix = engine.prefix_of(&[b"run", b"d"]).expect("resolve").expect("the directory");
    let rows: Vec<KvPair> = raw_rows(&store).into_iter().filter(|p| p.key.starts_with(&prefix)).collect();

    let mut scan: PagedScan<usize> = PagedScan::new(prefix, Some(0));
    let mut got = 0;
    let mut pages = Vec::new();
    loop {
        let (step, rest) = scan.step();
        scan = match step {
            ScanStep::Item(pair) => {
                assert_eq!(pair.key, format!("k{got:04}").into_bytes());
                got += 1;
                rest
            }
            ScanStep::Fetch(at, iteration) => {
                pages.push(iteration);
                let (page, next) = fetch(&rows, at, 64);
                rest.on_page(page, next).ok().expect("page")
            }
            ScanStep::Done => break,
        };
    }
    assert_eq!(got, n as usize);
    // The iterations of one scan count from one.
    assert_eq!(pages, vec![1, 2, 3, 4]);
}

/// Only the answer to an open says that a directory is missing.
#[test]
fn an_opened_directory_is_not_missing() {
    let failure = DirectoryFailure::Missing("PathDoesNotExists".to_owned()).once_opened();
    assert!(!failure.is_missing());
    assert!(matches!(opened(Err(failure)), Err(FdbStorageError::Directory(text)) if text == "PathDoesNotExists"));
    let engine = DirectoryFailure::Engine { code: 1020, retryable: true, message: "conflict".to_owned() };
    assert!(matches!(engine.once_opened(), DirectoryFailure::Engine { code: 1020, retryable: true, .. }));
}

/// A page that arrives early waits behind what waits already.
#[test]
fn pages_wait_in_the_order_they_arrive() {
    let pair = |k: &[u8]| KvPair { key: k.to_vec(), value: vec![] };
    let scan: PagedScan<usize> = PagedScan::new(vec![0x15], Some(0));
    let (_, scan) = scan.step();
    let scan = scan.on_page(vec![pair(b"\x15a"), pair(b"\x15b")], Some(1)).ok().expect("page");
    let mut scan = scan.on_page(vec![pair(b"\x15c")], None).ok().expect("page");
    let mut seen = Vec::new();
    loop {
        let (step, rest) = scan.step();
        scan = rest;
        match step {
            ScanStep::Item(pair) => seen.push(pair.key),
            ScanStep::Fetch(..) => panic!("no page is left"),
            ScanStep::Done => break,
        }
    }
    assert_eq!(seen, vec![b"a".to_vec(), b"b".to_vec(), b"c".to_vec()]);
}

/// A page that failed is fetched again only where the engine reset the transaction.
#[test]
fn a_failed_page_ends_the_scan_unless_the_transaction_was_reset() {
    let first = || FdbStorageError::Fdb { code: 1007, retryable: true, message: "too old".to_owned() };
    assert!(after_failure(first(), true).is_none());
    assert!(matches!(after_failure(first(), false), Some(FdbStorageError::Fdb { code: 1007, .. })));
}

/// A read-only handle looks at the path before it refuses a mutation.
#[test]
fn a_read_only_handle_reports_a_bad_path_first() {
    assert!(matches!(refused_mutation(&[]), FdbStorageError::ReadOnlyMutation));
    assert!(matches!(refused_mutation(&[b"a"]), FdbStorageError::ReadOnlyMutation));
    assert!(matches!(
        refused_mutation(&[b"a", b"\xFF"]),
        FdbStorageError::Key(KeyError::DirSegmentNotUtf8 { segment: 1 })
    ));
}
