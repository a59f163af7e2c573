//! The directory operations.

use core::ops::Bound;

use fasm_storage::btreemap::BufWriteView;
use fasm_storage::bytemap::ByteMap;
use fasm_storage::flatdir::hca::CandidateSource;
use fasm_storage::flatdir::layout::{
    child_key, layer_key, node_subspace, LAYOUT_VERSION, ROOT_NODE, ROOT_PATH_SEGMENT, VERSION_KEY,
};
use fasm_storage::flatdir::ops::{
    check_version, check_version_read, create_or_open, data_key_prefix, find, is_prefix_free, list_children,
    prefix_data_region_occupied, remove_dir, validate,
};
use fasm_storage::flatdir::tuple::pack_i64;
use fasm_storage::{FlatError, RawKv};
use rand::RngExt;

/// A raw view over an empty base, with its writes in a buffer.
fn mem() -> BufWriteView<'static> {
    let base: &'static ByteMap<Vec<u8>> = Box::leak(Box::new(ByteMap::new()));
    BufWriteView::new(base, ByteMap::new())
}

/// A deterministic generator.
struct Lcg(u64);

impl Lcg {
    /// A generator with the given initial state.
    fn new(state: u64) -> Self {
        Lcg(state)
    }

    fn step(&mut self) -> u64 {
        self.0 = self.0.wrapping_mul(6364136223846793005).wrapping_add(1442695040888963407);
        self.0
    }
}

impl rand::TryRng for Lcg {
    type Error = core::convert::Infallible;

    fn try_next_u32(&mut self) -> Result<u32, Self::Error> {
        Ok((self.step() >> 32) as u32)
    }
    fn try_next_u64(&mut self) -> Result<u64, Self::Error> {
        Ok(self.step())
    }
    fn try_fill_bytes(&mut self, dst: &mut [u8]) -> Result<(), Self::Error> {
        for chunk in dst.chunks_mut(8) {
            let v = self.try_next_u64()?;
            chunk.copy_from_slice(&v.to_le_bytes()[..chunk.len()]);
        }
        Ok(())
    }
}

impl CandidateSource for Lcg {
    fn pick(&mut self, lo: i64, hi: i64) -> i64 {
        self.random_range(lo..hi)
    }
}

/// Create the directory `dir` (fasm path form) under the anchor,
/// returning its allocated prefix.
fn create<R: RawKv, RNG: CandidateSource>(
    raw: &mut R,
    rng: &mut RNG,
    dir: &[&str],
) -> Result<Vec<u8>, FlatError<R::Error>> {
    let segs = path_refs(dir);
    create_or_open(raw, &as_refs(&segs), true, rng).map(|p| p.expect("created"))
}

/// The layer path for a fasm directory, owned: the anchor segment
/// plus the directory segments.
fn path_refs(dir: &[&str]) -> Vec<Vec<u8>> {
    let mut v: Vec<Vec<u8>> = vec![
        ROOT_PATH_SEGMENT
            .as_bytes()
            .to_vec(),
    ];
    for d in dir {
        v.push(d.as_bytes().to_vec());
    }
    v
}

/// Borrow the owned segments as the `&[&[u8]]` form the ops take.
fn as_refs(segs: &[Vec<u8>]) -> Vec<&[u8]> {
    segs.iter().map(|s| s.as_slice()).collect()
}

/// Resolve (without creating) the directory `dir`.
fn resolve<R: RawKv, RNG: CandidateSource>(
    raw: &mut R,
    rng: &mut RNG,
    dir: &[&str],
) -> Result<Option<Vec<u8>>, FlatError<R::Error>> {
    let segs = path_refs(dir);
    create_or_open(raw, &as_refs(&segs), false, rng)
}

fn open_anchor<R: RawKv, RNG: CandidateSource>(
    raw: &mut R,
    rng: &mut RNG,
) -> Result<Vec<u8>, FlatError<R::Error>> {
    resolve(raw, rng, &[]).map(|p| p.expect("anchor exists"))
}

#[test]
fn a_fresh_store_is_fresh_until_the_first_create() {
    let mut raw = mem();
    // Reads on a fresh store succeed: find is None,
    // the version row is absent.
    let segs = path_refs(&[]);
    assert_eq!(find(&raw, &as_refs(&segs)).unwrap(), None);
    assert_eq!(raw.get(&VERSION_KEY).unwrap(), None);
    // The first create writes the version row, the anchor node's
    // layer row, and the HCA rows.
    let prefix = create(&mut raw, &mut Lcg::new(1), &[]).unwrap();
    assert_eq!(raw.get(&VERSION_KEY).unwrap(), Some(LAYOUT_VERSION.to_vec()));
    let anchor_node = node_subspace(&prefix);
    assert!(raw.get(&layer_key(&anchor_node)).unwrap().is_some());
    // The fasm root now exists (its anchor node row is present).
    assert_eq!(open_anchor(&mut raw, &mut Lcg::new(2)).unwrap(), prefix);
}

#[test]
fn create_builds_the_node_tree_lazy() {
    let mut raw = mem();
    let mut rng = Lcg::new(3);
    let a = create(&mut raw, &mut rng, &["a"]).unwrap();
    let ab = create(&mut raw, &mut rng, &["a", "b"]).unwrap();
    let abc = create(&mut raw, &mut rng, &["a", "b", "c"]).unwrap();
    assert!(!a.is_empty() && !ab.is_empty() && !abc.is_empty());
    assert_ne!(a, ab);
    assert_ne!(ab, abc);
    // Every node has its layer row.
    for p in [&a, &ab, &abc] {
        let node = node_subspace(p);
        assert!(raw.get(&layer_key(&node)).unwrap().is_some());
    }
    // Reopening finds the same prefixes (no re-allocation).
    assert_eq!(
        resolve(&mut raw, &mut Lcg::new(99), &["a"]).unwrap(),
        Some(a)
    );
    assert_eq!(
        resolve(&mut raw, &mut Lcg::new(99), &["a", "b", "c"]).unwrap(),
        Some(abc)
    );
}

#[test]
fn list_children_is_sorted_and_exact() {
    let mut raw = mem();
    let mut rng = Lcg::new(4);
    for name in ["c", "a", "b", "A", "aa"] {
        create(&mut raw, &mut rng, &[name]).unwrap();
    }
    let root = open_anchor(&mut raw, &mut Lcg::new(5)).unwrap();
    let names = list_children(&raw, &root).unwrap();
    assert_eq!(names, vec!["A", "a", "aa", "b", "c"]);
    // An empty directory lists empty (no error).
    let empty = create(&mut raw, &mut rng, &["empty"]).unwrap();
    assert!(list_children(&raw, &empty).unwrap().is_empty());
}

#[test]
fn remove_deletes_the_whole_subtree() {
    let mut raw = mem();
    let mut rng = Lcg::new(5);
    let a = create(&mut raw, &mut rng, &["a"]).unwrap();
    let ab = create(&mut raw, &mut rng, &["a", "b"]).unwrap();
    let ac = create(&mut raw, &mut rng, &["a", "c"]).unwrap();
    // A data row under each leaf (the data key is prefix || key).
    let data = |p: &[u8]| {
        let mut k = p.to_vec();
        k.extend_from_slice(b"key");
        k
    };
    raw.insert(&data(&a), b"v1").unwrap();
    raw.insert(&data(&ab), b"v2").unwrap();
    raw.insert(&data(&ac), b"v3").unwrap();

    assert!(remove_dir(&mut raw, &as_refs(&path_refs(&["a"]))).unwrap());
    // The whole subtree is gone: layer rows and data rows.
    for p in [&a, &ab, &ac] {
        let node = node_subspace(p);
        assert_eq!(raw.get(&layer_key(&node)).unwrap(), None);
    }
    assert_eq!(raw.get(&data(&a)).unwrap(), None);
    assert_eq!(raw.get(&data(&ab)).unwrap(), None);
    assert_eq!(raw.get(&data(&ac)).unwrap(), None);
    // The parent's child row is deleted.
    let root = open_anchor(&mut raw, &mut Lcg::new(6)).unwrap();
    assert!(list_children(&raw, &root).unwrap().is_empty());
    // Removing a missing directory is Ok(false).
    assert!(!remove_dir(&mut raw, &as_refs(&path_refs(&["a"]))).unwrap());
    // The store still validates.
    assert!(validate(&raw).is_ok());
}

#[test]
fn remove_tolerates_a_missing_parent() {
    let mut raw = mem();
    let mut rng = Lcg::new(6);
    let _a = create(&mut raw, &mut rng, &["a"]).unwrap();
    let _ab = create(&mut raw, &mut rng, &["a", "b"]).unwrap();
    // Removing "a" clears the "a/b" subtree with it; removing "a/b"
    // afterwards fails the walk at "a" and is Ok(false), not an
    // error.
    assert!(remove_dir(&mut raw, &as_refs(&path_refs(&["a"]))).unwrap());
    assert!(!remove_dir(&mut raw, &as_refs(&path_refs(&["a", "b"]))).unwrap());
    assert!(validate(&raw).is_ok());
}

#[test]
fn a_foreign_version_fails_closed() {
    let mut raw = mem();
    // major = 2: newer than this layout reads.
    let mut v = [0u8; 12];
    v[0..4].copy_from_slice(&2u32.to_le_bytes());
    raw.insert(&VERSION_KEY, &v).unwrap();
    let mut rng = Lcg::new(1);
    let segs = path_refs(&["a"]);
    assert_eq!(
        create_or_open(&mut raw, &as_refs(&segs), true, &mut rng).unwrap_err(),
        FlatError::Foreign
    );
    // minor > 0: a same-major foreign store (the read-only rule).
    let mut raw = mem();
    let mut v = [0u8; 12];
    v[0..4].copy_from_slice(&1u32.to_le_bytes());
    v[4..8].copy_from_slice(&1u32.to_le_bytes());
    raw.insert(&VERSION_KEY, &v).unwrap();
    let mut rng = Lcg::new(3);
    let segs = path_refs(&["a"]);
    assert_eq!(
        create_or_open(&mut raw, &as_refs(&segs), true, &mut rng).unwrap_err(),
        FlatError::Foreign
    );
    // A short version value is Foreign (incorrect version length).
    let mut raw = mem();
    raw.insert(&VERSION_KEY, &[1, 0]).unwrap();
    let mut rng = Lcg::new(2);
    let segs = path_refs(&["a"]);
    assert_eq!(
        create_or_open(&mut raw, &as_refs(&segs), true, &mut rng).unwrap_err(),
        FlatError::Foreign
    );
}

#[test]
fn an_allocated_prefix_is_not_free() {
    let mut raw = mem();
    let mut rng = Lcg::new(1);
    let p = create(&mut raw, &mut rng, &[]).unwrap();
    // The layer row occupies the prefix's own node subspace: an
    // allocated prefix is never free for a new allocation.
    assert!(!is_prefix_free(&raw, &p).unwrap());
    // A candidate inside the node region (0xFE ...) is never free
    // either.
    assert!(!is_prefix_free(&raw, &[0xFE, 0x01, 0x7F]).unwrap());
}

#[test]
fn validate_walks_a_populated_store() {
    let mut raw = mem();
    let mut rng = Lcg::new(11);
    for name in ["x", "y"] {
        create(&mut raw, &mut rng, &[name]).unwrap();
    }
    let x = resolve(&mut raw, &mut Lcg::new(12), &["x"])
        .unwrap()
        .unwrap();
    let mut dk = x;
    dk.extend_from_slice(b"some-key");
    raw.insert(&dk, b"some-value").unwrap();
    let (data_rows, child_rows) = validate(&raw).unwrap();
    assert_eq!(data_rows, 1);
    assert!(child_rows >= 2);
}

#[test]
fn validate_rejects_unknown_content() {
    let mut raw = mem();
    let mut rng = Lcg::new(12);
    let _ = create(&mut raw, &mut rng, &[]).unwrap();
    // A row in the data region that does not start with a packed i64.
    raw.insert(&[0x03, 0x00], b"foreign").unwrap();
    assert_eq!(validate(&raw).unwrap_err(), FlatError::Foreign);
}

#[test]
fn two_stores_same_ops_resolve_the_same_paths() {
    // The structural equivalence invariant (the determinism
    // invariant's replacement): two stores, same operation
    // sequence, may allocate different prefixes (allocation is
    // random) but must resolve every path to a working node with
    // the same data.
    let mut s1 = mem();
    let mut s2 = mem();
    let mut r1 = Lcg::new(101);
    let mut r2 = Lcg::new(202);
    for name in ["a", "b", "c"] {
        create(&mut s1, &mut r1, &[name]).unwrap();
        create(&mut s2, &mut r2, &[name]).unwrap();
    }
    for name in ["a", "b", "c"] {
        let p1 = resolve(&mut s1, &mut r1, &[name]).unwrap().unwrap();
        let p2 = resolve(&mut s2, &mut r2, &[name]).unwrap().unwrap();
        // A data row under each store's own prefix: same data,
        // different raw keys (different prefixes).
        let mut k1 = p1;
        k1.extend_from_slice(b"k");
        let mut k2 = p2;
        k2.extend_from_slice(b"k");
        s1.insert(&k1, b"v").unwrap();
        s2.insert(&k2, b"v").unwrap();
        assert_eq!(s1.get(&k1).unwrap(), Some(b"v".to_vec()));
        assert_eq!(s2.get(&k2).unwrap(), Some(b"v".to_vec()));
        // Both stores validate.
        assert!(validate(&s1).is_ok());
        assert!(validate(&s2).is_ok());
    }
}

/// Validate a healthy store after 129 allocations: three full HCA
/// windows, advanced counter/recent rows, and 129 nodes.
#[test]
fn validate_passes_on_a_healthy_store_past_the_first_hca_window() {
    let mut raw = mem();
    let mut rng = Lcg::new(7);
    for i in 0..129 {
        let name = format!("d{i}");
        create(&mut raw, &mut rng, &[name.as_str()]).expect("create the directory");
    }
    validate(&raw).expect("a healthy store must validate");
}

/// A node key whose prefix's packed form contains a `0x00` byte
/// carries that byte escaped (`0x00 0xFF`) inside the BYTES
/// element: prefix 256 packs as `[0x16, 0x01, 0x00]`, so the node
/// key's escaped payload is `[0x16, 0x01, 0x00, 0xFF]`. The walk
/// must unescape the payload before unpacking the prefix — a
/// healthy store validates.
#[test]
fn validate_unescapes_a_node_prefix_with_an_embedded_zero() {
    let prefix = pack_i64(256);
    let node = node_subspace(&prefix);
    let mut raw = mem();
    // The version row (1.0.0), the node's layer row, and a child
    // row targeting the node from the root node.
    let version = [1u32.to_le_bytes(), 0u32.to_le_bytes(), 0u32.to_le_bytes()].concat();
    raw.insert(&VERSION_KEY, &version).unwrap();
    raw.insert(&layer_key(&node), b"").unwrap();
    raw.insert(&child_key(&ROOT_NODE, "d"), &prefix).unwrap();
    validate(&raw).expect("a healthy store must validate");
}

#[test]
fn data_keys_lead_with_a_packed_integer() {
    assert_eq!(data_key_prefix(&[0x15, 0x07, b'k']), Some(&[0x15, 0x07][..]));
    assert_eq!(data_key_prefix(&[0x14]), Some(&[0x14][..]));
    assert_eq!(data_key_prefix(&[]), None);
    assert_eq!(data_key_prefix(&[0x15]), None);
    assert_eq!(data_key_prefix(&[0xFE, 0x01]), None);
    assert_eq!(data_key_prefix(&[0x1d, 0, 0, 0, 0, 0, 0, 0, 0, 0]), None);
}

#[test]
fn the_version_row_is_written_only_when_asked() {
    let mut raw = mem();
    assert_eq!(check_version(&mut raw, false), Ok(()));
    assert_eq!(raw.get(&VERSION_KEY).unwrap(), None);
    assert_eq!(check_version(&mut raw, true), Ok(()));
    assert_eq!(raw.get(&VERSION_KEY).unwrap(), Some(LAYOUT_VERSION.to_vec()));
    assert_eq!(check_version_read(&raw), Ok(()));
}

#[test]
fn an_occupied_region_is_noticed() {
    let mut raw = mem();
    assert_eq!(prefix_data_region_occupied(&raw, &[0x15, 0x07]), Ok(false));
    // The prefix itself lies outside of the probed region.
    raw.insert(&[0x15, 0x07], b"v").unwrap();
    assert_eq!(prefix_data_region_occupied(&raw, &[0x15, 0x07]), Ok(false));
    raw.insert(&[0x15, 0x07, b'k'], b"v").unwrap();
    assert_eq!(prefix_data_region_occupied(&raw, &[0x15, 0x07]), Ok(true));
    assert_eq!(is_prefix_free(&raw, &[]), Ok(false));
    assert_eq!(is_prefix_free(&raw, &[0x15, 0x07]), Ok(true));
}

#[test]
fn a_cycle_of_child_rows_is_corrupt_not_endless() {
    let mut raw = mem();
    let p = create(&mut raw, &mut Lcg::new(1), &["a"]).unwrap();
    // The directory is made its own child.
    raw.insert(&child_key(&node_subspace(&p), "loop"), &p).unwrap();
    assert_eq!(
        remove_dir(&mut raw, &as_refs(&path_refs(&["a"]))),
        Err(FlatError::Corrupt)
    );
}

#[test]
fn malformed_rows_are_told_apart_from_foreign_ones() {
    // A child without its layer row.
    let mut raw = mem();
    raw.insert(&child_key(&ROOT_NODE, "d"), &pack_i64(5)).unwrap();
    assert_eq!(validate(&raw), Err(FlatError::Corrupt));
    // A data row of no live directory.
    let mut raw = mem();
    raw.insert(&[0x15, 0x07, b'k'], b"v").unwrap();
    assert_eq!(validate(&raw), Err(FlatError::Corrupt));
    // A layer row with a value.
    let mut raw = mem();
    raw.insert(&layer_key(&node_subspace(&pack_i64(5))), b"x").unwrap();
    assert_eq!(validate(&raw), Err(FlatError::Corrupt));
    // A row in the reserved region.
    let mut raw = mem();
    raw.insert(&[0xFF, 0x01], b"x").unwrap();
    assert_eq!(validate(&raw), Err(FlatError::Foreign));
    // An empty store has nothing wrong with it.
    assert_eq!(validate(&mem()), Ok((0, 0)));
}

#[test]
fn segments_that_are_no_text_are_corrupt_here() {
    let raw = mem();
    assert_eq!(find(&raw, &[&[0xFF][..]]), Err(FlatError::Corrupt));
    assert_eq!(find(&raw, &[]), Ok(Some(vec![0xFE])));
    let mut raw = mem();
    assert_eq!(remove_dir(&mut raw, &[]), Err(FlatError::Corrupt));
}

#[test]
fn a_child_row_without_a_name_is_corrupt() {
    let mut raw = mem();
    let p = create(&mut raw, &mut Lcg::new(1), &["a"]).unwrap();
    let mut key = node_subspace(&p);
    key.extend_from_slice(&[0x14, 0x02, 0xFE, 0x00]);
    raw.insert(&key, &pack_i64(9)).unwrap();
    assert_eq!(list_children(&raw, &p), Err(FlatError::Corrupt));
}

/// A data key needs a directory that is a child and has its layer row. Owning a
/// child row is not enough.
#[test]
fn validate_rejects_data_of_a_prefix_that_is_no_child() {
    let mut raw = mem();
    raw.insert(&child_key(&node_subspace(&[0x15, 0x05]), "x"), &[0x15, 0x06]).unwrap();
    raw.insert(&layer_key(&node_subspace(&[0x15, 0x06])), &[]).unwrap();
    assert_eq!(validate(&raw), Ok((0, 1)));
    raw.insert(&[0x15, 0x05, 0x6B], &[0x76]).unwrap();
    assert_eq!(validate(&raw), Err(FlatError::Corrupt));
    // A child with its layer row may have data.
    raw.delete(&[0x15, 0x05, 0x6B]).unwrap();
    raw.insert(&[0x15, 0x06, 0x6B], &[0x76]).unwrap();
    assert_eq!(validate(&raw), Ok((1, 1)));
}

/// A source that counts its draws.
struct Counting(usize);

impl CandidateSource for Counting {
    fn pick(&mut self, lo: i64, _hi: i64) -> i64 {
        self.0 += 1;
        lo
    }
}

fn rows(raw: &BufWriteView<'static>) -> Vec<(Vec<u8>, Vec<u8>)> {
    raw.scan(Bound::Unbounded, Bound::Unbounded, true)
        .unwrap()
        .into_iter()
        .map(|p| (p.key, p.value))
        .collect()
}

/// Opening what is there, or with creation off, writes nothing and draws nothing.
#[test]
fn opening_without_creating_leaves_the_store_and_the_source() {
    let mut raw = mem();
    let mut source = Counting(0);
    // Not even the version row of a fresh store is written.
    assert_eq!(resolve(&mut raw, &mut source, &["a"]), Ok(None));
    assert_eq!((rows(&raw).len(), source.0), (0, 0));

    let p = create(&mut raw, &mut source, &["a"]).unwrap();
    let before = (rows(&raw), source.0);
    assert!(before.1 >= 2);
    assert_eq!(create(&mut raw, &mut source, &["a"]), Ok(p.clone()));
    assert_eq!(resolve(&mut raw, &mut source, &["a"]), Ok(Some(p)));
    assert_eq!(resolve(&mut raw, &mut source, &["b"]), Ok(None));
    assert_eq!((rows(&raw), source.0), before);
}

/// Removing what is not there writes nothing.
#[test]
fn removing_a_missing_directory_writes_nothing() {
    let mut raw = mem();
    let segs = path_refs(&["absent"]);
    assert_eq!(remove_dir(&mut raw, &as_refs(&segs)), Ok(false));
    assert!(rows(&raw).is_empty());
}

/// Over rows of the layout, a prefix is free exactly if no key begins with its node.
#[test]
fn a_free_prefix_is_one_whose_node_no_key_begins_with() {
    let mut raw = mem();
    let mut rng = Lcg::new(5);
    for dir in [&["a"][..], &["a", "b"], &["c"]] {
        create(&mut raw, &mut rng, dir).unwrap();
    }
    let keys = rows(&raw);
    let mut taken = 0;
    for value in -70..70 {
        let prefix = pack_i64(value);
        let node = node_subspace(&prefix);
        let used = keys.iter().any(|(key, _)| key.starts_with(&node));
        assert_eq!(is_prefix_free(&raw, &prefix), Ok(!used));
        taken += usize::from(used);
    }
    assert_eq!(taken, 4);
}
