//! The allocator.

use core::ops::Bound;

use fasm_storage::btreemap::BufWriteView;
use fasm_storage::bytemap::ByteMap;
use fasm_storage::flatdir::hca::{allocate, claim_candidate, last_window_start, window_size, CandidateSource};
use fasm_storage::flatdir::layout::{counter_key, recent_key, COUNTERS_BASE};
use fasm_storage::{FlatError, RawKv};
use rand::RngExt;

/// A raw view over an empty base, with its writes in a buffer.
fn mem() -> BufWriteView<'static> {
    let base: &'static ByteMap<Vec<u8>> = Box::leak(Box::new(ByteMap::new()));
    BufWriteView::new(base, ByteMap::new())
}

/// A deterministic generator.
struct Lcg(u64);

impl Lcg {
    /// A generator with the given initial state.
    fn new(state: u64) -> Self {
        Lcg(state)
    }

    fn step(&mut self) -> u64 {
        self.0 = self.0.wrapping_mul(6364136223846793005).wrapping_add(1442695040888963407);
        self.0
    }
}

impl rand::TryRng for Lcg {
    type Error = core::convert::Infallible;

    fn try_next_u32(&mut self) -> Result<u32, Self::Error> {
        Ok((self.step() >> 32) as u32)
    }
    fn try_next_u64(&mut self) -> Result<u64, Self::Error> {
        Ok(self.step())
    }
    fn try_fill_bytes(&mut self, dst: &mut [u8]) -> Result<(), Self::Error> {
        for chunk in dst.chunks_mut(8) {
            let v = self.try_next_u64()?;
            chunk.copy_from_slice(&v.to_le_bytes()[..chunk.len()]);
        }
        Ok(())
    }
}

impl CandidateSource for Lcg {
    fn pick(&mut self, lo: i64, hi: i64) -> i64 {
        self.random_range(lo..hi)
    }
}

fn last_window(raw: &BufWriteView<'static>) -> i64 {
    last_window_start(raw).unwrap()
}

#[test]
fn window_sizes_are_the_layer_thresholds() {
    assert_eq!(window_size(0), 64);
    assert_eq!(window_size(254), 64);
    assert_eq!(window_size(255), 1024);
    assert_eq!(window_size(65535 - 1), 1024);
    assert_eq!(window_size(65535), 8192);
    assert_eq!(window_size(100_000_000), 8192);
}

#[test]
fn the_first_allocation_lands_in_the_first_window() {
    let mut raw = mem();
    let mut rng = Lcg::new(1);
    let v = allocate(&mut raw, &mut rng).unwrap();
    assert!((0..64).contains(&v));
    // The counter row is 1 (LE) at the window start.
    assert_eq!(
        raw.get(&counter_key(0)).unwrap(),
        Some(vec![1, 0, 0, 0, 0, 0, 0, 0])
    );
    // The claimed recent row is empty.
    assert_eq!(raw.get(&recent_key(v)).unwrap(), Some(vec![]));
    assert_eq!(last_window(&raw), 0);
}

#[test]
fn a_taken_candidate_is_skipped() {
    // The first candidate for seed 1 in window 0, from an empty
    // store:
    let mut raw = mem();
    let mut probe = Lcg::new(1);
    let first = allocate(&mut raw, &mut probe).unwrap();

    // Pre-claim that candidate (a concurrent creation's leftover
    // recent row) and allocate again with the same seed: the
    // allocator must skip it and claim the next candidate instead.
    let mut raw = mem();
    raw.insert(&recent_key(first), &[]).unwrap();
    let mut rng = Lcg::new(1);
    let v = allocate(&mut raw, &mut rng).unwrap();
    assert_ne!(v, first);
    assert!((0..64).contains(&v));
    // Both recent rows exist (the pre-claimed one and the new one).
    assert_eq!(raw.get(&recent_key(first)).unwrap(), Some(vec![]));
    assert_eq!(raw.get(&recent_key(v)).unwrap(), Some(vec![]));
}

#[test]
fn the_window_advances_at_the_layer_threshold() {
    // Window 0 (size 64): the advance fires when count * 2 >= 64,
    // i.e. after 32 allocations. The 33rd allocation advances to
    // window start 64 and clears window 0's counter and recent rows.
    let mut raw = mem();
    let mut rng = Lcg::new(7);
    let mut prefixes: Vec<i64> = Vec::new();
    for _ in 0..33 {
        prefixes.push(allocate(&mut raw, &mut rng).unwrap());
    }
    assert_eq!(
        prefixes.len(),
        prefixes
            .iter()
            .collect::<std::collections::BTreeSet<_>>()
            .len(),
        "all distinct"
    );
    assert_eq!(raw.get(&counter_key(0)).unwrap(), None);
    assert_eq!(
        raw.get(&counter_key(64)).unwrap(),
        Some(vec![1, 0, 0, 0, 0, 0, 0, 0])
    );
    assert_eq!(raw.get(&recent_key(0)).unwrap(), None);
    assert!((64..128).contains(&prefixes[32]));
}

#[test]
fn a_corrupt_counter_row_is_corrupt_not_a_panic() {
    let mut raw = mem();
    raw.insert(&counter_key(0), &[1, 2, 3]).unwrap(); // not 8 bytes LE
    let mut rng = Lcg::new(1);
    assert_eq!(
        allocate(&mut raw, &mut rng).unwrap_err(),
        FlatError::Corrupt
    );
}

#[test]
fn a_malformed_window_key_is_corrupt() {
    let mut raw = mem();
    // A row inside the counters subspace whose relative key is not a
    // well-formed packed i64.
    let mut key = COUNTERS_BASE.to_vec();
    key.extend_from_slice(&[0x99, 0x00]);
    raw.insert(&key, &[1, 0, 0, 0, 0, 0, 0, 0]).unwrap();
    let mut rng = Lcg::new(1);
    assert_eq!(
        allocate(&mut raw, &mut rng).unwrap_err(),
        FlatError::Corrupt
    );
}

#[test]
fn a_claim_says_whether_the_candidate_was_free() {
    let mut raw = mem();
    assert_eq!(claim_candidate(&mut raw, 5), Ok(true));
    assert_eq!(raw.get(&recent_key(5)).unwrap(), Some(vec![]));
    assert_eq!(claim_candidate(&mut raw, 5), Ok(false));
}

#[test]
fn a_full_window_is_corrupt_not_an_endless_search() {
    let mut raw = mem();
    for c in 0..64 {
        raw.insert(&recent_key(c), &[]).unwrap();
    }
    assert_eq!(allocate(&mut raw, &mut Lcg::new(1)), Err(FlatError::Corrupt));
    // With one candidate left, that one is found.
    raw.delete(&recent_key(41)).unwrap();
    assert_eq!(allocate(&mut raw, &mut Lcg::new(1)), Ok(41));
}

#[test]
fn exhausted_windows_are_corrupt() {
    let mut raw = mem();
    raw.insert(&counter_key(i64::MAX - 10), &[0; 8]).unwrap();
    assert_eq!(allocate(&mut raw, &mut Lcg::new(1)), Err(FlatError::Corrupt));
    let mut raw = mem();
    raw.insert(&counter_key(0), &i64::MAX.to_le_bytes()).unwrap();
    assert_eq!(allocate(&mut raw, &mut Lcg::new(1)), Err(FlatError::Corrupt));
}

#[test]
fn the_thread_generator_draws_from_the_window() {
    let mut raw = mem();
    let mut rng = rand::rng();
    let v = allocate(&mut raw, &mut rng).unwrap();
    assert!((0..64).contains(&v));
    // Two bounds one apart leave no choice.
    assert_eq!(CandidateSource::pick(&mut rng, 7, 8), 7);
}

/// A refusal over a malformed row leaves the store as it is.
#[test]
fn a_corrupt_counter_is_left_as_it_is() {
    let mut raw = mem();
    raw.insert(&counter_key(0), &[1, 2, 3]).unwrap();
    assert_eq!(allocate(&mut raw, &mut Lcg::new(1)), Err(FlatError::Corrupt));
    let rows = raw.scan(Bound::Unbounded, Bound::Unbounded, true).unwrap();
    assert_eq!(rows.len(), 1);
    assert_eq!((rows[0].key.clone(), rows[0].value.clone()), (counter_key(0), vec![1, 2, 3]));
}

/// Values differ across window moves, one counter row is left, and it counts the
/// allocations of its window.
#[test]
fn allocations_differ_and_leave_one_counter() {
    let mut raw = mem();
    let mut rng = Lcg::new(3);
    let mut seen = std::collections::BTreeSet::new();
    let mut last = 0;
    for _ in 0..200 {
        let before = last_window(&raw);
        let v = allocate(&mut raw, &mut rng).unwrap();
        assert!(seen.insert(v));
        let s = last_window(&raw);
        assert!(s >= before && s >= last);
        assert!((s..s + window_size(s)).contains(&v));
        let mut end = COUNTERS_BASE.to_vec();
        end.push(0xFF);
        let counters = raw.scan(Bound::Included(&COUNTERS_BASE), Bound::Excluded(&end), true).unwrap();
        assert_eq!(counters.len(), 1);
        assert_eq!(counters[0].key, counter_key(s));
        let count = i64::from_le_bytes(counters[0].value.clone().try_into().unwrap());
        assert_eq!(count, seen.iter().filter(|v| **v >= s).count() as i64);
        last = s;
    }
}
