//! The byte order and its ranges.

use core::ops::Bound;

use fasm_storage::keyspace::{bound_as_slice, bound_to_owned, is_empty_range, key_in_bounds, next_prefix, prefix_range};

#[test]
fn next_prefix_increments_last_non_ff_byte() {
    assert_eq!(next_prefix(&[0x00]), Some(vec![0x01]));
    assert_eq!(next_prefix(&[0x10, 0x20]), Some(vec![0x10, 0x21]));
    assert_eq!(next_prefix(&[0xFE]), Some(vec![0xFF]));
}

#[test]
fn next_prefix_carries_and_truncates() {
    assert_eq!(next_prefix(&[0x10, 0xFF]), Some(vec![0x11]));
    assert_eq!(next_prefix(&[0x10, 0xFF, 0xFF]), Some(vec![0x11]));
    assert_eq!(next_prefix(&[0x00, 0xFF, 0xFF]), Some(vec![0x01]));
}

#[test]
fn next_prefix_has_no_successor_for_all_ff_or_empty() {
    assert_eq!(next_prefix(&[0xFF]), None);
    assert_eq!(next_prefix(&[0xFF, 0xFF, 0xFF]), None);
    assert_eq!(next_prefix(&[]), None);
}

#[test]
fn prefix_range_bounds_the_namespace() {
    let (start, end) = prefix_range(&[0x10, 0x20]);
    assert_eq!(start, Bound::Included(vec![0x10, 0x20]));
    assert_eq!(end, Bound::Excluded(vec![0x10, 0x21]));
}

#[test]
fn prefix_range_is_unbounded_above_for_all_ff() {
    let (start, end) = prefix_range(&[0xFF, 0xFF]);
    assert_eq!(start, Bound::Included(vec![0xFF, 0xFF]));
    assert_eq!(end, Bound::Unbounded);

    // The `Unbounded` answer is the correct one: longer all-0xFF keys are
    // inside the namespace and must not be excluded.
    let inside: &[u8] = &[0xFF, 0xFF, 0xFF];
    assert!(inside.starts_with(&[0xFF, 0xFF]));
}

#[test]
fn empty_range_covers_inverted_and_equal_exclusive_bounds() {
    assert!(is_empty_range(
        &Bound::Included(b"z"),
        &Bound::Excluded(b"a")
    ));
    assert!(is_empty_range(
        &Bound::Excluded(b"z"),
        &Bound::Included(b"a")
    ));
    assert!(is_empty_range(
        &Bound::Excluded(b"k"),
        &Bound::Excluded(b"k")
    ));
    assert!(is_empty_range(
        &Bound::Included(b"k"),
        &Bound::Excluded(b"k")
    ));
    assert!(is_empty_range(
        &Bound::Excluded(b"k"),
        &Bound::Included(b"k")
    ));

    assert!(!is_empty_range(
        &Bound::Included(b"k"),
        &Bound::Included(b"k")
    ));
    assert!(!is_empty_range(&Bound::Unbounded, &Bound::Excluded(b"k")));
    assert!(!is_empty_range(&Bound::Included(b"k"), &Bound::Unbounded));
}

/// Keys over a small alphabet, up to three bytes long.
fn keys() -> Vec<Vec<u8>> {
    let alphabet = [0x00u8, 0x01, 0xFE, 0xFF];
    let mut out: Vec<Vec<u8>> = vec![vec![]];
    let mut last: Vec<Vec<u8>> = vec![vec![]];
    for _ in 0..3 {
        let mut longer = Vec::new();
        for k in &last {
            for b in alphabet {
                let mut k = k.clone();
                k.push(b);
                longer.push(k);
            }
        }
        out.extend(longer.iter().cloned());
        last = longer;
    }
    out
}

/// Whether `key` lies inside `bounds`, by plain lexicographic byte comparison.
fn bounds_contain(bounds: &(Bound<Vec<u8>>, Bound<Vec<u8>>), key: &[u8]) -> bool {
    let above_start = match &bounds.0 {
        Bound::Included(start) => key >= start.as_slice(),
        Bound::Excluded(start) => key > start.as_slice(),
        Bound::Unbounded => true,
    };
    let below_end = match &bounds.1 {
        Bound::Included(end) => key <= end.as_slice(),
        Bound::Excluded(end) => key < end.as_slice(),
        Bound::Unbounded => true,
    };
    above_start && below_end
}

#[test]
fn prefix_ranges_select_exactly_the_prefixed_keys() {
    let keys = keys();
    for prefix in &keys {
        let range = prefix_range(prefix);
        for key in &keys {
            assert_eq!(key.starts_with(prefix), bounds_contain(&range, key));
        }
    }
}

#[test]
fn a_prefix_successor_exceeds_every_extension() {
    let keys = keys();
    for prefix in &keys {
        let next = next_prefix(prefix);
        assert_eq!(next.is_none(), prefix.iter().all(|byte| *byte == 0xFF));
        if let Some(next) = next {
            for tail in &keys {
                let mut key = prefix.clone();
                key.extend_from_slice(tail);
                assert!(key < next);
            }
        }
    }
}

#[test]
fn crossed_bounds_hold_no_key() {
    let keys = keys();
    let few: Vec<&Vec<u8>> = keys.iter().take(21).collect();
    for a in &few {
        for b in &few {
            for s in [Bound::Unbounded, Bound::Included((*a).clone()), Bound::Excluded((*a).clone())] {
                for e in [Bound::Unbounded, Bound::Included((*b).clone()), Bound::Excluded((*b).clone())] {
                    let bounds = (s.clone(), e.clone());
                    for key in &few {
                        assert_eq!(key_in_bounds(key, &bound_as_slice(&s), &bound_as_slice(&e)), bounds_contain(&bounds, key));
                        if is_empty_range(&bound_as_slice(&s), &bound_as_slice(&e)) {
                            assert!(!bounds_contain(&bounds, key));
                        }
                    }
                }
            }
        }
    }
}

#[test]
fn bound_conversions_round_trip() {
    for bound in [Bound::Unbounded, Bound::Included(vec![1, 2]), Bound::Excluded(vec![])] {
        assert_eq!(bound_to_owned(bound_as_slice(&bound)), bound);
    }
}
