//! Byte strings, the ordered byte map, overlays and cursors.

use core::ops::Bound;

use fasm_storage::bytemap::ByteMap;
use fasm_storage::bytes::{bytes_eq, bytes_lt, concat_bytes, copy_bytes, copy_tail, has_prefix};
use fasm_storage::cursor::advance;
use fasm_storage::overlay::{merged_clear, merged_get, merged_scan};
use fasm_storage::{DataBounds, KvPair};

#[test]
fn byte_strings_compare_lexicographically() {
    let strings: [&[u8]; 6] = [b"", b"\0", b"a", b"a\0", b"b", b"\xFF"];
    for (i, a) in strings.iter().enumerate() {
        for (j, b) in strings.iter().enumerate() {
            assert_eq!(bytes_lt(a, b), i < j);
            assert_eq!(bytes_eq(a, b), i == j);
            assert_eq!(has_prefix(a, b), a.starts_with(b));
        }
    }
    assert_eq!(copy_bytes(b"ab"), b"ab".to_vec());
    assert_eq!(concat_bytes(b"ab", b"c"), b"abc".to_vec());
    assert_eq!(copy_tail(b"abc", 1), b"bc".to_vec());
    assert_eq!(copy_tail(b"abc", 3), Vec::<u8>::new());
}

fn sample() -> ByteMap<u8> {
    let mut m = ByteMap::new();
    for (k, v) in [(b"d", 4), (b"b", 2), (b"a", 1), (b"c", 9), (b"c", 3)] {
        m.insert(k, v);
    }
    m
}

#[test]
fn a_byte_map_is_sorted_and_holds_each_key_once() {
    let mut m = sample();
    assert_eq!(m.len(), 4);
    for (i, k) in [b"a", b"b", b"c", b"d"].iter().enumerate() {
        assert_eq!(m.key_at(i), &k[..]);
        assert_eq!(*m.value_at(i), i as u8 + 1);
        assert_eq!(m.find(&k[..]), Some(i));
    }
    assert_eq!(m.lower_bound(b"bb"), 2);
    assert_eq!(m.get(b"c"), Some(&3));
    m.remove(b"c");
    m.remove(b"zz");
    assert!(!m.contains(b"c"));
    assert_eq!(m.len(), 3);
}

#[test]
fn a_byte_map_range_is_a_run_of_positions() {
    let m = sample();
    assert_eq!(m.range(&Bound::Unbounded, &Bound::Unbounded), (0, 4));
    assert_eq!(m.range(&Bound::Excluded(b"a"), &Bound::Included(b"c")), (1, 3));
    assert_eq!(m.range(&Bound::Included(b"bb"), &Bound::Excluded(b"d")), (2, 3));
    let (lo, hi) = m.range(&Bound::Included(b"d"), &Bound::Excluded(b"b"));
    assert!(hi <= lo);
}

#[test]
fn an_overlay_shadows_its_base() {
    let mut base: ByteMap<Vec<u8>> = ByteMap::new();
    for k in [b"a", b"b", b"c"] {
        base.insert(k, b"base".to_vec());
    }
    let mut buffer: ByteMap<Option<Vec<u8>>> = ByteMap::new();
    buffer.insert(b"b", None);
    buffer.insert(b"c", Some(b"over".to_vec()));
    buffer.insert(b"d", Some(b"new".to_vec()));
    assert_eq!(merged_get(&base, &buffer, b"a"), Some(b"base".to_vec()));
    assert_eq!(merged_get(&base, &buffer, b"b"), None);
    assert_eq!(merged_get(&base, &buffer, b"c"), Some(b"over".to_vec()));
    let scan = |buffer: &ByteMap<Option<Vec<u8>>>| -> Vec<Vec<u8>> {
        merged_scan(&base, buffer, Bound::Unbounded, Bound::Unbounded).into_iter().map(|p| p.key).collect()
    };
    assert_eq!(scan(&buffer), vec![b"a".to_vec(), b"c".to_vec(), b"d".to_vec()]);
    merged_clear(&base, &mut buffer, Bound::Included(b"a"), Bound::Excluded(b"d"));
    assert_eq!(scan(&buffer), vec![b"d".to_vec()]);
}

#[test]
fn a_cursor_moves_its_bound_past_the_row() {
    let bounds = || DataBounds {
        prefix: vec![0x15],
        start: Bound::Included(vec![0x15]),
        end: Bound::Excluded(vec![0x16]),
    };
    let row = || KvPair { key: vec![0x15, b'k'], value: b"v".to_vec() };
    let (pair, rest) = advance(bounds(), row(), false);
    assert_eq!((pair.key, pair.value), (b"k".to_vec(), b"v".to_vec()));
    assert_eq!(rest.start, Bound::Excluded(vec![0x15, b'k']));
    assert_eq!(rest.end, Bound::Excluded(vec![0x16]));
    let (_, rest) = advance(bounds(), row(), true);
    assert_eq!(rest.start, Bound::Included(vec![0x15]));
    assert_eq!(rest.end, Bound::Excluded(vec![0x15, b'k']));
}

#[test]
fn clearing_leaves_a_tombstone_for_each_key_that_was_there() {
    let mut base: ByteMap<Vec<u8>> = ByteMap::new();
    for k in [b"a", b"b", b"e"] {
        base.insert(k, b"base".to_vec());
    }
    let mut buffer: ByteMap<Option<Vec<u8>>> = ByteMap::new();
    buffer.insert(b"c", Some(b"over".to_vec()));
    buffer.insert(b"f", Some(b"kept".to_vec()));
    merged_clear(&base, &mut buffer, Bound::Excluded(b"a"), Bound::Excluded(b"e"));
    let held: Vec<(Vec<u8>, Option<Vec<u8>>)> =
        (0..buffer.len()).map(|i| (buffer.key_at(i).to_vec(), buffer.value_at(i).clone())).collect();
    assert_eq!(
        held,
        vec![(b"b".to_vec(), None), (b"c".to_vec(), None), (b"f".to_vec(), Some(b"kept".to_vec()))]
    );
    assert!(merged_scan(&base, &buffer, Bound::Excluded(b"a"), Bound::Excluded(b"e")).is_empty());
    assert_eq!(base.len(), 3);
}
