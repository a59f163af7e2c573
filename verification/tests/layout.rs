//! The row layouts.

use core::ops::Bound;

use fasm_storage::flatdir::layout::{
    child_key, children_key_range, counter_key, data_region, layer_key, node_key_range, node_subspace, parse_version,
    recent_key, COUNTERS_BASE, HCA_SUBSPACE, LAYOUT_VERSION, RECENT_BASE, ROOT_NODE, VERSION_KEY,
};
use fasm_storage::flatdir::tuple::{pack_i64, unpack_child_name, unpack_i64_full};
use fasm_storage::next_prefix;

#[test]
fn the_constants_are_the_layer_row_bytes() {
    // The default layer: node prefix 0xFE, root node = 0xFE || BYTES(0xFE), hca/version/
    // layer tags as byte strings, counters/recents as INT subspace.
    assert_eq!(node_subspace(&[0xFE]), ROOT_NODE.to_vec());
    assert_eq!(
        HCA_SUBSPACE,
        [0xFE, 0x01, 0xFE, 0x00, 0x01, b'h', b'c', b'a', 0x00]
    );
    assert_eq!(COUNTERS_BASE[..HCA_SUBSPACE.len()], HCA_SUBSPACE[..]);
    assert_eq!(RECENT_BASE[..HCA_SUBSPACE.len()], HCA_SUBSPACE[..]);
    assert_eq!(VERSION_KEY[..ROOT_NODE.len()], ROOT_NODE[..]);
    assert_eq!(parse_version(&LAYOUT_VERSION), Some((1, 0, 0)));
    // Version key and HCA rows sit under the root node; data and the
    // reserved region are disjoint.
    assert!(VERSION_KEY.starts_with(&ROOT_NODE));
    assert!(COUNTERS_BASE.starts_with(&ROOT_NODE));
    assert!(RECENT_BASE.starts_with(&ROOT_NODE));
    // The allocated-prefix data range (first byte 0x0c..=0x1c) never
    // touches the 0xFE node region or the 0xFF reserved region.
    for v in [0i64, 1, 255, 256, -1, i64::MAX] {
        let p = pack_i64(v);
        assert!((0x0c..=0x1c).contains(&p[0]), "{v}");
        let (start, end) = data_region(&p);
        match (start, end) {
            (Bound::Included(s), Bound::Excluded(e)) => {
                // Both ends of the data region stay below the 0xFE
                // node region: the prefix starts 0x0c..=0x1c and
                // `next_prefix` only increments within that band.
                assert!(s[0] < 0xFE && e[0] < 0xFE);
            }
            _ => panic!("data_region must be Included/Excluded"),
        }
    }
}

#[test]
fn strinc_is_next_prefix() {
    // The layout's region end is the successor of the whole prefix.
    for v in [0i64, 1, 254, 255, 256, 65534, 65535, 65536, 1_000_000] {
        let p = pack_i64(v);
        let (start, end) = data_region(&p);
        match end {
            Bound::Excluded(e) => assert_eq!(Some(e), next_prefix(&p)),
            _ => panic!(),
        }
        assert_eq!(start, Bound::Included(p));
    }
    // Region arithmetic: [prefix, strinc(prefix)) holds exactly the
    // keys prefix || k, and the end is the successor of the whole
    // prefix block.
    let p = pack_i64(255); // [0x15, 0xFF] - ends in 0xFF.
    let (start, end) = data_region(&p);
    assert_eq!(
        (start, end),
        (Bound::Included(p.clone()), Bound::Excluded(vec![0x16]))
    );
    for k in [
        b"".as_slice(),
        b"k".as_slice(),
        b"k\0".as_slice(),
        &[0xFF][..],
    ] {
        let mut raw = p.clone();
        raw.extend_from_slice(k);
        assert!(
            raw.as_slice() >= p.as_slice() && raw.as_slice() < [0x16].as_slice(),
            "key {k:?}"
        );
    }
}

#[test]
fn child_key_round_trips() {
    for name in ["a", "hca", "version", "\u{00d4}\0"] {
        let key = child_key(&ROOT_NODE, name);
        let rel = &key[ROOT_NODE.len()..];
        assert_eq!(unpack_child_name(rel), Some(name.to_string()));
    }
    // The children range holds the child rows and nothing else from
    // other row kinds: the layer row sits outside it.
    let (s, e) = children_key_range(&ROOT_NODE);
    match (s, e) {
        (Bound::Included(s), Bound::Excluded(e)) => {
            let ck = child_key(&ROOT_NODE, "a");
            assert!(ck >= s && ck < e);
            let lk = layer_key(&ROOT_NODE);
            assert!(
                lk < s || lk >= e,
                "layer row must sit outside the children range"
            );
        }
        _ => panic!(),
    }
}

#[test]
fn node_range_holds_child_and_layer_rows() {
    let node = node_subspace(&[0x15, 0x01]);
    let (s, e) = node_key_range(&node);
    match (s, e) {
        (Bound::Included(s), Bound::Excluded(e)) => {
            let ck = child_key(&node, "x");
            assert!(ck >= s && ck < e);
            let lk = layer_key(&node);
            assert!(lk >= s && lk < e);
        }
        _ => panic!(),
    }
}

#[test]
fn hca_keys_decode() {
    for (start, key) in [
        (0i64, counter_key(0)),
        (64, counter_key(64)),
        (-7, counter_key(-7)),
    ] {
        assert_eq!(unpack_i64_full(&key[COUNTERS_BASE.len()..]), Some(start));
    }
    for (cand, key) in [(0i64, recent_key(0)), (4096, recent_key(4096))] {
        assert_eq!(unpack_i64_full(&key[RECENT_BASE.len()..]), Some(cand));
    }
}

#[test]
fn short_versions_do_not_parse() {
    assert_eq!(parse_version(&[1, 0, 0, 0, 0, 0, 0, 0, 0, 0, 0]), None);
    // Bytes behind the first twelve are tolerated.
    assert_eq!(
        parse_version(&[2, 1, 0, 0, 3, 0, 0, 0, 4, 0, 0, 1, 9]),
        Some((0x102, 3, 0x0100_0004))
    );
}
