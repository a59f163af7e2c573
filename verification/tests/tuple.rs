//! The tuple byte encoding.

use fasm_storage::flatdir::tuple::{
    first_bytes_element, first_element_payload, pack_bytes, pack_i64, pack_string, unescape_payload, unpack_child_name,
    unpack_element_full, unpack_i64_full, unpack_string_full,
};

#[test]
fn integer_vectors() {
    assert_eq!(pack_i64(0), vec![0x14]);
    assert_eq!(pack_i64(1), vec![0x15, 0x01]);
    assert_eq!(pack_i64(-1), vec![0x13, 0xfe]);
    assert_eq!(pack_i64(100), vec![0x15, 100]);
    assert_eq!(pack_i64(255), vec![0x15, 0xff]);
    assert_eq!(pack_i64(256), vec![0x16, 0x01, 0x00]);
    assert_eq!(pack_i64(-256), vec![0x12, 0xfe, 0xff]);
    assert_eq!(pack_i64(-257), vec![0x12, 0xfe, 0xfe]);
    assert_eq!(
        pack_i64(i64::MAX),
        vec![0x1c, 0x7f, 0xff, 0xff, 0xff, 0xff, 0xff, 0xff, 0xff]
    );
    assert_eq!(
        pack_i64(i64::MIN),
        vec![0x0c, 0x7f, 0xff, 0xff, 0xff, 0xff, 0xff, 0xff, 0xff]
    );
}

#[test]
fn byte_and_string_vectors() {
    assert_eq!(pack_bytes(b""), vec![0x01, 0x00]);
    assert_eq!(pack_bytes(b"\0"), vec![0x01, 0x00, 0xff, 0x00]);
    assert_eq!(
        pack_bytes(b"foo\0bar"),
        vec![0x01, 0x66, 0x6f, 0x6f, 0x00, 0xff, 0x62, 0x61, 0x72, 0x00]
    );
    assert_eq!(pack_string(""), vec![0x02, 0x00]);
    // "FÔO\0bar" (Ô = U+00D4 = c3 94 in UTF-8).
    assert_eq!(
        pack_string("F\u{00d4}O\0bar"),
        vec![
            0x02, 0x46, 0xc3, 0x94, 0x4f, 0x00, 0xff, 0x62, 0x61, 0x72, 0x00
        ]
    );
    assert_eq!(pack_string("hca"), vec![0x02, 0x68, 0x63, 0x61, 0x00]);
}

#[test]
fn integer_round_trips() {
    let values: [i64; 18] = [
        0,
        1,
        -1,
        2,
        -2,
        127,
        128,
        -128,
        129,
        -129,
        255,
        256,
        -256,
        -257,
        0x7fff_ffff,
        i64::MAX,
        i64::MIN,
        -i64::MAX,
    ];
    for v in values {
        let packed = pack_i64(v);
        assert_eq!(unpack_i64_full(&packed), Some(v), "round trip {v}");
    }
}

#[test]
fn byte_round_trips() {
    let payloads: [&[u8]; 6] = [
        b"",
        b"\0",
        b"\0\0",
        b"foo",
        b"foo\0bar\0",
        &[0xff, 0x00, 0xff, 0x01, 0x00, 0x02],
    ];
    for p in payloads {
        assert_eq!(
            unpack_element_full(&pack_bytes(p)),
            Some(p.to_vec()),
            "round trip {p:?}"
        );
    }
    for p in ["", "a", "hca", "version", "layer", "\u{00d4}\0"] {
        assert_eq!(
            unpack_string_full(&pack_string(p)),
            Some(p.to_string()),
            "round trip {p:?}"
        );
    }
}

#[test]
fn packed_integers_are_prefix_free() {
    // The layout's core disjointness property: no packed i64 is a
    // byte-prefix of another, so `prefix ‖ key` needs no separator.
    let values: Vec<i64> = (0..4000).chain(-4000..0).collect();
    let packed: Vec<Vec<u8>> = values.iter().map(|&v| pack_i64(v)).collect();
    for (i, &a) in values.iter().enumerate() {
        let pa = &packed[i];
        for (j, &b) in values.iter().enumerate().skip(i + 1) {
            let pb = &packed[j];
            assert!(
                !pa.starts_with(pb) && !pb.starts_with(pa),
                "{a} and {b} must not prefix each other"
            );
        }
    }
}

#[test]
fn strict_decoders_reject_malformed_input() {
    assert_eq!(unpack_i64_full(&[]), None);
    assert_eq!(unpack_i64_full(&[0x14, 0x00]), None); // trailing after zero
    assert_eq!(unpack_i64_full(&[0x15]), None); // truncated payload
    assert_eq!(unpack_i64_full(&[0x00]), None); // not an integer code
    assert_eq!(unpack_i64_full(&[0x01, 0x00]), None); // an element, not an int
    // Band edges: codes 0x0b and 0x1d imply a 9-byte payload, which
    // no i64 encoding emits (i64 packs within `0x0c..=0x1c`).
    assert_eq!(unpack_i64_full(&[0x0b; 10]), None);
    assert_eq!(unpack_i64_full(&[0x1d, 0, 0, 0, 0, 0, 0, 0, 0, 0]), None);
    assert_eq!(unpack_element_full(&[]), None);
    assert_eq!(unpack_element_full(&[0x01]), None); // unterminated
    assert_eq!(unpack_element_full(&[0x01, 0x00, 0x00]), None); // trailing
    assert_eq!(unpack_element_full(&[0x14]), None); // integer code
    // A string element with invalid UTF-8 payload.
    assert_eq!(unpack_string_full(&[0x02, 0xff, 0x00]), None);
    assert_eq!(
        unpack_string_full(&[0x02, 0x41, 0x00]).unwrap(),
        "A".to_string()
    );
}

/// Non-minimal integer encodings (a leading zero payload byte)
/// decode to the same value rather than being rejected.
#[test]
fn non_minimal_integers_decode_to_the_same_value() {
    // 5 minimally packs as [0x15, 0x05]; the 2-byte form must
    // decode identically.
    assert_eq!(unpack_i64_full(&[0x15, 0x05]), Some(5));
    assert_eq!(unpack_i64_full(&[0x16, 0x00, 0x05]), Some(5));
    // -1 minimally packs as [0x13, 0xFE]; the 2-byte form must
    // decode identically.
    assert_eq!(unpack_i64_full(&[0x13, 0xFE]), Some(-1));
    assert_eq!(unpack_i64_full(&[0x12, 0xFF, 0xFE]), Some(-1));
}

#[test]
fn child_name_round_trips() {
    for name in ["", "a", "hca", "version", "\u{00d4}\0", "z z"] {
        let mut key = pack_i64(0);
        key.extend_from_slice(&pack_string(name));
        assert_eq!(unpack_child_name(&key), Some(name.to_string()));
    }
    // First element not 0.
    let mut key = pack_i64(1);
    key.extend_from_slice(&pack_string("a"));
    assert_eq!(unpack_child_name(&key), None);
    // Missing the name element.
    assert_eq!(unpack_child_name(&pack_i64(0)), None);
}

#[test]
fn first_element_of_a_node_key() {
    // A node row: NODE_PREFIX ‖ BYTES(prefix) ‖ child/layer tail.
    // Only the leading element is needed by the containment probe.
    let mut key = pack_bytes(&[0x15, 0x01]);
    key.extend_from_slice(&pack_i64(0));
    key.extend_from_slice(&pack_string("child"));
    assert_eq!(first_bytes_element(&key), Some(&[0x15, 0x01][..]));
    // An integer-led key has no leading byte-string.
    assert_eq!(first_bytes_element(&pack_i64(5)), None);
    // Unterminated payload.
    assert_eq!(first_bytes_element(&[0x01, 0x41]), None);
}

#[test]
fn escaped_payloads_unescape() {
    assert_eq!(unescape_payload(&[0x16, 0x01, 0x00, 0xff]), Some(vec![0x16, 0x01, 0x00]));
    assert_eq!(unescape_payload(&[]), Some(vec![]));
    // A zero that no escape byte follows is no payload byte.
    assert_eq!(unescape_payload(&[0x41, 0x00]), None);
    assert_eq!(unescape_payload(&[0x00, 0x01]), None);
}

#[test]
fn the_leading_payload_ignores_what_follows() {
    let mut key = pack_bytes(&[0x16, 0x01, 0x00]);
    key.extend_from_slice(&[0x14, 0x02, 0x41, 0x00]);
    assert_eq!(first_element_payload(&key), Some(vec![0x16, 0x01, 0x00]));
    assert_eq!(first_element_payload(&pack_i64(5)), None);
    assert_eq!(first_element_payload(&[0x01, 0x41]), None);
    // A terminator followed by the escape byte is an escaped zero.
    assert_eq!(first_element_payload(&[0x01, 0x41, 0x00, 0xff, 0x00]), Some(vec![0x41, 0x00]));
}

#[test]
fn codes_beyond_the_integer_band_are_no_integers() {
    for code in [0x80u8, 0x95, 0xfe, 0xff] {
        assert_eq!(unpack_i64_full(&[code, 0, 0]), None);
    }
    // An eight-byte payload beyond the range of an `i64` is refused either way.
    assert_eq!(unpack_i64_full(&[0x1c, 0x80, 0, 0, 0, 0, 0, 0, 0]), None);
    assert_eq!(unpack_i64_full(&[0x0c, 0x7f, 0xff, 0xff, 0xff, 0xff, 0xff, 0xff, 0xfe]), None);
    assert_eq!(
        unpack_i64_full(&[0x0c, 0xff, 0xff, 0xff, 0xff, 0xff, 0xff, 0xff, 0xff]),
        Some(0)
    );
}

#[test]
fn packed_integers_sort_as_the_integers_do() {
    let values = [i64::MIN, -70000, -256, -255, -1, 0, 1, 255, 256, 65536, i64::MAX];
    for pair in values.windows(2) {
        assert!(pack_i64(pair[0]) < pack_i64(pair[1]));
    }
}

#[test]
fn packed_payloads_sort_as_the_payloads_do() {
    let payloads: [&[u8]; 7] = [b"", b"\0", b"\0\0", b"\0\x01", b"\x01", b"a", b"a\0"];
    for pair in payloads.windows(2) {
        assert!(pack_bytes(pair[0]) < pack_bytes(pair[1]));
    }
}
