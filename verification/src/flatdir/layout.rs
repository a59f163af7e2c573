//! The exact row layouts of the flat directory layout.
//!
//! This module holds the layout constants and the builders that turn a
//! directory node, a segment name, or an allocated prefix into the raw row keys
//! and regions the layout operates on. Every row form is the one the
//! FoundationDB directory layer writes into a FoundationDB keyspace:
//!
//! | Row | Key | Value |
//! |-----|-----|-------|
//! | version | [`VERSION_KEY`] | 12 bytes: major, minor, patch as little-endian `u32` (1.0.0) |
//! | HCA counter | [`COUNTERS_BASE`] ‖ packed `i64` window start | 8-byte little-endian allocation count |
//! | HCA recent | [`RECENT_BASE`] ‖ packed `i64` candidate | empty |
//! | child | [`child_key`]: node ‖ `i64(0)` ‖ STRING(segment) | the child's allocated prefix (raw bytes) |
//! | layer | [`layer_key`]: node ‖ BYTES("layer") | layer bytes (always empty in this layout) |
//! | data | allocated prefix ‖ key | the value |
//!
//! Key regions by first byte:
//!
//! | First byte | Content |
//! |---|---|
//! | `0x00`–`0xFD` | Data keys: an allocated prefix ‖ key |
//! | `0xFE` | Directory nodes: [`NODE_PREFIX`] ‖ BYTES(allocated prefix), each holding its child rows and layer row; the version key and the HCA counter/recent rows live under the root node in this region |
//! | `0xFF` | Reserved (empty forever) |
//!
//! Allocated prefixes are packed `i64`s: prefix-free (no one is a byte-prefix
//! of another) and always starting `0x0c..=0x1c`, so a data key needs no
//! separator byte and no data key can collide with another directory's data
//! keys, the meta region, or the reserved region.

use core::ops::Bound;

use vstd::prelude::*;

use crate::bytes::{concat_bytes, copy_bytes, le, lt, parts_at, starts_with, tail};
use crate::flatdir::tuple::{
    bytes_element, element, int_element, lemma_pow256_values, pack_bytes, pack_i64, pack_string,
    pow256, CODE_STRING,
};
use crate::keyspace::{in_range, owned_bound_of, successor};

verus! {

/// The raw first byte of every directory-node key.
pub const NODE_PREFIX: [u8; 1] = [0xFE];

/// The reserved first byte: no row of this layout starts with it.
pub const RESERVED_BYTE: u8 = 0xFF;

/// The root node: `NODE_PREFIX ‖ BYTES([0xFE])`.
pub const ROOT_NODE: [u8; 4] = [0xFE, 0x01, 0xFE, 0x00];

/// The HCA subspace: root node ‖ BYTES("hca").
pub const HCA_SUBSPACE: [u8; 9] = [0xFE, 0x01, 0xFE, 0x00, 0x01, 0x68, 0x63, 0x61, 0x00];

/// HCA counters subspace: HCA ‖ INT(0).
pub const COUNTERS_BASE: [u8; 10] = [0xFE, 0x01, 0xFE, 0x00, 0x01, 0x68, 0x63, 0x61, 0x00, 0x14];

/// HCA recents subspace: HCA ‖ INT(1).
pub const RECENT_BASE: [u8; 11] = [
    0xFE, 0x01, 0xFE, 0x00, 0x01, 0x68, 0x63, 0x61, 0x00, 0x15, 0x01,
];

/// The version key: root node ‖ BYTES("version").
pub const VERSION_KEY: [u8; 13] = [
    0xFE, 0x01, 0xFE, 0x00, 0x01, 0x76, 0x65, 0x72, 0x73, 0x69, 0x6F, 0x6E, 0x00,
];

/// The layer-row tag: a node's layer row is `node ‖ BYTES("layer")`.
pub const LAYER_TAG: [u8; 7] = [0x01, 0x6C, 0x61, 0x79, 0x65, 0x72, 0x00];

/// The version this layout writes and reads: 1.0.0 as three little-endian
/// `u32`s.
pub const LAYOUT_VERSION: [u8; 12] = [1, 0, 0, 0, 0, 0, 0, 0, 0, 0, 0, 0];

/// The root directory of a store maps to the layer path starting with this
/// segment; every directory path is `[ROOT_PATH_SEGMENT] ‖ dir`.
///
/// The segment is valid UTF-8 and contains a NUL, which no user segment
/// validation would reject but which keeps the anchor unforgeable from a single
/// user path level.
pub const ROOT_PATH_SEGMENT: &'static str = "\0fasm-storage";

/// The node subspace of a prefix.
pub open spec fn node(prefix: Seq<u8>) -> Seq<u8> {
    NODE_PREFIX@ + bytes_element(prefix)
}

/// The child-row key under the node `n` for the segment with UTF-8 bytes `seg`.
pub open spec fn child_row(n: Seq<u8>, seg: Seq<u8>) -> Seq<u8> {
    n + int_element(0) + element(CODE_STRING, seg)
}

/// The layer-row key of the node `n`.
pub open spec fn layer_row(n: Seq<u8>) -> Seq<u8> {
    n + LAYER_TAG@
}

/// The counter key of a window start.
pub open spec fn counter_row(start: int) -> Seq<u8> {
    COUNTERS_BASE@ + int_element(start)
}

/// The recent key of a candidate.
pub open spec fn recent_row(candidate: int) -> Seq<u8> {
    RECENT_BASE@ + int_element(candidate)
}

/// The constants are what the tuple encoding makes of their parts.
pub proof fn lemma_layout_constants()
    ensures
        NODE_PREFIX@ == seq![0xFEu8],
        ROOT_NODE@ == node(NODE_PREFIX@),
        HCA_SUBSPACE@ == ROOT_NODE@ + bytes_element(seq![0x68u8, 0x63u8, 0x61u8]),
        COUNTERS_BASE@ == HCA_SUBSPACE@ + int_element(0),
        RECENT_BASE@ == HCA_SUBSPACE@ + int_element(1),
        VERSION_KEY@ == ROOT_NODE@ + bytes_element(
            seq![0x76u8, 0x65u8, 0x72u8, 0x73u8, 0x69u8, 0x6Fu8, 0x6Eu8],
        ),
        LAYER_TAG@ == bytes_element(seq![0x6Cu8, 0x61u8, 0x79u8, 0x65u8, 0x72u8]),
{
    assert(NODE_PREFIX@ =~= seq![0xFEu8]);
    lemma_plain_escape(seq![0xFEu8]);
    assert(ROOT_NODE@ =~= node(NODE_PREFIX@));
    lemma_plain_escape(seq![0x68u8, 0x63u8, 0x61u8]);
    assert(HCA_SUBSPACE@ =~= ROOT_NODE@ + bytes_element(seq![0x68u8, 0x63u8, 0x61u8]));
    assert(COUNTERS_BASE@ =~= HCA_SUBSPACE@ + int_element(0));
    reveal_with_fuel(crate::flatdir::tuple::byte_len, 3);
    reveal_with_fuel(crate::flatdir::tuple::be, 3);
    assert(int_element(1) =~= seq![0x15u8, 0x01u8]);
    assert(RECENT_BASE@ =~= HCA_SUBSPACE@ + int_element(1));
    lemma_plain_escape(seq![0x76u8, 0x65u8, 0x72u8, 0x73u8, 0x69u8, 0x6Fu8, 0x6Eu8]);
    assert(VERSION_KEY@ =~= ROOT_NODE@ + bytes_element(
        seq![0x76u8, 0x65u8, 0x72u8, 0x73u8, 0x69u8, 0x6Fu8, 0x6Eu8],
    ));
    lemma_plain_escape(seq![0x6Cu8, 0x61u8, 0x79u8, 0x65u8, 0x72u8]);
    assert(LAYER_TAG@ =~= bytes_element(seq![0x6Cu8, 0x61u8, 0x79u8, 0x65u8, 0x72u8]));
}

/// A payload without zero bytes is its own escaped form.
proof fn lemma_plain_escape(p: Seq<u8>)
    requires
        forall|i: int| 0 <= i < p.len() ==> p[i] != 0,
    ensures
        crate::flatdir::tuple::escape(p) == p,
    decreases p.len(),
{
    if p.len() > 0 {
        lemma_plain_escape(tail(p, 1));
        assert(crate::flatdir::tuple::escape(p) =~= p);
    } else {
        assert(crate::flatdir::tuple::escape(p) =~= p);
    }
}

// ---------------------------------------------------------------------------
// Little-endian numbers
// ---------------------------------------------------------------------------

/// The number that a little-endian byte string stands for.
pub open spec fn le_value(s: Seq<u8>) -> nat
    decreases s.len(),
{
    if s.len() == 0 {
        0
    } else {
        s[0] as nat + 256 * le_value(tail(s, 1))
    }
}

/// The low `n` bytes of `v`, least significant first.
pub open spec fn le_bytes(v: nat, n: nat) -> Seq<u8>
    decreases n,
{
    if n == 0 {
        Seq::empty()
    } else {
        seq![(v % 256) as u8] + le_bytes(v / 256, (n - 1) as nat)
    }
}

/// The signed number that eight little-endian bytes stand for.
pub open spec fn le_i64(s: Seq<u8>) -> int {
    let u = le_value(s) as int;
    if u <= i64::MAX {
        u
    } else {
        u - 0x1_0000_0000_0000_0000
    }
}

/// The eight little-endian bytes of a signed number.
pub open spec fn le_i64_bytes(v: int) -> Seq<u8> {
    le_bytes(
        (if v >= 0 {
            v
        } else {
            v + 0x1_0000_0000_0000_0000
        }) as nat,
        8,
    )
}

proof fn lemma_le_value_bound(s: Seq<u8>)
    ensures
        le_value(s) < pow256(s.len()),
    decreases s.len(),
{
    if s.len() > 0 {
        lemma_le_value_bound(tail(s, 1));
    }
}

proof fn lemma_le_round_trip(v: nat, n: nat)
    requires
        v < pow256(n),
    ensures
        le_bytes(v, n).len() == n,
        le_value(le_bytes(v, n)) == v,
    decreases n,
{
    if n > 0 {
        lemma_le_round_trip(v / 256, (n - 1) as nat);
        assert(tail(le_bytes(v, n), 1) =~= le_bytes(v / 256, (n - 1) as nat));
    }
}

/// Writing an `i64` and reading it back is the identity.
pub proof fn lemma_le_i64_round_trip(v: int)
    requires
        i64::MIN <= v <= i64::MAX,
    ensures
        le_i64_bytes(v).len() == 8,
        le_i64(le_i64_bytes(v)) == v,
{
    lemma_pow256_values();
    let u: int = if v >= 0 {
        v
    } else {
        v + 0x1_0000_0000_0000_0000
    };
    lemma_le_round_trip(u as nat, 8);
}

/// Reads four little-endian bytes from `at` on.
fn read_le_u32(s: &[u8], at: usize) -> (v: u32)
    requires
        at + 4 <= s@.len(),
    ensures
        v == le_value(s@.subrange(at as int, at + 4)),
{
    proof {
        let t = s@.subrange(at as int, at + 4);
        reveal_with_fuel(le_value, 5);
        assert(tail(t, 1)[0] == t[1]);
        assert(tail(tail(t, 1), 1)[0] == t[2]);
        assert(tail(tail(tail(t, 1), 1), 1)[0] == t[3]);
    }
    s[at] as u32 + 256 * (s[at + 1] as u32 + 256 * (s[at + 2] as u32 + 256 * (s[at + 3] as u32)))
}

/// Reads the eight bytes of a counter value.
pub(crate) fn read_count(s: &[u8]) -> (v: i64)
    requires
        s@.len() == 8,
    ensures
        v == le_i64(s@),
{
    let lo = read_le_u32(s, 0);
    let hi = read_le_u32(s, 4);
    proof {
        let l = s@.subrange(0, 4);
        let h = s@.subrange(4, 8);
        lemma_le_value_split(s@, 4);
        assert(tail(s@, 4) =~= h);
        lemma_pow256_values();
        lemma_le_value_bound(h);
        lemma_le_value_bound(l);
    }
    let u: u64 = lo as u64 + 0x1_0000_0000 * (hi as u64);
    if u <= i64::MAX as u64 {
        u as i64
    } else {
        -((u64::MAX - u) as i64) - 1
    }
}

proof fn lemma_le_value_split(s: Seq<u8>, n: nat)
    requires
        n <= s.len(),
    ensures
        le_value(s) == le_value(s.subrange(0, n as int)) + pow256(n) * le_value(tail(s, n)),
    decreases n,
{
    if n == 0 {
        assert(tail(s, 0) =~= s);
        assert(pow256(0) == 1);
        assert(1 * le_value(s) == le_value(s));
    } else {
        lemma_le_value_split(tail(s, 1), (n - 1) as nat);
        assert(tail(tail(s, 1), (n - 1) as nat) =~= tail(s, n));
        assert(tail(s.subrange(0, n as int), 1) =~= tail(s, 1).subrange(0, n - 1));
        let a = le_value(tail(s, 1).subrange(0, n - 1)) as int;
        let b = pow256((n - 1) as nat) as int;
        let c = le_value(tail(s, n)) as int;
        assert(256 * (a + b * c) == 256 * a + (256 * b) * c) by (nonlinear_arith);
        assert(pow256(n) == 256 * pow256((n - 1) as nat));
        assert(s.subrange(0, n as int)[0] == s[0]);
    }
}

/// Appends the low `n` bytes of `v`, least significant first.
fn push_le(out: &mut Vec<u8>, v: u64, n: usize)
    ensures
        final(out)@ == old(out)@ + le_bytes(v as nat, n as nat),
    decreases n,
{
    if n == 0 {
        assert(out@ =~= old(out)@ + le_bytes(v as nat, 0));
    } else {
        out.push((v % 256) as u8);
        push_le(out, v / 256, n - 1);
        assert(out@ =~= old(out)@ + le_bytes(v as nat, n as nat));
    }
}

/// The eight bytes of a counter value.
pub(crate) fn count_bytes(v: i64) -> (r: Vec<u8>)
    ensures
        r@ == le_i64_bytes(v as int),
{
    let u: u64 = if v >= 0 {
        v as u64
    } else {
        u64::MAX - ((-(v + 1)) as u64)
    };
    let mut out: Vec<u8> = Vec::new();
    push_le(&mut out, u, 8);
    assert(out@ =~= le_i64_bytes(v as int));
    out
}

/// The version that a version value states, where it is long enough.
pub open spec fn version_of(value: Seq<u8>) -> Option<(nat, nat, nat)> {
    if value.len() < 12 {
        None
    } else {
        Some(
            (
                le_value(value.subrange(0, 4)),
                le_value(value.subrange(4, 8)),
                le_value(value.subrange(8, 12)),
            ),
        )
    }
}

/// Parse a version value: three little-endian `u32`s (major, minor, patch).
/// `None` when the value is shorter than 12 bytes (trailing bytes beyond 12
/// are tolerated).
pub fn parse_version(value: &[u8]) -> (r: Option<(u32, u32, u32)>)
    ensures
        match r {
            Some((major, minor, patch)) => version_of(value@) == Some(
                (major as nat, minor as nat, patch as nat),
            ),
            None => version_of(value@) is None,
        },
{
    if value.len() < 12 {
        return None;
    }
    Some((read_le_u32(value, 0), read_le_u32(value, 4), read_le_u32(value, 8)))
}

/// The version row this layout writes states version 1.0.0.
pub proof fn lemma_layout_version()
    ensures
        version_of(LAYOUT_VERSION@) == Some((1nat, 0nat, 0nat)),
{
    let v = LAYOUT_VERSION@;
    reveal_with_fuel(le_value, 5);
    assert(v.subrange(0, 4) =~= seq![1u8, 0u8, 0u8, 0u8]);
    assert(v.subrange(4, 8) =~= seq![0u8, 0u8, 0u8, 0u8]);
    assert(v.subrange(8, 12) =~= seq![0u8, 0u8, 0u8, 0u8]);
}

// ---------------------------------------------------------------------------
// Row keys and regions
// ---------------------------------------------------------------------------

/// The node subspace of an allocated prefix: `NODE_PREFIX ‖ BYTES(prefix)`.
pub fn node_subspace(prefix: &[u8]) -> (r: Vec<u8>)
    ensures
        r@ == node(prefix@),
{
    concat_bytes(&NODE_PREFIX, pack_bytes(prefix).as_slice())
}

/// The child-row key under `node` for segment `name`:
/// `node ‖ INT(0) ‖ STRING(name)`.
pub fn child_key(node: &[u8], name: &str) -> (r: Vec<u8>)
    ensures
        r@ == child_row(node@, vstd::utf8::encode_utf8(name@)),
{
    let base = concat_bytes(node, pack_i64(0).as_slice());
    concat_bytes(base.as_slice(), pack_string(name).as_slice())
}

/// The layer-row key of a node: `node ‖ BYTES("layer")`.
pub fn layer_key(node: &[u8]) -> (r: Vec<u8>)
    ensures
        r@ == layer_row(node@),
{
    concat_bytes(node, &LAYER_TAG)
}

/// The HCA counter key for a window start: `COUNTERS_BASE ‖ INT(start)`.
pub fn counter_key(window_start: i64) -> (r: Vec<u8>)
    ensures
        r@ == counter_row(window_start as int),
{
    concat_bytes(&COUNTERS_BASE, pack_i64(window_start).as_slice())
}

/// The HCA recent key for a candidate: `RECENT_BASE ‖ INT(candidate)`.
pub fn recent_key(candidate: i64) -> (r: Vec<u8>)
    ensures
        r@ == recent_row(candidate as int),
{
    concat_bytes(&RECENT_BASE, pack_i64(candidate).as_slice())
}

/// Whether `k` lies strictly inside `base`: it begins with `base`, goes on
/// behind it, and what follows is not more than a lone `0xFF` where it begins
/// with that byte.
pub open spec fn inside(base: Seq<u8>, k: Seq<u8>) -> bool {
    &&& starts_with(k, base)
    &&& k.len() > base.len()
    &&& k[base.len() as int] == 0xFF ==> k.len() == base.len() + 1
}

/// The range `[base ‖ 0x00, base ‖ 0xFF]`, inclusive at both ends, holds
/// exactly the keys inside `base`.
pub proof fn lemma_inside_range(base: Seq<u8>, k: Seq<u8>)
    ensures
        in_range(k, Bound::Included(base.push(0)), Bound::Excluded(base.push(0xFF).push(0)))
            <==> inside(base, k),
{
    let n = base.len() as int;
    let s = base.push(0);
    let e = base.push(0xFF).push(0);
    if inside(base, k) {
        assert forall|j: int| 0 <= j < n implies k[j] == base[j] by {
            assert(k.subrange(0, n)[j] == k[j]);
        }
        if k[n] > 0 {
            assert(parts_at(s, k, n));
        } else if k.len() == n + 1 {
            assert(s =~= k);
        } else {
            assert(parts_at(s, k, n + 1));
        }
        if k[n] < 0xFF {
            assert(parts_at(k, e, n));
        } else {
            assert(parts_at(k, e, n + 1));
        }
    }
    if le(s, k) && lt(k, e) {
        let d = choose|d: int| parts_at(k, e, d);
        if s == k {
            assert(k.subrange(0, n) =~= base);
        } else {
            let m = choose|m: int| parts_at(s, k, m);
            if m < n {
                assert(s[m] == base[m] && e[m] == base[m]);
                assert(forall|j: int| 0 <= j < m ==> k[j] == s[j] && s[j] == e[j]);
                assert(d >= m);
                assert(false);
            }
            assert forall|j: int| 0 <= j < n implies k[j] == base[j] by {
                assert(s[j] == k[j]);
            }
            assert(k.subrange(0, n) =~= base);
            if k[n] == 0xFF && k.len() > n + 1 {
                assert(d >= n + 1) by {
                    if d < n {
                        assert(k[d] == base[d]);
                    }
                }
                assert(false);
            }
        }
    }
}

/// The range strictly inside `base`.
pub(crate) fn inside_range(base: &[u8]) -> (r: (Bound<Vec<u8>>, Bound<Vec<u8>>))
    ensures
        owned_bound_of(r.0) == Bound::Included(base@.push(0)),
        owned_bound_of(r.1) == Bound::Excluded(base@.push(0xFF).push(0)),
        forall|k: Seq<u8>|
            in_range(k, owned_bound_of(r.0), owned_bound_of(r.1)) <==> #[trigger] inside(base@, k),
{
    let mut start = copy_bytes(base);
    start.push(0x00);
    let mut end = copy_bytes(base);
    end.push(0xFF);
    end.push(0x00);
    proof {
        assert forall|k: Seq<u8>|
            in_range(k, Bound::Included(start@), Bound::Excluded(end@)) <==> #[trigger] inside(
                base@,
                k,
            ) by {
            lemma_inside_range(base@, k);
        }
    }
    (Bound::Included(start), Bound::Excluded(end))
}

/// The raw keyspace range of a node's own rows (child rows and layer row):
/// `[node ‖ 0x00, node ‖ 0xFF]` inclusive at both ends, expressed with a
/// half-open end.
pub fn node_key_range(node: &[u8]) -> (r: (Bound<Vec<u8>>, Bound<Vec<u8>>))
    ensures
        owned_bound_of(r.0) == Bound::Included(node@.push(0)),
        owned_bound_of(r.1) == Bound::Excluded(node@.push(0xFF).push(0)),
        forall|k: Seq<u8>|
            in_range(k, owned_bound_of(r.0), owned_bound_of(r.1)) <==> #[trigger] inside(node@, k),
{
    inside_range(node)
}

/// The raw keyspace range of a node's child rows:
/// `[node ‖ INT(0) ‖ 0x00, node ‖ INT(0) ‖ 0xFF]` inclusive at both ends.
pub fn children_key_range(node: &[u8]) -> (r: (Bound<Vec<u8>>, Bound<Vec<u8>>))
    ensures
        owned_bound_of(r.0) == Bound::Included((node@ + int_element(0)).push(0)),
        owned_bound_of(r.1) == Bound::Excluded((node@ + int_element(0)).push(0xFF).push(0)),
        forall|k: Seq<u8>|
            in_range(k, owned_bound_of(r.0), owned_bound_of(r.1)) <==> #[trigger] inside(
                node@ + int_element(0),
                k,
            ),
{
    let base = concat_bytes(node, pack_i64(0).as_slice());
    inside_range(base.as_slice())
}

/// The raw keyspace range of a directory's data: `[prefix, next_prefix(prefix))`.
///
/// An allocated prefix (a packed `i64`) always has a successor; a prefix of
/// `0xFF` bytes alone is no allocated prefix and is left out.
pub fn data_region(prefix: &[u8]) -> (r: (Bound<Vec<u8>>, Bound<Vec<u8>>))
    requires
        successor(prefix@) is Some,
    ensures
        owned_bound_of(r.0) == Bound::Included(prefix@),
        owned_bound_of(r.1) == Bound::Excluded(successor(prefix@)->0),
        forall|k: Seq<u8>|
            in_range(k, owned_bound_of(r.0), owned_bound_of(r.1)) <==> #[trigger] starts_with(
                k,
                prefix@,
            ),
{
    crate::keyspace::prefix_range(prefix)
}

} // verus!
