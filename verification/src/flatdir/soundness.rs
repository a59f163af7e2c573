//! Healthy stores pass the whole-store walk.

use vstd::prelude::*;
use vstd::utf8::{decode_utf8, decode_utf8_encode_utf8, valid_utf8};

use crate::bytes::{lemma_lt_asymmetric, lemma_starts_with_concat, parts_at, starts_with};
use crate::flatdir::health::{
    all_known, hangs_at, healthy, is_counter, is_data, is_layer, is_link, is_node_prefix, is_packed,
    known, layered, lemma_data_head, lemma_key_shapes, lemma_kinds, lemma_layer_is_no_link,
    lemma_node_head, lemma_packed, lemma_row_payload, linked_at,
};
use crate::flatdir::layout::{
    child_row, counter_row, layer_row, lemma_layout_constants, node, recent_row, COUNTERS_BASE,
    LAYER_TAG, NODE_PREFIX, RECENT_BASE, VERSION_KEY,
};
use crate::flatdir::model::{is_data_prefix, lemma_data_prefix_unique};
use crate::flatdir::rows::{
    classify, data_ok, faulty, has_layer, in_node_region, is_child, is_target, region_split, sound,
    RowKind,
};
use crate::flatdir::tuple::{child_tuple, int_element, law_integer_round_trip, CODE_BYTES};
use crate::rawkv::Rows;

verus! {

/// A key that begins with the node prefix and goes on lies in the node region.
proof fn lemma_in_region(k: Seq<u8>)
    requires
        k.len() > 1,
        k[0] == 0xFE,
        k[1] > 0,
    ensures
        in_node_region(k),
{
    lemma_layout_constants();
    assert(region_split() =~= seq![0xFEu8, 0x00u8]);
    assert(parts_at(region_split(), k, 1));
}

/// The kind of each row of the node region of a healthy store.
pub proof fn lemma_healthy_kind(m: Rows, k: Seq<u8>)
    requires
        healthy(m),
        m.dom().contains(k),
        k[0] == 0xFE,
    ensures
        in_node_region(k),
        match classify(k, m[k]) {
            RowKind::Meta => !is_layer(k) && !is_link(k),
            RowKind::Layer(q) => is_packed(q) && k == layer_row(node(q)),
            RowKind::Child(q, c) => is_node_prefix(q) && c == m[k] && exists|seg: Seq<u8>|
                valid_utf8(seg) && k == #[trigger] child_row(node(q), seg),
            _ => false,
        },
{
    lemma_kinds(m, k);
    lemma_in_region(k);
    assert(known(m, k));
    lemma_layout_constants();
    lemma_key_shapes(NODE_PREFIX@, Seq::empty(), 0);
    assert(!is_data(m, k)) by {
        if is_data(m, k) {
            let p = choose|p: Seq<u8>|
                is_packed(p) && layered(m, p) && #[trigger] starts_with(k, p);
            lemma_data_head(k, p);
        }
    }
    if is_layer(k) {
        let p = choose|p: Seq<u8>| is_packed(p) && k == #[trigger] layer_row(node(p));
        lemma_layer_value(m, p);
        lemma_layer_kind(p, m[k]);
    } else if is_link(k) {
        let (p, seg) = choose|p: Seq<u8>, seg: Seq<u8>|
            is_node_prefix(p) && valid_utf8(seg) && k == #[trigger] child_row(node(p), seg);
        assert(linked_at(m, p, seg));
        lemma_link_kind(p, seg, m[k]);
    } else if k == VERSION_KEY@ {
    } else if is_counter(k) {
        let s = choose|s: int|
            crate::flatdir::tuple::is_i64(s) && k == #[trigger] counter_row(s);
        lemma_starts_with_concat(COUNTERS_BASE@, int_element(s));
        law_integer_round_trip(s);
    } else {
        let c = choose|c: int| crate::flatdir::tuple::is_i64(c) && k == #[trigger] recent_row(c);
        lemma_starts_with_concat(RECENT_BASE@, int_element(c));
        law_integer_round_trip(c);
        lemma_key_shapes(NODE_PREFIX@, Seq::empty(), c);
        if starts_with(k, COUNTERS_BASE@) {
            assert(k.subrange(0, 10)[9] == k[9]);
            assert(COUNTERS_BASE@[9] == 0x14);
        }
    }
}

/// Neither layer rows nor child rows lie among the allocator's rows, nor are
/// they the version row.
proof fn lemma_tree_key(p: Seq<u8>, seg: Seq<u8>)
    requires
        is_node_prefix(p),
    ensures
        child_row(node(p), seg) != VERSION_KEY@,
        !starts_with(child_row(node(p), seg), COUNTERS_BASE@),
        !starts_with(child_row(node(p), seg), RECENT_BASE@),
        starts_with(child_row(node(p), seg), NODE_PREFIX@),
        is_packed(p) ==> {
            &&& layer_row(node(p)) != VERSION_KEY@
            &&& !starts_with(layer_row(node(p)), COUNTERS_BASE@)
            &&& !starts_with(layer_row(node(p)), RECENT_BASE@)
            &&& starts_with(layer_row(node(p)), NODE_PREFIX@)
        },
{
    lemma_key_shapes(p, seg, 0);
    lemma_node_head(p);
    lemma_layout_constants();
    let a = child_row(node(p), seg);
    let b = layer_row(node(p));
    assert(COUNTERS_BASE@[2] == 0xFE && COUNTERS_BASE@[4] == 0x01);
    assert(RECENT_BASE@[2] == 0xFE && RECENT_BASE@[4] == 0x01);
    assert(a.subrange(0, 1) =~= NODE_PREFIX@);
    assert(b.subrange(0, 1) =~= NODE_PREFIX@);
    if starts_with(a, COUNTERS_BASE@) {
        assert(a.subrange(0, 10)[2] == a[2] && a.subrange(0, 10)[4] == a[4]);
    }
    if starts_with(a, RECENT_BASE@) {
        assert(a.subrange(0, 11)[2] == a[2] && a.subrange(0, 11)[4] == a[4]);
    }
    if is_packed(p) {
        lemma_packed(p);
        if starts_with(b, COUNTERS_BASE@) {
            assert(b.subrange(0, 10)[2] == b[2]);
        }
        if starts_with(b, RECENT_BASE@) {
            assert(b.subrange(0, 11)[2] == b[2]);
        }
    }
}

/// The kind of a layer row.
pub proof fn lemma_layer_kind(p: Seq<u8>, v: Seq<u8>)
    requires
        is_packed(p),
        v.len() == 0,
    ensures
        classify(layer_row(node(p)), v) == RowKind::Layer(p),
        in_node_region(layer_row(node(p))),
{
    let k = layer_row(node(p));
    lemma_tree_key(p, Seq::empty());
    lemma_key_shapes(p, Seq::empty(), 0);
    lemma_node_head(p);
    lemma_packed(p);
    lemma_layout_constants();
    assert(k[1] == node(p)[1]);
    lemma_in_region(k);
    lemma_row_payload(p, k);
    lemma_starts_with_concat(node(p), LAYER_TAG@);
}

/// The kind of a child row that leads to a packed integer.
pub proof fn lemma_link_kind(p: Seq<u8>, seg: Seq<u8>, v: Seq<u8>)
    requires
        is_node_prefix(p),
        valid_utf8(seg),
        is_packed(v),
    ensures
        classify(child_row(node(p), seg), v) == RowKind::Child(p, v),
        in_node_region(child_row(node(p), seg)),
{
    let k = child_row(node(p), seg);
    lemma_tree_key(p, seg);
    lemma_key_shapes(p, seg, 0);
    lemma_node_head(p);
    lemma_packed(v);
    lemma_layout_constants();
    if p != NODE_PREFIX@ {
        lemma_packed(p);
    }
    assert(k[1] == node(p)[1]);
    lemma_in_region(k);
    lemma_row_payload(p, k);
    let name = decode_utf8(seg);
    decode_utf8_encode_utf8(seg);
    let row = child_tuple(name);
    assert(k =~= node(p) + row);
    lemma_starts_with_concat(node(p), row);
    assert(row[0] == 0x14);
    assert(LAYER_TAG@[0] == CODE_BYTES);
}

/// A healthy store is sound: the whole-store walk finds nothing wrong with it.
pub proof fn lemma_healthy_sound(m: Rows)
    requires
        healthy(m),
    ensures
        sound(m),
{
    lemma_layout_constants();
    assert(region_split() =~= seq![0xFEu8, 0x00u8]);
    assert forall|k: Seq<u8>| #[trigger] m.dom().contains(k) && in_node_region(k) implies k[0]
        == 0xFE by {
        lemma_kinds(m, k);
        if k[0] != 0xFE {
            let p = choose|p: Seq<u8>|
                is_packed(p) && layered(m, p) && #[trigger] starts_with(k, p);
            lemma_data_head(k, p);
            assert(parts_at(k, region_split(), 0));
            lemma_lt_asymmetric(k, region_split());
        }
    }
    assert forall|k: Seq<u8>| !#[trigger] faulty(m, k) by {
        if faulty(m, k) {
            lemma_healthy_kind(m, k);
        }
    }
    assert forall|c: Seq<u8>| #[trigger] is_target(m, c) implies has_layer(m, c) by {
        let k = choose|k: Seq<u8>| #[trigger] is_child(m, k) && classify(k, m[k])->Child_1 == c;
        assert(m.dom().contains(k) && in_node_region(k));
        lemma_healthy_kind(m, k);
        let q = classify(k, m[k])->Child_0;
        let seg = choose|seg: Seq<u8>|
            valid_utf8(seg) && k == #[trigger] child_row(node(q), seg);
        assert(linked_at(m, q, seg));
        lemma_layer_shown(m, c);
    }
    assert forall|k: Seq<u8>| #[trigger] m.dom().contains(k) && !in_node_region(k) implies data_ok(
        m,
        k,
    ) by {
        lemma_kinds(m, k);
        if k[0] == 0xFE {
            lemma_in_region(k);
        }
        let p = choose|p: Seq<u8>| is_packed(p) && layered(m, p) && #[trigger] starts_with(k, p);
        lemma_packed(p);
        assert(is_data_prefix(k, p));
        lemma_data_prefix_unique(k, p);
        lemma_layer_shown(m, p);
        let (q, seg) = choose|q: Seq<u8>, seg: Seq<u8>| #[trigger] hangs_at(m, p, q, seg);
        let link = child_row(node(q), seg);
        lemma_link_kind(q, seg, p);
        assert(is_child(m, link));
        assert(is_target(m, p));
    }
}

/// The layer row of a directory shows as one.
pub proof fn lemma_layer_shown(m: Rows, p: Seq<u8>)
    requires
        healthy(m),
        is_packed(p),
        layered(m, p),
    ensures
        has_layer(m, p),
{
    let k = layer_row(node(p));
    lemma_layer_value(m, p);
    lemma_layer_kind(p, m[k]);
    assert(m.dom().contains(k));
}

/// The layer row of a directory is empty.
proof fn lemma_layer_value(m: Rows, p: Seq<u8>)
    requires
        all_known(m),
        is_packed(p),
        layered(m, p),
    ensures
        m[layer_row(node(p))].len() == 0,
{
    let k = layer_row(node(p));
    lemma_key_shapes(p, Seq::empty(), 0);
    lemma_kinds(m, k);
    lemma_packed(p);
    if is_link(k) {
        let (q, seg) = choose|q: Seq<u8>, seg: Seq<u8>|
            is_node_prefix(q) && valid_utf8(seg) && k == #[trigger] child_row(node(q), seg);
        lemma_layer_is_no_link(p, q, seg);
    }
}

} // verus!
