//! Healthy stores: the invariant that every directory operation keeps.
//!
//! A healthy store holds only rows of the layout, its directories form a tree
//! in which no two child rows lead to the same prefix, every data row belongs
//! to an existing directory, and the allocator's rows account for every prefix
//! in use. An empty store is healthy, the operations keep a store healthy, and
//! on a healthy store they do not fail.

use core::ops::Bound;

use vstd::prelude::*;
use vstd::utf8::valid_utf8;

use crate::bytes::{
    le, lemma_lt_asymmetric, lemma_lt_common_prefix, lemma_lt_irreflexive, lemma_lt_total,
    lemma_order, lemma_prefix_le, lemma_starts_with_concat, lemma_starts_with_nested,
    lemma_starts_with_split, lt, parts_at, starts_with, tail,
};
use crate::flatdir::hca::{
    allocation_refused, allocations, in_window, is_allocation, is_last_counter, is_recent_of,
    latest_start, lemma_allocation_frame, lemma_allocation_range, lemma_between_begins,
    lemma_hca_rows, lemma_moved_on_frame, lemma_open_from_range, moved_on, open_from, open_window,
    retouched, same_outside_hca, window, window_full,
};
use crate::flatdir::layout::{
    child_row, counter_row, inside, layer_row, le_i64, le_i64_bytes, lemma_layout_constants,
    lemma_le_i64_round_trip, node, recent_row, COUNTERS_BASE, HCA_SUBSPACE, LAYER_TAG, NODE_PREFIX,
    RECENT_BASE, VERSION_KEY,
};
use crate::flatdir::model::{
    contained_in_node, in_node_span, is_last_node_row, lemma_packed_prefix_free, lemma_packed_shape,
    lemma_packed_successor, lemma_version_is_no_child, lemma_with_version, linked, node_span_empty,
    occupied, open_refused, opens, prefix_free, step, version_ok, walk, with_version, Walk,
};
use crate::flatdir::prune::{lemma_nodes_apart, lemma_terminated_begins, sub_rows};
use crate::flatdir::touch::lemma_own_span;
use crate::flatdir::tuple::{
    bytes_element, element, escape, escape_byte, int_element, int_of_element, is_i64,
    law_element_round_trip, law_integer_order, law_integer_round_trip, leading_payload,
    lemma_int_element_shape, lemma_terminated_order, terminated, CODE_BYTES, CODE_STRING,
};
use crate::key::valid_path;
use crate::keyspace::{in_range, law_prefix_range_exact, lemma_range_common_prefix, successor};
use crate::rawkv::{row_at, Rows};

verus! {

// ---------------------------------------------------------------------------
// The invariant
// ---------------------------------------------------------------------------

/// Whether `p` is the shortest packed form of an integer.
pub open spec fn is_packed(p: Seq<u8>) -> bool {
    exists|v: int| is_i64(v) && p == #[trigger] int_element(v)
}

/// Whether `p` can be the prefix of a node: the root's own, or a packed integer.
pub open spec fn is_node_prefix(p: Seq<u8>) -> bool {
    p == NODE_PREFIX@ || is_packed(p)
}

/// Whether the directory with prefix `p` has its layer row.
pub open spec fn layered(m: Rows, p: Seq<u8>) -> bool {
    m.dom().contains(layer_row(node(p)))
}

/// Whether the directory with prefix `p` has a child under `seg`.
pub open spec fn linked_at(m: Rows, p: Seq<u8>, seg: Seq<u8>) -> bool {
    m.dom().contains(child_row(node(p), seg))
}

/// Whether `k` is a counter row.
pub open spec fn is_counter(k: Seq<u8>) -> bool {
    exists|s: int| is_i64(s) && k == #[trigger] counter_row(s)
}

/// Whether `k` is a recent row.
pub open spec fn is_recent(k: Seq<u8>) -> bool {
    exists|c: int| is_i64(c) && k == #[trigger] recent_row(c)
}

/// Whether `k` is the layer row of a packed integer.
pub open spec fn is_layer(k: Seq<u8>) -> bool {
    exists|p: Seq<u8>| is_packed(p) && k == #[trigger] layer_row(node(p))
}

/// Whether `k` is a child row.
pub open spec fn is_link(k: Seq<u8>) -> bool {
    exists|p: Seq<u8>, seg: Seq<u8>|
        is_node_prefix(p) && valid_utf8(seg) && k == #[trigger] child_row(node(p), seg)
}

/// Whether `k` is a data row of a directory that has its layer row.
pub open spec fn is_data(m: Rows, k: Seq<u8>) -> bool {
    exists|p: Seq<u8>| is_packed(p) && layered(m, p) && #[trigger] starts_with(k, p)
}

/// Whether the row of `k` is one that the layout has.
pub open spec fn known(m: Rows, k: Seq<u8>) -> bool {
    ||| k == VERSION_KEY@
    ||| is_counter(k) && m[k].len() == 8
    ||| is_recent(k) && m[k].len() == 0
    ||| is_layer(k) && m[k].len() == 0
    ||| is_link(k)
    ||| is_data(m, k)
}

/// Whether every row is one that the layout has.
pub open spec fn all_known(m: Rows) -> bool {
    forall|k: Seq<u8>| #[trigger] m.dom().contains(k) ==> known(m, k)
}

/// Whether every child row leads from an existing directory to an existing
/// directory.
pub open spec fn links_layered(m: Rows) -> bool {
    forall|p: Seq<u8>, seg: Seq<u8>|
        is_node_prefix(p) && #[trigger] linked_at(m, p, seg) ==> {
            let c = m[child_row(node(p), seg)];
            is_packed(c) && layered(m, c) && (p == NODE_PREFIX@ || layered(m, p))
        }
}

/// Whether no two child rows lead to the same directory.
pub open spec fn links_injective(m: Rows) -> bool {
    forall|p: Seq<u8>, s: Seq<u8>, q: Seq<u8>, t: Seq<u8>|
        #![trigger linked_at(m, p, s), linked_at(m, q, t)]
        is_node_prefix(p) && is_node_prefix(q) && linked_at(m, p, s) && linked_at(m, q, t)
            && m[child_row(node(p), s)] == m[child_row(node(q), t)] ==> p == q && s == t
}

/// Whether `rank` grows along every child row and stays within `bound`.
pub open spec fn ranked_by(m: Rows, rank: spec_fn(Seq<u8>) -> nat, bound: nat) -> bool {
    forall|p: Seq<u8>, seg: Seq<u8>|
        is_node_prefix(p) && #[trigger] linked_at(m, p, seg) ==> rank(p) < rank(
            m[child_row(node(p), seg)],
        ) <= bound
}

/// Whether the directories form trees.
pub open spec fn ranked(m: Rows) -> bool {
    exists|rank: spec_fn(Seq<u8>) -> nat, bound: nat| ranked_by(m, rank, bound)
}

/// The candidates whose recent row is there.
pub open spec fn claimed(m: Rows) -> Set<int> {
    Set::new(|c: int| is_i64(c) && m.dom().contains(recent_row(c)))
}

/// Whether `s` is the start of a window with a counter row.
pub open spec fn counts(m: Rows, s: int) -> bool {
    is_i64(s) && m.dom().contains(counter_row(s))
}

/// Whether the value has been handed out: its window has been left, or its
/// recent row is there.
pub open spec fn taken(m: Rows, v: int) -> bool {
    exists|s: int| #[trigger] counts(m, s) && (v < s || m.dom().contains(recent_row(v)))
}

/// Whether the allocator's rows fit together: one counter row at most, whose
/// count is at least the number of recent rows, all of them of its window.
pub open spec fn allocator_ok(m: Rows) -> bool {
    &&& forall|s: int, t: int| #[trigger] counts(m, s) && #[trigger] counts(m, t) ==> s == t
    &&& forall|s: int| #[trigger] counts(m, s) ==> counter_ok(m, s)
    &&& (forall|s: int| !#[trigger] counts(m, s)) ==> claimed(m) =~= Set::empty()
    &&& claimed(m).finite()
}

/// Whether the counter row of `s` accounts for the recent rows.
pub open spec fn counter_ok(m: Rows, s: int) -> bool {
    let n = le_i64(m[counter_row(s)]);
    &&& claimed(m).len() <= n <= window(s)
    &&& forall|c: int| #[trigger] claimed(m).contains(c) ==> in_window(s, c)
}

/// Whether the allocator's subspace is as allocations leave it, whatever the rest
/// of the store holds: its rows are counter rows and recent rows, and these fit
/// together.
pub open spec fn hca_ok(m: Rows) -> bool {
    &&& forall|k: Seq<u8>| #[trigger]
        m.dom().contains(k) && starts_with(k, COUNTERS_BASE@) ==> is_counter(k) && m[k].len() == 8
    &&& forall|k: Seq<u8>| #[trigger]
        m.dom().contains(k) && starts_with(k, RECENT_BASE@) ==> is_recent(k) && m[k].len() == 0
    &&& allocator_ok(m)
}

/// The count in the counter row of a window, zero where there is none.
pub open spec fn old_count(m: Rows, s: int) -> int {
    if counts(m, s) {
        le_i64(m[counter_row(s)])
    } else {
        0
    }
}

/// Whether every directory's prefix has been handed out.
pub open spec fn layers_taken(m: Rows) -> bool {
    forall|v: int| is_i64(v) && layered(m, #[trigger] int_element(v)) ==> taken(m, v)
}

/// Whether the directory with prefix `p` hangs in the directory with prefix `q`
/// under `seg`.
pub open spec fn hangs_at(m: Rows, p: Seq<u8>, q: Seq<u8>, seg: Seq<u8>) -> bool {
    &&& is_node_prefix(q)
    &&& valid_utf8(seg)
    &&& linked_at(m, q, seg)
    &&& m[child_row(node(q), seg)] == p
}

/// Whether every directory with a layer row hangs in another one.
pub open spec fn layers_linked(m: Rows) -> bool {
    forall|p: Seq<u8>|
        is_packed(p) && #[trigger] layered(m, p) ==> exists|q: Seq<u8>, seg: Seq<u8>| #[trigger]
            hangs_at(m, p, q, seg)
}

/// Whether a store is healthy.
pub open spec fn healthy(m: Rows) -> bool {
    &&& version_ok(m)
    &&& all_known(m)
    &&& links_layered(m)
    &&& links_injective(m)
    &&& layers_linked(m)
    &&& ranked(m)
    &&& allocator_ok(m)
    &&& layers_taken(m)
}

/// An empty store is healthy.
pub proof fn lemma_empty_healthy()
    ensures
        healthy(Map::empty()),
{
    let m: Rows = Map::empty();
    assert(ranked_by(m, |p: Seq<u8>| 0, 0));
    assert(claimed(m) =~= Set::empty());
}

// ---------------------------------------------------------------------------
// The shapes of keys
// ---------------------------------------------------------------------------

/// What a packed integer looks like.
pub proof fn lemma_packed(p: Seq<u8>)
    requires
        is_packed(p),
    ensures
        int_of_element(p) is Some,
        p == int_element(int_of_element(p)->0),
        is_i64(int_of_element(p)->0),
        p.len() > 0,
        0x0c <= p[0] <= 0x1c,
{
    let v = choose|v: int| is_i64(v) && p == #[trigger] int_element(v);
    law_integer_round_trip(v);
    lemma_packed_shape(p);
}

/// How the node of a prefix begins.
pub proof fn lemma_node_head(p: Seq<u8>)
    requires
        is_node_prefix(p),
    ensures
        node(p).len() >= 4,
        node(p)[0] == 0xFE,
        node(p)[1] == CODE_BYTES,
        node(p)[2] == p[0],
        p == NODE_PREFIX@ ==> node(p) == seq![0xFEu8, 0x01u8, 0xFEu8, 0x00u8],
        p == NODE_PREFIX@ || 0x0c <= p[0] <= 0x1c,
        p.len() > 0,
{
    lemma_layout_constants();
    if p == NODE_PREFIX@ {
        assert(crate::flatdir::layout::ROOT_NODE@ =~= seq![0xFEu8, 0x01u8, 0xFEu8, 0x00u8]);
    } else {
        lemma_packed(p);
    }
    assert(escape(p) == escape_byte(p[0]) + escape(tail(p, 1)));
    assert(node(p)[2] == terminated(p)[0]);
    assert(terminated(p)[0] == p[0]);
}

/// The bytes that tell the kinds of keys apart.
pub proof fn lemma_key_shapes(p: Seq<u8>, seg: Seq<u8>, v: int)
    requires
        is_node_prefix(p),
    ensures
        child_row(node(p), seg).len() > node(p).len(),
        child_row(node(p), seg)[node(p).len() as int] == 0x14,
        starts_with(child_row(node(p), seg), node(p)),
        layer_row(node(p)).len() > node(p).len(),
        layer_row(node(p))[node(p).len() as int] == CODE_BYTES,
        starts_with(layer_row(node(p)), node(p)),
        child_row(node(p), seg)[0] == 0xFE,
        child_row(node(p), seg)[2] == p[0],
        layer_row(node(p))[0] == 0xFE,
        layer_row(node(p))[2] == p[0],
        p == NODE_PREFIX@ ==> child_row(node(p), seg)[4] == 0x14,
        counter_row(v).len() > 9,
        counter_row(v)[0] == 0xFE,
        counter_row(v)[2] == 0xFE,
        counter_row(v)[4] == CODE_BYTES,
        counter_row(v)[5] == 0x68,
        counter_row(v)[9] == 0x14,
        recent_row(v).len() > 9,
        recent_row(v)[0] == 0xFE,
        recent_row(v)[2] == 0xFE,
        recent_row(v)[4] == CODE_BYTES,
        recent_row(v)[5] == 0x68,
        recent_row(v)[9] == 0x15,
        VERSION_KEY@.len() == 13,
        VERSION_KEY@[0] == 0xFE,
        VERSION_KEY@[2] == 0xFE,
        VERSION_KEY@[4] == CODE_BYTES,
        VERSION_KEY@[5] == 0x76,
{
    lemma_node_head(p);
    let n = node(p);
    assert(child_row(n, seg) =~= n + (int_element(0) + element(CODE_STRING, seg)));
    lemma_starts_with_concat(n, int_element(0) + element(CODE_STRING, seg));
    lemma_starts_with_concat(n, LAYER_TAG@);
}

/// Child rows determine their directory and their segment.
pub proof fn lemma_link_key_injective(p: Seq<u8>, s: Seq<u8>, q: Seq<u8>, t: Seq<u8>)
    requires
        is_node_prefix(p),
        is_node_prefix(q),
        child_row(node(p), s) == child_row(node(q), t),
    ensures
        p == q,
        s == t,
{
    let k = child_row(node(p), s);
    lemma_key_shapes(p, s, 0);
    lemma_key_shapes(q, t, 0);
    lemma_node_head(p);
    lemma_node_head(q);
    lemma_layout_constants();
    if p != NODE_PREFIX@ && q != NODE_PREFIX@ {
        lemma_packed(p);
        lemma_packed(q);
        lemma_nodes_apart(p, q, k);
    }
    crate::flatdir::ops::lemma_child_row_injective(node(p), s, t);
}

/// A key that begins with the node of one prefix begins with no other's.
pub proof fn lemma_node_of_key(p: Seq<u8>, q: Seq<u8>, k: Seq<u8>)
    requires
        is_node_prefix(p),
        is_node_prefix(q),
        starts_with(k, node(p)),
        starts_with(k, node(q)),
    ensures
        p == q,
{
    lemma_node_head(p);
    lemma_node_head(q);
    lemma_layout_constants();
    assert(k.subrange(0, node(p).len() as int)[2] == k[2]);
    assert(k.subrange(0, node(q).len() as int)[2] == k[2]);
    if p != NODE_PREFIX@ && q != NODE_PREFIX@ {
        lemma_packed(p);
        lemma_packed(q);
        lemma_nodes_apart(p, q, k);
    }
}

/// Layer rows determine their directory.
pub proof fn lemma_layer_key_injective(p: Seq<u8>, q: Seq<u8>)
    requires
        is_node_prefix(p),
        is_node_prefix(q),
        layer_row(node(p)) == layer_row(node(q)),
    ensures
        p == q,
{
    lemma_key_shapes(p, Seq::empty(), 0);
    lemma_key_shapes(q, Seq::empty(), 0);
    lemma_node_of_key(p, q, layer_row(node(p)));
}

/// A layer row is no child row.
pub proof fn lemma_layer_is_no_link(p: Seq<u8>, q: Seq<u8>, seg: Seq<u8>)
    requires
        is_node_prefix(p),
        is_node_prefix(q),
    ensures
        layer_row(node(p)) != child_row(node(q), seg),
{
    lemma_key_shapes(p, seg, 0);
    lemma_key_shapes(q, seg, 0);
    if layer_row(node(p)) == child_row(node(q), seg) {
        lemma_node_of_key(p, q, layer_row(node(p)));
    }
}

/// Counter rows determine their window, recent rows their candidate.
pub proof fn lemma_hca_key_injective(a: int, b: int)
    requires
        is_i64(a),
        is_i64(b),
    ensures
        counter_row(a) == counter_row(b) ==> a == b,
        recent_row(a) == recent_row(b) ==> a == b,
        counter_row(a) != recent_row(b),
{
    lemma_key_shapes(NODE_PREFIX@, Seq::empty(), a);
    lemma_key_shapes(NODE_PREFIX@, Seq::empty(), b);
    lemma_starts_with_concat(COUNTERS_BASE@, int_element(a));
    lemma_starts_with_concat(COUNTERS_BASE@, int_element(b));
    lemma_starts_with_concat(RECENT_BASE@, int_element(a));
    lemma_starts_with_concat(RECENT_BASE@, int_element(b));
    law_integer_round_trip(a);
    law_integer_round_trip(b);
}

/// A data key does not begin as the node region does.
pub proof fn lemma_data_head(k: Seq<u8>, p: Seq<u8>)
    requires
        is_packed(p),
        starts_with(k, p),
    ensures
        k.len() > 0,
        0x0c <= k[0] <= 0x1c,
        !starts_with(k, NODE_PREFIX@),
{
    lemma_packed(p);
    lemma_layout_constants();
    assert(k.subrange(0, p.len() as int)[0] == k[0]);
    if starts_with(k, NODE_PREFIX@) {
        assert(k.subrange(0, 1)[0] == k[0]);
    }
}

/// Different directories own different data keys.
pub proof fn lemma_data_owner(k: Seq<u8>, p: Seq<u8>, q: Seq<u8>)
    requires
        is_packed(p),
        is_packed(q),
        starts_with(k, p),
        starts_with(k, q),
    ensures
        p == q,
{
    lemma_packed(p);
    lemma_packed(q);
    if p.len() <= q.len() {
        crate::bytes::lemma_prefixes_nest(k, p, q);
        lemma_packed_prefix_free(q, p);
    } else {
        crate::bytes::lemma_prefixes_nest(k, q, p);
        lemma_packed_prefix_free(p, q);
    }
}

/// What the bytes of a key say of its kind.
pub proof fn lemma_kinds(m: Rows, k: Seq<u8>)
    requires
        all_known(m),
        m.dom().contains(k),
    ensures
        k.len() > 0,
        k[0] != 0xFE ==> is_data(m, k),
        starts_with(k, COUNTERS_BASE@) ==> is_counter(k) && m[k].len() == 8,
        starts_with(k, RECENT_BASE@) ==> is_recent(k) && m[k].len() == 0,
        k[0] == 0xFE ==> k.len() > 4 && k[1] == CODE_BYTES && (k[2] == 0xFE || 0x0c <= k[2]
            <= 0x1c),
        k[0] == 0xFE && k[2] != 0xFE ==> (is_layer(k) && m[k].len() == 0) || is_link(k),
        k[0] == 0xFE && k[2] == 0xFE && k[4] == 0x14 ==> is_link(k),
{
    assert(known(m, k));
    lemma_layout_constants();
    if starts_with(k, COUNTERS_BASE@) {
        assert(COUNTERS_BASE@[0] == 0xFE && COUNTERS_BASE@[2] == 0xFE && COUNTERS_BASE@[4] == 0x01
            && COUNTERS_BASE@[5] == 0x68 && COUNTERS_BASE@[9] == 0x14);
        assert forall|i: int| 0 <= i < 10 implies k[i] == COUNTERS_BASE@[i] by {
            assert(k.subrange(0, 10)[i] == k[i]);
        }
    }
    if starts_with(k, RECENT_BASE@) {
        assert(RECENT_BASE@[0] == 0xFE && RECENT_BASE@[2] == 0xFE && RECENT_BASE@[4] == 0x01
            && RECENT_BASE@[5] == 0x68 && RECENT_BASE@[9] == 0x15);
        assert forall|i: int| 0 <= i < 11 implies k[i] == RECENT_BASE@[i] by {
            assert(k.subrange(0, 11)[i] == k[i]);
        }
    }
    lemma_key_shapes(NODE_PREFIX@, Seq::empty(), 0);
    if is_counter(k) {
        let s = choose|s: int| is_i64(s) && k == #[trigger] counter_row(s);
        lemma_key_shapes(NODE_PREFIX@, Seq::empty(), s);
        assert(k[1] == COUNTERS_BASE@[1]);
    }
    if is_recent(k) {
        let s = choose|s: int| is_i64(s) && k == #[trigger] recent_row(s);
        lemma_key_shapes(NODE_PREFIX@, Seq::empty(), s);
        assert(k[1] == RECENT_BASE@[1]);
    }
    if is_layer(k) {
        let p = choose|p: Seq<u8>| is_packed(p) && k == #[trigger] layer_row(node(p));
        lemma_key_shapes(p, Seq::empty(), 0);
        lemma_node_head(p);
        lemma_packed(p);
    }
    if is_link(k) {
        let (p, seg) = choose|p: Seq<u8>, seg: Seq<u8>|
            is_node_prefix(p) && valid_utf8(seg) && k == #[trigger] child_row(node(p), seg);
        lemma_key_shapes(p, seg, 0);
        lemma_node_head(p);
    }
    if is_data(m, k) {
        let p = choose|p: Seq<u8>| is_packed(p) && layered(m, p) && #[trigger] starts_with(k, p);
        lemma_data_head(k, p);
    }
}

/// Child rows and layer rows lie outside of the allocator's subspace.
pub proof fn lemma_tree_outside_hca(p: Seq<u8>, seg: Seq<u8>)
    requires
        is_node_prefix(p),
    ensures
        !starts_with(child_row(node(p), seg), HCA_SUBSPACE@),
        p != NODE_PREFIX@ ==> !starts_with(layer_row(node(p)), HCA_SUBSPACE@),
{
    lemma_key_shapes(p, seg, 0);
    lemma_node_head(p);
    assert(HCA_SUBSPACE@[2] == 0xFE && HCA_SUBSPACE@[4] == 0x01);
    let a = child_row(node(p), seg);
    let b = layer_row(node(p));
    if starts_with(a, HCA_SUBSPACE@) {
        assert(a.subrange(0, 9)[2] == a[2]);
        assert(a.subrange(0, 9)[4] == a[4]);
    }
    if p != NODE_PREFIX@ && starts_with(b, HCA_SUBSPACE@) {
        assert(b.subrange(0, 9)[2] == b[2]);
    }
}

// ---------------------------------------------------------------------------
// Changes that leave the tree alone
// ---------------------------------------------------------------------------

/// Whether two stores have the same child rows and layer rows.
pub open spec fn same_tree(m0: Rows, m1: Rows) -> bool {
    &&& forall|p: Seq<u8>, seg: Seq<u8>|
        is_node_prefix(p) ==> row_at(m1, #[trigger] child_row(node(p), seg)) == row_at(
            m0,
            child_row(node(p), seg),
        )
    &&& forall|p: Seq<u8>|
        is_packed(p) ==> row_at(m1, #[trigger] layer_row(node(p))) == row_at(
            m0,
            layer_row(node(p)),
        )
}

/// Whether two stores have the same counter rows and recent rows.
pub open spec fn same_allocator(m0: Rows, m1: Rows) -> bool {
    &&& forall|v: int|
        is_i64(v) ==> row_at(m1, #[trigger] counter_row(v)) == row_at(m0, counter_row(v))
    &&& forall|v: int| is_i64(v) ==> row_at(m1, #[trigger] recent_row(v)) == row_at(
        m0,
        recent_row(v),
    )
}

/// The tree's invariant depends on its rows alone.
pub proof fn lemma_same_tree(m0: Rows, m1: Rows)
    requires
        same_tree(m0, m1),
        links_layered(m0),
        links_injective(m0),
        layers_linked(m0),
        ranked(m0),
    ensures
        links_layered(m1),
        links_injective(m1),
        layers_linked(m1),
        ranked(m1),
{
    assert forall|p: Seq<u8>, seg: Seq<u8>|
        is_node_prefix(p) && #[trigger] linked_at(m1, p, seg) implies linked_at(m0, p, seg)
        && m0[child_row(node(p), seg)] == m1[child_row(node(p), seg)] by {
        assert(row_at(m1, child_row(node(p), seg)) == row_at(m0, child_row(node(p), seg)));
    }
    assert forall|p: Seq<u8>, seg: Seq<u8>|
        is_node_prefix(p) && #[trigger] linked_at(m1, p, seg) implies {
        let c = m1[child_row(node(p), seg)];
        is_packed(c) && layered(m1, c) && (p == NODE_PREFIX@ || layered(m1, p))
    } by {
        let c = m1[child_row(node(p), seg)];
        assert(linked_at(m0, p, seg));
        assert(row_at(m1, layer_row(node(c))) == row_at(m0, layer_row(node(c))));
        if p != NODE_PREFIX@ {
            assert(row_at(m1, layer_row(node(p))) == row_at(m0, layer_row(node(p))));
        }
    }
    assert(links_injective(m1)) by {
        assert forall|p: Seq<u8>, s: Seq<u8>, q: Seq<u8>, t: Seq<u8>|
            #![trigger linked_at(m1, p, s), linked_at(m1, q, t)]
            is_node_prefix(p) && is_node_prefix(q) && linked_at(m1, p, s) && linked_at(m1, q, t)
                && m1[child_row(node(p), s)] == m1[child_row(node(q), t)] implies p == q && s
            == t by {
            assert(linked_at(m0, p, s) && linked_at(m0, q, t));
        }
    }
    assert forall|p: Seq<u8>| is_packed(p) && #[trigger] layered(m1, p) implies exists|
        q: Seq<u8>,
        seg: Seq<u8>,
    | #[trigger] hangs_at(m1, p, q, seg) by {
        assert(row_at(m1, layer_row(node(p))) == row_at(m0, layer_row(node(p))));
        assert(layered(m0, p));
        let (q, seg) = choose|q: Seq<u8>, seg: Seq<u8>| #[trigger] hangs_at(m0, p, q, seg);
        assert(row_at(m1, child_row(node(q), seg)) == row_at(m0, child_row(node(q), seg)));
        assert(hangs_at(m1, p, q, seg));
    }
    let (rank, bound) = choose|rank: spec_fn(Seq<u8>) -> nat, bound: nat|
        ranked_by(m0, rank, bound);
    assert(ranked_by(m1, rank, bound)) by {
        assert forall|p: Seq<u8>, seg: Seq<u8>|
            is_node_prefix(p) && #[trigger] linked_at(m1, p, seg) implies rank(p) < rank(
            m1[child_row(node(p), seg)],
        ) <= bound by {
            assert(linked_at(m0, p, seg));
        }
    }
}

/// The allocator's invariant depends on its rows and the layer rows alone.
pub proof fn lemma_same_allocator(m0: Rows, m1: Rows)
    requires
        same_allocator(m0, m1),
        allocator_ok(m0),
    ensures
        allocator_ok(m1),
        forall|v: int| is_i64(v) ==> (#[trigger] taken(m1, v) <==> taken(m0, v)),
{
    assert forall|s: int| #[trigger] counts(m1, s) <==> counts(m0, s) by {
        if is_i64(s) {
            assert(row_at(m1, counter_row(s)) == row_at(m0, counter_row(s)));
        }
    }
    assert forall|s: int| #[trigger] counts(m1, s) implies m1[counter_row(s)] == m0[counter_row(
        s,
    )] by {
        assert(row_at(m1, counter_row(s)) == row_at(m0, counter_row(s)));
    }
    assert(claimed(m1) =~= claimed(m0)) by {
        assert forall|c: int| claimed(m1).contains(c) <==> claimed(m0).contains(c) by {
            if is_i64(c) {
                assert(row_at(m1, recent_row(c)) == row_at(m0, recent_row(c)));
            }
        }
    }
    assert forall|s: int| #[trigger] counts(m1, s) implies counter_ok(m1, s) by {
        assert(counts(m0, s));
    }
    if forall|s: int| !#[trigger] counts(m1, s) {
        assert forall|s: int| !#[trigger] counts(m0, s) by {
            assert(!counts(m1, s));
        }
    }
    assert forall|v: int| is_i64(v) implies (#[trigger] taken(m1, v) <==> taken(m0, v)) by {
        assert(row_at(m1, recent_row(v)) == row_at(m0, recent_row(v)));
        if taken(m1, v) {
            let s = choose|s: int| #[trigger]
                counts(m1, s) && (v < s || m1.dom().contains(recent_row(v)));
            assert(counts(m0, s));
        }
        if taken(m0, v) {
            let s = choose|s: int| #[trigger]
                counts(m0, s) && (v < s || m0.dom().contains(recent_row(v)));
            assert(counts(m1, s));
        }
    }
}

/// Layer rows that are not new have prefixes that are handed out.
pub proof fn lemma_layers_taken(m0: Rows, m1: Rows)
    requires
        layers_taken(m0),
        forall|p: Seq<u8>| is_packed(p) && #[trigger] layered(m1, p) ==> layered(m0, p),
        forall|v: int| is_i64(v) && #[trigger] taken(m0, v) ==> taken(m1, v),
    ensures
        layers_taken(m1),
{
    assert forall|v: int| is_i64(v) && layered(m1, #[trigger] int_element(v)) implies taken(
        m1,
        v,
    ) by {
        assert(is_packed(int_element(v)));
        assert(layered(m0, int_element(v)));
        assert(taken(m0, v));
    }
}

/// A change of data rows alone keeps a store healthy, as long as every data
/// row belongs to a directory.
pub proof fn lemma_data_change_keeps(m0: Rows, m1: Rows)
    requires
        healthy(m0),
        forall|k: Seq<u8>| starts_with(k, NODE_PREFIX@) ==> #[trigger] row_at(m1, k) == row_at(
            m0,
            k,
        ),
        forall|k: Seq<u8>|
            !starts_with(k, NODE_PREFIX@) && #[trigger] m1.dom().contains(k) ==> is_data(m0, k),
    ensures
        healthy(m1),
        same_tree(m0, m1),
{
    lemma_layout_constants();
    assert forall|p: Seq<u8>, seg: Seq<u8>| is_node_prefix(p) implies row_at(
        m1,
        #[trigger] child_row(node(p), seg),
    ) == row_at(m0, child_row(node(p), seg)) by {
        crate::flatdir::model::lemma_meta_keys(p, seg, 0);
    }
    assert forall|p: Seq<u8>| is_packed(p) implies row_at(m1, #[trigger] layer_row(node(p)))
        == row_at(m0, layer_row(node(p))) by {
        crate::flatdir::model::lemma_meta_keys(p, Seq::empty(), 0);
    }
    assert forall|v: int| is_i64(v) implies row_at(m1, #[trigger] counter_row(v)) == row_at(
        m0,
        counter_row(v),
    ) by {
        crate::flatdir::model::lemma_meta_keys(Seq::empty(), Seq::empty(), v);
    }
    assert forall|v: int| is_i64(v) implies row_at(m1, #[trigger] recent_row(v)) == row_at(
        m0,
        recent_row(v),
    ) by {
        crate::flatdir::model::lemma_meta_keys(Seq::empty(), Seq::empty(), v);
    }
    crate::flatdir::model::lemma_meta_keys(Seq::empty(), Seq::empty(), 0);
    lemma_same_tree(m0, m1);
    lemma_same_allocator(m0, m1);
    assert forall|p: Seq<u8>| is_packed(p) && #[trigger] layered(m1, p) implies layered(m0, p) by {
        assert(row_at(m1, layer_row(node(p))) == row_at(m0, layer_row(node(p))));
    }
    lemma_layers_taken(m0, m1);
    assert(row_at(m1, VERSION_KEY@) == row_at(m0, VERSION_KEY@));
    assert forall|k: Seq<u8>| #[trigger] m1.dom().contains(k) implies known(m1, k) by {
        if starts_with(k, NODE_PREFIX@) {
            assert(row_at(m1, k) == row_at(m0, k));
            assert(m0.dom().contains(k));
            assert(known(m0, k));
            assert(!is_data(m0, k)) by {
                if is_data(m0, k) {
                    let p = choose|p: Seq<u8>|
                        is_packed(p) && layered(m0, p) && #[trigger] starts_with(k, p);
                    lemma_data_head(k, p);
                }
            }
        } else {
            let p = choose|p: Seq<u8>|
                is_packed(p) && layered(m0, p) && #[trigger] starts_with(k, p);
            assert(row_at(m1, layer_row(node(p))) == row_at(m0, layer_row(node(p))));
            assert(is_data(m1, k));
        }
    }
}

// ---------------------------------------------------------------------------
// Allocation
// ---------------------------------------------------------------------------

/// The allocator's rows of a healthy store are as allocations leave them.
pub proof fn lemma_healthy_hca(m: Rows)
    requires
        healthy(m),
    ensures
        hca_ok(m),
{
    assert forall|k: Seq<u8>| #[trigger]
        m.dom().contains(k) && starts_with(k, COUNTERS_BASE@) implies is_counter(k) && m[k].len()
        == 8 by {
        lemma_kinds(m, k);
    }
    assert forall|k: Seq<u8>| #[trigger]
        m.dom().contains(k) && starts_with(k, RECENT_BASE@) implies is_recent(k) && m[k].len()
        == 0 by {
        lemma_kinds(m, k);
    }
}

/// The counter rows say where the search for a window begins: at the one
/// window with a counter row, or at zero.
pub proof fn lemma_latest_start(m: Rows)
    requires
        hca_ok(m),
    ensures
        match latest_start(m) {
            Some(s) => is_i64(s) && (counts(m, s) || (s == 0 && forall|t: int| !#[trigger] counts(
                m,
                t,
            ))),
            None => false,
        },
{
    assert forall|k: Seq<u8>| #[trigger]
        m.dom().contains(k) && inside(COUNTERS_BASE@, k) implies exists|s: int| #[trigger]
        counts(m, s) && k == counter_row(s) by {
        let s = choose|s: int| is_i64(s) && k == #[trigger] counter_row(s);
        assert(counts(m, s));
    }
    if exists|s: int| counts(m, s) {
        let s = choose|s: int| counts(m, s);
        let k = counter_row(s);
        lemma_counter_inside(s);
        assert forall|j: Seq<u8>| #[trigger]
            m.dom().contains(j) && inside(COUNTERS_BASE@, j) implies le(j, k) by {
            let t = choose|t: int| #[trigger] counts(m, t) && j == counter_row(t);
            assert(t == s);
        }
        assert(is_last_counter(m, k));
        let l = choose|l: Seq<u8>| is_last_counter(m, l);
        assert(is_last_counter(m, l));
        let t = choose|t: int| #[trigger] counts(m, t) && l == counter_row(t);
        assert(t == s);
        lemma_starts_with_concat(COUNTERS_BASE@, int_element(s));
        law_integer_round_trip(s);
    } else {
        assert forall|k: Seq<u8>| !is_last_counter(m, k) by {
            if is_last_counter(m, k) {
                let s = choose|s: int| #[trigger] counts(m, s) && k == counter_row(s);
            }
        }
    }
}

/// A counter row lies strictly inside the counters subspace.
proof fn lemma_counter_inside(s: int)
    requires
        is_i64(s),
    ensures
        inside(COUNTERS_BASE@, counter_row(s)),
{
    lemma_starts_with_concat(COUNTERS_BASE@, int_element(s));
    lemma_int_element_shape(s);
    assert(counter_row(s)[COUNTERS_BASE@.len() as int] == int_element(s)[0]);
}

/// What moving on to the window at `next` leaves of the allocator's rows:
/// those of windows and candidates from `next` on.
pub proof fn lemma_moved_on(m: Rows, next: int, v: int)
    requires
        is_i64(next),
        is_i64(v),
    ensures
        row_at(moved_on(m, next), counter_row(v)) == if v < next {
            None
        } else {
            row_at(m, counter_row(v))
        },
        row_at(moved_on(m, next), recent_row(v)) == if v < next {
            None
        } else {
            row_at(m, recent_row(v))
        },
{
    let c = counter_row(v);
    let r = recent_row(v);
    lemma_int_orders(COUNTERS_BASE@, v, next);
    lemma_int_orders(RECENT_BASE@, v, next);
    lemma_key_shapes(NODE_PREFIX@, Seq::empty(), v);
    lemma_key_shapes(NODE_PREFIX@, Seq::empty(), next);
    if in_range(c, Bound::Included(RECENT_BASE@), Bound::Excluded(recent_row(next))) {
        lemma_between_begins(RECENT_BASE@, int_element(next), c);
        assert(c.subrange(0, 11)[9] == c[9]);
        assert(RECENT_BASE@[9] == 0x15);
    }
    if in_range(r, Bound::Included(COUNTERS_BASE@), Bound::Excluded(counter_row(next))) {
        lemma_between_begins(COUNTERS_BASE@, int_element(next), r);
        assert(r.subrange(0, 10)[9] == r[9]);
        assert(COUNTERS_BASE@[9] == 0x14);
    }
}

/// Packed integers behind a common base lie below a bound as the integers do.
proof fn lemma_int_orders(base: Seq<u8>, v: int, next: int)
    requires
        is_i64(v),
        is_i64(next),
    ensures
        in_range(
            base + int_element(v),
            Bound::Included(base),
            Bound::Excluded(base + int_element(next)),
        ) <==> v < next,
{
    let k = base + int_element(v);
    lemma_starts_with_concat(base, int_element(v));
    lemma_prefix_le(base, k);
    lemma_lt_common_prefix(base, int_element(v), int_element(next));
    if v < next {
        law_integer_order(v, next);
    } else if v > next {
        law_integer_order(next, v);
        lemma_lt_asymmetric(int_element(next), int_element(v));
    } else {
        lemma_lt_irreflexive(int_element(v));
    }
}

/// What the open window looks like.
pub open spec fn opened_ok(m: Rows, opened: Rows, start: int) -> bool {
    &&& is_i64(start)
    &&& is_i64(start + window(start))
    &&& same_outside_hca(m, opened)
    &&& counts(opened, start)
    &&& opened[counter_row(start)].len() == 8
    &&& le_i64(opened[counter_row(start)]) == old_count(m, start) + 1
    &&& forall|s: int| #[trigger] counts(m, s) ==> s <= start
    &&& forall|s: int| #[trigger] counts(opened, s) ==> s == start
    &&& claimed(opened).finite()
    &&& claimed(opened).len() < le_i64(opened[counter_row(start)]) <= window(start)
    &&& forall|c: int| #[trigger] claimed(opened).contains(c) ==> in_window(start, c)
    &&& forall|v: int| #[trigger] taken(m, v) && is_i64(v) ==> v < start || opened.dom().contains(
        recent_row(v),
    )
    &&& forall|k: Seq<u8>| #[trigger]
        opened.dom().contains(k) ==> k == counter_row(start) || (m.dom().contains(k) && opened[k]
            == m[k])
}

/// Incrementing the counter of a window that is not yet half full.
proof fn lemma_open_here(m: Rows, s: int, n: int)
    requires
        is_i64(s),
        is_i64(s + window(s)),
        allocations(m, s) == Some(n),
        2 * n < window(s),
        claimed(m).finite(),
        claimed(m).len() <= n,
        forall|c: int| #[trigger] claimed(m).contains(c) ==> in_window(s, c),
        forall|t: int| #[trigger] counts(m, t) ==> t == s,
        forall|v: int| #[trigger] taken(m, v) && is_i64(v) ==> v < s || m.dom().contains(
            recent_row(v),
        ),
    ensures
        opened_ok(m, m.insert(counter_row(s), le_i64_bytes(n + 1)), s),
{
    let opened = m.insert(counter_row(s), le_i64_bytes(n + 1));
    lemma_le_i64_round_trip(n + 1);
    lemma_hca_rows(s);
    assert forall|k: Seq<u8>| !starts_with(k, HCA_SUBSPACE@) implies #[trigger] row_at(opened, k)
        == row_at(m, k) by {}
    assert(opened.dom().contains(counter_row(s)));
    assert(counts(opened, s));
    assert forall|t: int| #[trigger] counts(opened, t) implies t == s by {
        lemma_hca_key_injective(t, s);
        if t != s {
            assert(counts(m, t));
        }
    }
    assert(claimed(opened) =~= claimed(m)) by {
        assert forall|c: int| claimed(opened).contains(c) <==> claimed(m).contains(c) by {
            if is_i64(c) {
                lemma_hca_key_injective(s, c);
            }
        }
    }
}

/// The count of the only window.
proof fn lemma_allocations(m: Rows, s: int)
    requires
        hca_ok(m),
        is_i64(s),
        counts(m, s) || forall|t: int| !#[trigger] counts(m, t),
    ensures
        match allocations(m, s) {
            Some(n) => claimed(m).len() <= n <= window(s) && (!counts(m, s) ==> n == 0),
            None => false,
        },
        claimed(m).finite(),
        forall|c: int| #[trigger] claimed(m).contains(c) ==> in_window(s, c),
        forall|t: int| #[trigger] counts(m, t) ==> t == s,
        forall|v: int| #[trigger] taken(m, v) && is_i64(v) ==> v < s || m.dom().contains(
            recent_row(v),
        ),
{
    if counts(m, s) {
        assert(counter_ok(m, s));
        lemma_hca_rows(s);
    } else {
        assert(!m.dom().contains(counter_row(s)));
        assert(claimed(m) =~= Set::<int>::empty());
    }
    assert forall|v: int| #[trigger] taken(m, v) && is_i64(v) implies v < s || m.dom().contains(
        recent_row(v),
    ) by {
        let t = choose|t: int| #[trigger]
            counts(m, t) && (v < t || m.dom().contains(recent_row(v)));
        assert(counts(m, t));
    }
}

/// Moving on from the only window leaves no allocator rows.
proof fn lemma_moved_on_empty(m: Rows, s: int)
    requires
        hca_ok(m),
        counts(m, s),
        is_i64(s + window(s)),
    ensures
        forall|t: int| !#[trigger] counts(moved_on(m, s + window(s)), t),
        claimed(moved_on(m, s + window(s))) =~= Set::<int>::empty(),
        forall|v: int| !#[trigger] taken(moved_on(m, s + window(s)), v),
        same_outside_hca(m, moved_on(m, s + window(s))),
{
    let next = s + window(s);
    let mid = moved_on(m, next);
    lemma_allocations(m, s);
    lemma_moved_on_frame(m, next);
    assert forall|t: int| !#[trigger] counts(mid, t) by {
        if counts(mid, t) {
            lemma_moved_on(m, next, t);
            assert(row_at(mid, counter_row(t)) is Some);
            assert(counts(m, t));
        }
    }
    assert forall|c: int| !claimed(mid).contains(c) by {
        if claimed(mid).contains(c) {
            lemma_moved_on(m, next, c);
            assert(row_at(mid, recent_row(c)) is Some);
            assert(claimed(m).contains(c));
        }
    }
}

/// Opening a window.
pub proof fn lemma_opened(m: Rows)
    requires
        hca_ok(m),
        open_window(m) is Some,
    ensures
        opened_ok(m, (open_window(m)->0).0, (open_window(m)->0).1),
{
    lemma_latest_start(m);
    let s = latest_start(m)->0;
    lemma_allocations(m, s);
    let n = allocations(m, s)->0;
    if 2 * n < window(s) {
        lemma_open_here(m, s, n);
    } else {
        let next = s + window(s);
        let mid = moved_on(m, next);
        assert(open_from(m, s) == open_from(mid, next));
        lemma_moved_on_empty(m, s);
        lemma_moved_on(m, next, next);
        assert(!counts(mid, next));
        assert(allocations(mid, next) == Some(0int));
        lemma_open_here(mid, next, 0);
        let opened = mid.insert(counter_row(next), le_i64_bytes(1));
        assert(open_window(m) == Some((opened, next)));
        assert forall|k: Seq<u8>| !starts_with(k, HCA_SUBSPACE@) implies #[trigger] row_at(
            opened,
            k,
        ) == row_at(m, k) by {
            assert(row_at(mid, k) == row_at(m, k));
        }
        assert forall|v: int| #[trigger] taken(m, v) && is_i64(v) implies v < next
            || opened.dom().contains(recent_row(v)) by {
            if m.dom().contains(recent_row(v)) {
                assert(claimed(m).contains(v));
            }
        }
        assert forall|k: Seq<u8>| #[trigger] opened.dom().contains(k) implies k == counter_row(next)
            || (m.dom().contains(k) && opened[k] == m[k]) by {
            if k != counter_row(next) {
                assert(mid.dom().contains(k));
            }
        }
    }
}

/// A change of allocator rows alone keeps the tree and what is known of it.
proof fn lemma_outside_hca_tree(m0: Rows, m1: Rows)
    requires
        same_outside_hca(m0, m1),
    ensures
        same_tree(m0, m1),
        row_at(m1, VERSION_KEY@) == row_at(m0, VERSION_KEY@),
        forall|p: Seq<u8>| is_packed(p) ==> (#[trigger] layered(m1, p) <==> layered(m0, p)),
{
    crate::flatdir::model::lemma_meta_keys(Seq::empty(), Seq::empty(), 0);
    lemma_layout_constants();
    assert forall|p: Seq<u8>, seg: Seq<u8>| is_node_prefix(p) implies row_at(
        m1,
        #[trigger] child_row(node(p), seg),
    ) == row_at(m0, child_row(node(p), seg)) by {
        lemma_tree_outside_hca(p, seg);
    }
    assert forall|p: Seq<u8>| is_packed(p) implies row_at(m1, #[trigger] layer_row(node(p)))
        == row_at(m0, layer_row(node(p))) by {
        lemma_packed(p);
        lemma_tree_outside_hca(p, Seq::empty());
    }
    assert forall|p: Seq<u8>| is_packed(p) implies (#[trigger] layered(m1, p) <==> layered(
        m0,
        p,
    )) by {
        assert(row_at(m1, layer_row(node(p))) == row_at(m0, layer_row(node(p))));
    }
}

/// Opening a window leaves the recent rows from it on alone, and puts its counter
/// one up.
proof fn lemma_open_from_rows(m: Rows, from: int, c: int)
    requires
        open_from(m, from) is Some,
        is_i64(c),
        (open_from(m, from)->0).1 <= c,
    ensures
        ({
            let (opened, s) = open_from(m, from)->0;
            &&& from <= s
            &&& is_i64(s)
            &&& row_at(opened, recent_row(c)) == row_at(m, recent_row(c))
            &&& allocations(m, s) matches Some(n) && row_at(opened, counter_row(s)) == Some(
                le_i64_bytes(n + 1),
            )
        }),
    decreases i64::MAX - from,
{
    let count = allocations(m, from)->0;
    if 2 * count < window(from) {
        lemma_hca_key_injective(from, c);
    } else {
        let next = from + window(from);
        let mid = moved_on(m, next);
        lemma_open_from_rows(mid, next, c);
        let s = (open_from(m, from)->0).1;
        lemma_moved_on(m, next, c);
        lemma_moved_on(m, next, s);
    }
}

/// What an allocation does to any store: its value lies in the open window, nobody
/// had claimed it and now it is claimed, the window's count has gone up by one, and
/// nothing changes outside of the allocator's subspace.
pub proof fn law_allocation_claims(m: Rows, m1: Rows, c: int)
    requires
        is_allocation(m, m1, c),
    ensures
        is_i64(c),
        ({
            let s = (open_window(m)->0).1;
            &&& in_window(s, c)
            &&& latest_start(m)->0 <= s
            &&& allocations(m, s) matches Some(n) && row_at(m1, counter_row(s)) == Some(
                le_i64_bytes(n + 1),
            )
        }),
        row_at(m, recent_row(c)) is None,
        row_at(m1, recent_row(c)) == Some(Seq::<u8>::empty()),
        same_outside_hca(m, m1),
{
    let (opened, start) = open_window(m)->0;
    lemma_allocation_frame(m, m1, c);
    lemma_allocation_range(m, m1, c);
    lemma_open_from_rows(m, latest_start(m)->0, c);
    let mid = choose|mid: Rows| #[trigger]
        retouched(opened, mid, start) && m1 == mid.insert(recent_row(c), Seq::empty());
    lemma_hca_key_injective(start, c);
    assert(mid.dom().contains(counter_row(start)));
    if is_recent_of(start, counter_row(start)) {
        let d = choose|d: int| in_window(start, d) && counter_row(start) == #[trigger] recent_row(d);
        lemma_open_from_range(m, latest_start(m)->0);
        lemma_hca_key_injective(start, d);
    }
}

/// What an allocation does where the allocator's rows come from allocations, whatever
/// the rest of the store holds. Its value lies in the window of the only counter row,
/// whose count has gone up by one; it was not handed out before and is afterwards;
/// what was handed out before still is; and nothing changes outside of the
/// allocator's subspace.
pub proof fn law_allocation(m: Rows, m1: Rows, c: int)
    requires
        hca_ok(m),
        is_allocation(m, m1, c),
    ensures
        hca_ok(m1),
        same_outside_hca(m, m1),
        is_i64(c),
        ({
            let s = (open_window(m)->0).1;
            &&& in_window(s, c)
            &&& forall|t: int| #[trigger] counts(m1, t) <==> t == s
            &&& forall|t: int| #[trigger] counts(m, t) ==> t <= s
            &&& le_i64(m1[counter_row(s)]) == old_count(m, s) + 1
        }),
        row_at(m, recent_row(c)) is None,
        row_at(m1, recent_row(c)) == Some(Seq::<u8>::empty()),
        !taken(m, c),
        taken(m1, c),
        forall|v: int| is_i64(v) && #[trigger] taken(m, v) ==> taken(m1, v),
{
    let (opened, start) = open_window(m)->0;
    lemma_opened(m);
    lemma_allocation_frame(m, m1, c);
    lemma_allocation_range(m, m1, c);
    let mid = choose|mid: Rows| #[trigger]
        retouched(opened, mid, start) && m1 == mid.insert(recent_row(c), Seq::empty());
    assert(taken(m, c) ==> c < start || opened.dom().contains(recent_row(c)));
    lemma_hca_key_injective(start, c);
    assert forall|s: int| is_i64(s) implies counter_row(s) != recent_row(c) by {
        lemma_hca_key_injective(s, c);
    }
    assert forall|s: int| #[trigger] counts(m1, s) <==> s == start by {
        if counts(m1, s) {
            assert(mid.dom().contains(counter_row(s)));
            assert(counts(opened, s));
        }
        if s == start {
            assert(mid.dom().contains(counter_row(start)));
        }
    }
    assert(counts(m1, start));
    assert(claimed(m1) =~= claimed(opened).insert(c)) by {
        assert forall|x: int| claimed(m1).contains(x) <==> claimed(opened).insert(c).contains(x) by {
            if is_i64(x) {
                lemma_hca_key_injective(x, c);
                assert(mid.dom().contains(recent_row(x)) <==> opened.dom().contains(recent_row(x)));
            }
        }
    }
    assert(m1[counter_row(start)] == opened[counter_row(start)]) by {
        assert(mid.dom().contains(counter_row(start)));
        if is_recent_of(start, counter_row(start)) {
            let d = choose|d: int|
                in_window(start, d) && counter_row(start) == #[trigger] recent_row(d);
            lemma_hca_key_injective(start, d);
        }
    }
    assert(counter_ok(m1, start));
    assert(allocator_ok(m1));
    assert(taken(m1, c)) by {
        assert(counts(m1, start) && m1.dom().contains(recent_row(c)));
    }
    assert forall|v: int| is_i64(v) && #[trigger] taken(m, v) implies taken(m1, v) by {
        if v >= start {
            assert(mid.dom().contains(recent_row(v)));
        }
        assert(counts(m1, start) && (v < start || m1.dom().contains(recent_row(v))));
    }
    assert forall|k: Seq<u8>| #[trigger]
        m1.dom().contains(k) && starts_with(k, COUNTERS_BASE@) implies is_counter(k)
        && m1[k].len() == 8 by {
        lemma_hca_rows(c);
        lemma_bases_apart(k);
        lemma_bases_apart(recent_row(c));
        assert(mid.dom().contains(k));
        if k != counter_row(start) {
            assert(opened.dom().contains(k));
            if mid[k] != opened[k] {
                let d = choose|d: int| in_window(start, d) && k == #[trigger] recent_row(d);
                lemma_hca_rows(d);
            }
        }
    }
    assert forall|k: Seq<u8>| #[trigger]
        m1.dom().contains(k) && starts_with(k, RECENT_BASE@) implies is_recent(k)
        && m1[k].len() == 0 by {
        lemma_hca_rows(start);
        lemma_bases_apart(k);
        if k == recent_row(c) {
            assert(is_recent(k));
        } else {
            assert(mid.dom().contains(k));
            assert(opened.dom().contains(k));
            if mid[k] != opened[k] {
                let d = choose|d: int| in_window(start, d) && k == #[trigger] recent_row(d);
                assert(is_recent(k));
            }
        }
    }
    assert(!m.dom().contains(recent_row(c))) by {
        if m.dom().contains(recent_row(c)) {
            lemma_latest_start(m);
            let s = latest_start(m)->0;
            lemma_allocations(m, s);
            assert(claimed(m).contains(c));
            assert(counts(m, s) && m.dom().contains(recent_row(c)));
            assert(taken(m, c));
        }
    }
}

/// A counter row is no recent row.
proof fn lemma_bases_apart(k: Seq<u8>)
    ensures
        !(starts_with(k, COUNTERS_BASE@) && starts_with(k, RECENT_BASE@)),
{
    lemma_key_shapes(NODE_PREFIX@, Seq::empty(), 0);
    lemma_layout_constants();
    if starts_with(k, COUNTERS_BASE@) && starts_with(k, RECENT_BASE@) {
        assert(k.subrange(0, COUNTERS_BASE@.len() as int)[9] == k[9]);
        assert(k.subrange(0, RECENT_BASE@.len() as int)[9] == k[9]);
        assert(COUNTERS_BASE@[9] == 0x14);
        assert(RECENT_BASE@[9] == 0x15);
    }
}

/// Whether two stores have the same rows in the allocator's subspace.
pub open spec fn same_hca(m0: Rows, m1: Rows) -> bool {
    forall|k: Seq<u8>| starts_with(k, HCA_SUBSPACE@) ==> #[trigger] row_at(m1, k) == row_at(m0, k)
}

/// A store without rows in the allocator's subspace is one that no allocation has
/// been made in.
pub proof fn law_no_allocations(m: Rows)
    requires
        forall|k: Seq<u8>| #[trigger] m.dom().contains(k) ==> !starts_with(k, HCA_SUBSPACE@),
    ensures
        hca_ok(m),
        forall|v: int| !#[trigger] taken(m, v),
{
    assert forall|k: Seq<u8>| #[trigger] m.dom().contains(k) implies !starts_with(
        k,
        COUNTERS_BASE@,
    ) && !starts_with(k, RECENT_BASE@) by {
        lemma_in_subspace(k);
    }
    assert forall|s: int| !#[trigger] counts(m, s) by {
        lemma_hca_rows(s);
    }
    assert(claimed(m) =~= Set::empty()) by {
        assert forall|c: int| !claimed(m).contains(c) by {
            lemma_hca_rows(c);
        }
    }
}

/// The counters and the recent rows lie in the allocator's subspace.
proof fn lemma_in_subspace(k: Seq<u8>)
    ensures
        starts_with(k, COUNTERS_BASE@) || starts_with(k, RECENT_BASE@) ==> starts_with(
            k,
            HCA_SUBSPACE@,
        ),
{
    lemma_layout_constants();
    lemma_starts_with_nested(k, HCA_SUBSPACE@, int_element(0));
    lemma_starts_with_nested(k, HCA_SUBSPACE@, int_element(1));
}

/// What the allocator's rows say depends on its subspace alone.
proof fn lemma_same_hca(m0: Rows, m1: Rows)
    requires
        hca_ok(m0),
        same_hca(m0, m1),
    ensures
        hca_ok(m1),
        forall|v: int| is_i64(v) ==> (#[trigger] taken(m1, v) <==> taken(m0, v)),
{
    assert forall|v: int| is_i64(v) implies row_at(m1, #[trigger] counter_row(v)) == row_at(
        m0,
        counter_row(v),
    ) by {
        lemma_hca_rows(v);
    }
    assert forall|v: int| is_i64(v) implies row_at(m1, #[trigger] recent_row(v)) == row_at(
        m0,
        recent_row(v),
    ) by {
        lemma_hca_rows(v);
    }
    lemma_same_allocator(m0, m1);
    assert forall|k: Seq<u8>| #[trigger]
        m1.dom().contains(k) && (starts_with(k, COUNTERS_BASE@) || starts_with(
            k,
            RECENT_BASE@,
        )) implies m0.dom().contains(k) && m0[k] == m1[k] by {
        lemma_in_subspace(k);
        assert(row_at(m1, k) == row_at(m0, k));
    }
}

/// What was handed out stays handed out through a history of allocations.
proof fn lemma_history_taken(before: Seq<Rows>, after: Seq<Rows>, values: Seq<int>, i: int, j: int)
    requires
        is_history(before, after, values),
        0 <= i <= j < values.len(),
    ensures
        hca_ok(before[j]),
        i < j ==> taken(before[j], values[i]) && is_i64(values[i]),
    decreases j,
{
    if j > 0 {
        lemma_history_taken(before, after, values, if i < j { i } else { 0 }, j - 1);
        law_allocation(before[j - 1], after[j - 1], values[j - 1]);
        assert(same_hca(after[j - 1], before[(j - 1) + 1]));
        lemma_same_hca(after[j - 1], before[j]);
    }
}

/// Whether allocations follow each other, the first on a store whose allocator
/// rows are in order, with nothing but other rows changed in between.
pub open spec fn is_history(before: Seq<Rows>, after: Seq<Rows>, values: Seq<int>) -> bool {
    &&& before.len() == values.len()
    &&& after.len() == values.len()
    &&& values.len() > 0 ==> hca_ok(before[0])
    &&& forall|n: int|
        0 <= n < values.len() ==> is_allocation(before[n], after[n], #[trigger] values[n])
    &&& forall|n: int| 0 <= n < values.len() - 1 ==> same_hca(after[n], #[trigger] before[n + 1])
}

/// No value is handed out twice, whatever happens to other rows in between.
pub proof fn law_allocations_differ(
    before: Seq<Rows>,
    after: Seq<Rows>,
    values: Seq<int>,
    i: int,
    j: int,
)
    requires
        is_history(before, after, values),
        0 <= i < j < values.len(),
    ensures
        values[i] != values[j],
{
    lemma_history_taken(before, after, values, i, j);
    law_allocation(before[j], after[j], values[j]);
}

/// An allocation keeps a store healthy. Its value was not handed out before
/// and is afterwards; what was handed out before still is.
pub proof fn law_allocation_is_new(m: Rows, m1: Rows, c: int)
    requires
        healthy(m),
        is_allocation(m, m1, c),
    ensures
        healthy(m1),
        same_tree(m, m1),
        same_outside_hca(m, m1),
        is_i64(c),
        !taken(m, c),
        taken(m1, c),
        forall|v: int| is_i64(v) && #[trigger] taken(m, v) ==> taken(m1, v),
{
    lemma_healthy_hca(m);
    law_allocation(m, m1, c);
    let (opened, start) = open_window(m)->0;
    lemma_opened(m);
    lemma_outside_hca_tree(m, m1);
    let mid = choose|mid: Rows| #[trigger]
        retouched(opened, mid, start) && m1 == mid.insert(recent_row(c), Seq::empty());
    assert(counts(m1, start));
    lemma_same_tree(m, m1);
    lemma_layers_taken(m, m1);
    assert forall|k: Seq<u8>| #[trigger] m1.dom().contains(k) implies known(m1, k) by {
        if k == recent_row(c) {
            assert(is_recent(k));
        } else if k == counter_row(start) {
            assert(is_counter(k));
        } else {
            assert(mid.dom().contains(k));
            assert(opened.dom().contains(k));
            assert(m.dom().contains(k));
            assert(known(m, k));
            if mid[k] != opened[k] {
                let d = choose|d: int| in_window(start, d) && k == #[trigger] recent_row(d);
                assert(is_recent(k));
            }
            if is_data(m, k) {
                let p = choose|p: Seq<u8>|
                    is_packed(p) && layered(m, p) && #[trigger] starts_with(k, p);
                assert(layered(m1, p));
                assert(is_data(m1, k));
            }
        }
    }
}

// ---------------------------------------------------------------------------
// Creation
// ---------------------------------------------------------------------------

/// Writing the version row of a fresh store keeps it healthy.
pub proof fn lemma_with_version_keeps(m: Rows)
    requires
        healthy(m),
    ensures
        healthy(with_version(m)),
        same_tree(m, with_version(m)),
        forall|v: int| is_i64(v) ==> (#[trigger] taken(with_version(m), v) <==> taken(m, v)),
{
    let m1 = with_version(m);
    lemma_with_version(m);
    lemma_key_shapes(NODE_PREFIX@, Seq::empty(), 0);
    assert forall|p: Seq<u8>, seg: Seq<u8>| is_node_prefix(p) implies row_at(
        m1,
        #[trigger] child_row(node(p), seg),
    ) == row_at(m, child_row(node(p), seg)) by {
        lemma_version_is_no_child(p, seg);
    }
    assert forall|p: Seq<u8>| is_packed(p) implies row_at(m1, #[trigger] layer_row(node(p)))
        == row_at(m, layer_row(node(p))) by {
        lemma_key_shapes(p, Seq::empty(), 0);
        lemma_packed(p);
    }
    assert forall|v: int| is_i64(v) implies row_at(m1, #[trigger] counter_row(v)) == row_at(
        m,
        counter_row(v),
    ) by {
        lemma_key_shapes(NODE_PREFIX@, Seq::empty(), v);
    }
    assert forall|v: int| is_i64(v) implies row_at(m1, #[trigger] recent_row(v)) == row_at(
        m,
        recent_row(v),
    ) by {
        lemma_key_shapes(NODE_PREFIX@, Seq::empty(), v);
    }
    lemma_same_tree(m, m1);
    lemma_same_allocator(m, m1);
    assert forall|p: Seq<u8>| is_packed(p) && #[trigger] layered(m1, p) implies layered(m, p) by {
        assert(row_at(m1, layer_row(node(p))) == row_at(m, layer_row(node(p))));
    }
    lemma_layers_taken(m, m1);
    assert forall|k: Seq<u8>| #[trigger] m1.dom().contains(k) implies known(m1, k) by {
        if k != VERSION_KEY@ {
            assert(m.dom().contains(k));
            assert(known(m, k));
            if is_data(m, k) {
                let p = choose|p: Seq<u8>|
                    is_packed(p) && layered(m, p) && #[trigger] starts_with(k, p);
                assert(row_at(m1, layer_row(node(p))) == row_at(m, layer_row(node(p))));
                assert(is_data(m1, k));
            }
        }
    }
}

/// Linking a fresh directory into an existing one keeps a store healthy.
pub proof fn lemma_link_keeps(m: Rows, parent: Seq<u8>, seg: Seq<u8>, v: int)
    requires
        healthy(m),
        is_node_prefix(parent),
        parent == NODE_PREFIX@ || layered(m, parent),
        valid_utf8(seg),
        !linked_at(m, parent, seg),
        is_i64(v),
        !layered(m, int_element(v)),
        taken(m, v),
    ensures
        healthy(linked(m, parent, seg, int_element(v))),
        sub_rows(m, linked(m, parent, seg, int_element(v))),
        forall|s: Seq<u8>| !#[trigger] linked_at(
            linked(m, parent, seg, int_element(v)),
            int_element(v),
            s,
        ),
        forall|q: Seq<u8>|
            is_packed(q) && #[trigger] layered(linked(m, parent, seg, int_element(v)), q) ==> q
                == int_element(v) || layered(m, q),
        forall|x: int|
            is_i64(x) ==> (#[trigger] taken(linked(m, parent, seg, int_element(v)), x) <==> taken(
                m,
                x,
            )),
{
    let p = int_element(v);
    let m1 = linked(m, parent, seg, p);
    let link = child_row(node(parent), seg);
    let layer = layer_row(node(p));
    assert(is_packed(p));
    lemma_layer_is_no_link(p, parent, seg);
    lemma_key_shapes(parent, seg, 0);
    lemma_key_shapes(p, seg, 0);
    lemma_key_shapes(NODE_PREFIX@, seg, 0);
    lemma_packed(p);
    lemma_node_head(parent);
    lemma_layout_constants();
    // The rows of the tree.
    assert forall|q: Seq<u8>, t: Seq<u8>| is_node_prefix(q) && #[trigger] linked_at(m1, q, t) implies {
        ||| q == parent && t == seg && m1[child_row(node(q), t)] == p
        ||| linked_at(m, q, t) && m1[child_row(node(q), t)] == m[child_row(node(q), t)]
    } by {
        lemma_layer_is_no_link(p, q, t);
        if child_row(node(q), t) == link {
            lemma_link_key_injective(q, t, parent, seg);
        }
    }
    assert forall|q: Seq<u8>| is_packed(q) && #[trigger] layered(m1, q) implies q == p || layered(
        m,
        q,
    ) by {
        lemma_layer_is_no_link(q, parent, seg);
        if layer_row(node(q)) == layer {
            lemma_layer_key_injective(q, p);
        }
    }
    assert forall|q: Seq<u8>| #[trigger] layered(m, q) implies layered(m1, q) by {}
    assert forall|q: Seq<u8>, t: Seq<u8>|
        is_node_prefix(q) && #[trigger] linked_at(m, q, t) implies m[child_row(node(q), t)] != p
        && q != p by {
        assert(layered(m, m[child_row(node(q), t)]));
    }
    assert(layered(m1, p));
    assert(links_layered(m1));
    assert(links_injective(m1)) by {
        assert forall|a: Seq<u8>, s: Seq<u8>, b: Seq<u8>, t: Seq<u8>|
            #![trigger linked_at(m1, a, s), linked_at(m1, b, t)]
            is_node_prefix(a) && is_node_prefix(b) && linked_at(m1, a, s) && linked_at(m1, b, t)
                && m1[child_row(node(a), s)] == m1[child_row(node(b), t)] implies a == b && s
            == t by {}
    }
    assert forall|q: Seq<u8>| is_packed(q) && #[trigger] layered(m1, q) implies exists|
        a: Seq<u8>,
        t: Seq<u8>,
    | #[trigger] hangs_at(m1, q, a, t) by {
        if q == p {
            assert(hangs_at(m1, p, parent, seg));
        } else {
            assert(layered(m, q));
            let (a, t) = choose|a: Seq<u8>, t: Seq<u8>| #[trigger] hangs_at(m, q, a, t);
            lemma_layer_is_no_link(p, a, t);
            if child_row(node(a), t) == link {
                lemma_link_key_injective(a, t, parent, seg);
            }
            assert(hangs_at(m1, q, a, t));
        }
    }
    let (rank, bound) = choose|rank: spec_fn(Seq<u8>) -> nat, bound: nat|
        ranked_by(m, rank, bound);
    let higher = |q: Seq<u8>|
        if q == p {
            rank(parent) + 1
        } else {
            rank(q)
        };
    let limit: nat = bound + rank(parent) + 1;
    assert(parent != p);
    assert(ranked_by(m1, higher, limit)) by {
        assert forall|q: Seq<u8>, t: Seq<u8>|
            is_node_prefix(q) && #[trigger] linked_at(m1, q, t) implies higher(q) < higher(
            m1[child_row(node(q), t)],
        ) <= limit by {
            if linked_at(m, q, t) {
                assert(rank(q) < rank(m[child_row(node(q), t)]) <= bound);
            }
        }
    }
    // The allocator's rows.
    assert forall|x: int| is_i64(x) implies row_at(m1, #[trigger] counter_row(x)) == row_at(
        m,
        counter_row(x),
    ) by {
        lemma_key_shapes(parent, seg, x);
    }
    assert forall|x: int| is_i64(x) implies row_at(m1, #[trigger] recent_row(x)) == row_at(
        m,
        recent_row(x),
    ) by {
        lemma_key_shapes(parent, seg, x);
    }
    lemma_same_allocator(m, m1);
    assert forall|x: int| is_i64(x) && layered(m1, #[trigger] int_element(x)) implies taken(
        m1,
        x,
    ) by {
        assert(is_packed(int_element(x)));
        if int_element(x) == p {
            law_integer_round_trip(x);
            law_integer_round_trip(v);
        }
    }
    // Everything else.
    lemma_version_is_no_child(parent, seg);
    assert(row_at(m1, VERSION_KEY@) == row_at(m, VERSION_KEY@));
    assert forall|k: Seq<u8>| #[trigger] m1.dom().contains(k) implies known(m1, k) by {
        if k == link {
            assert(is_link(k));
        } else if k == layer {
            assert(is_layer(k));
        } else {
            assert(m.dom().contains(k));
            assert(known(m, k));
            if is_data(m, k) {
                let q = choose|q: Seq<u8>|
                    is_packed(q) && layered(m, q) && #[trigger] starts_with(k, q);
                assert(layered(m1, q));
                assert(is_data(m1, k));
            }
        }
    }
}

/// Where fewer rows lead, more rows lead too.
pub proof fn lemma_walk_grows(m0: Rows, m1: Rows, path: Seq<Seq<u8>>)
    requires
        links_layered(m0),
        tree_grows(m0, m1),
        walk(m0, path) is Found,
    ensures
        walk(m1, path) == walk(m0, path),
    decreases path.len(),
{
    if path.len() > 0 {
        lemma_walk_grows(m0, m1, path.drop_last());
        let p = walk(m0, path.drop_last())->Found_0;
        let k = child_row(node(p), path.last());
        lemma_walk_healthy(m0, path.drop_last());
        lemma_tree_outside_hca(p, path.last());
        assert(m0.dom().contains(k));
        assert(m1.dom().contains(k) && m1[k] == m0[k]);
    }
}

/// Whether every child row and layer row of one store is in another.
pub open spec fn tree_grows(m0: Rows, m1: Rows) -> bool {
    forall|k: Seq<u8>|
        #![trigger m1.dom().contains(k)]
        m0.dom().contains(k) && !starts_with(k, HCA_SUBSPACE@) ==> m1.dom().contains(k) && m1[k]
            == m0[k]
}

/// Where a path leads in a healthy store: to the root, or to a directory with
/// its layer row.
pub proof fn lemma_walk_healthy(m: Rows, path: Seq<Seq<u8>>)
    requires
        links_layered(m),
        walk(m, path) is Found,
    ensures
        path.len() == 0 ==> walk(m, path)->Found_0 == NODE_PREFIX@,
        path.len() > 0 ==> is_packed(walk(m, path)->Found_0) && layered(
            m,
            walk(m, path)->Found_0,
        ),
        is_node_prefix(walk(m, path)->Found_0),
    decreases path.len(),
{
    if path.len() > 0 {
        lemma_walk_healthy(m, path.drop_last());
        let p = walk(m, path.drop_last())->Found_0;
        assert(linked_at(m, p, path.last()));
    }
}

/// A path of texts is never malformed in a healthy store.
pub proof fn lemma_walk_well_formed(m: Rows, path: Seq<Seq<u8>>)
    requires
        links_layered(m),
        valid_path(path),
    ensures
        !(walk(m, path) is Malformed),
    decreases path.len(),
{
    if path.len() > 0 {
        assert forall|i: int| 0 <= i < path.len() - 1 implies valid_utf8(
            #[trigger] path.drop_last()[i],
        ) by {
            assert(valid_utf8(path[i]));
        }
        lemma_walk_well_formed(m, path.drop_last());
        assert(valid_utf8(path[path.len() - 1]));
        if let Walk::Found(p) = walk(m, path.drop_last()) {
            lemma_walk_healthy(m, path.drop_last());
            if m.dom().contains(child_row(node(p), path.last())) {
                assert(linked_at(m, p, path.last()));
                lemma_packed(m[child_row(node(p), path.last())]);
            }
        }
    }
}

/// The same child rows lead the same way.
pub proof fn lemma_walk_same_tree(m0: Rows, m1: Rows, path: Seq<Seq<u8>>)
    requires
        links_layered(m0),
        same_tree(m0, m1),
    ensures
        walk(m1, path) == walk(m0, path),
    decreases path.len(),
{
    if path.len() > 0 {
        lemma_walk_same_tree(m0, m1, path.drop_last());
        if let Walk::Found(p) = walk(m0, path.drop_last()) {
            lemma_walk_healthy(m0, path.drop_last());
            let k = child_row(node(p), path.last());
            assert(row_at(m1, k) == row_at(m0, k));
        }
    }
}

/// The witnesses of a creation.
pub proof fn lemma_creation_witness(m0: Rows, path: Seq<Seq<u8>>, m1: Rows, p: Seq<u8>) -> (w: (
    int,
    Rows,
    Rows,
    Seq<u8>,
))
    requires
        opens(m0, path, m1, p),
        walk(m0, path) is Missing,
    ensures
        path.len() > 0,
        valid_utf8(path.last()),
        is_allocation(with_version(m0), w.1, w.0),
        p == int_element(w.0),
        opens(w.1, path.drop_last(), w.2, w.3),
        m1 == linked(w.2, w.3, path.last(), p),
{
    let (c, ma, mp, parent) = choose|c: int, ma: Rows, mp: Rows, parent: Seq<u8>|
        {
            &&& #[trigger] is_allocation(with_version(m0), ma, c)
            &&& p == int_element(c)
            &&& !occupied(ma, p)
            &&& prefix_free(ma, p)
            &&& opens(ma, path.drop_last(), mp, parent)
            &&& m1 == #[trigger] linked(mp, parent, path.last(), p)
        };
    (c, ma, mp, parent)
}

/// Whether every child row that is new leads to a prefix that was not in use.
pub open spec fn new_links_fresh(m0: Rows, m1: Rows) -> bool {
    forall|a: Seq<u8>, s: Seq<u8>|
        is_node_prefix(a) && #[trigger] linked_at(m1, a, s) && !linked_at(m0, a, s) ==> !layered(
            m0,
            m1[child_row(node(a), s)],
        )
}

/// Whether `seg` is where a path goes on behind the directory with prefix `a`.
pub open spec fn on_path(m: Rows, path: Seq<Seq<u8>>, a: Seq<u8>, seg: Seq<u8>) -> bool {
    exists|n: int|
        0 <= n < path.len() && #[trigger] path[n] == seg && walk(m, path.subrange(0, n))
            == Walk::Found(a)
}

/// Whether every child row that is new lies on a path.
pub open spec fn new_links_along(m0: Rows, path: Seq<Seq<u8>>, m1: Rows) -> bool {
    forall|a: Seq<u8>, s: Seq<u8>|
        is_node_prefix(a) && #[trigger] linked_at(m1, a, s) && !linked_at(m0, a, s) ==> on_path(
            m1,
            path,
            a,
            s,
        )
}

/// The child rows that linking a directory under its opened parent leaves new lead
/// to prefixes that were not in use, and lie on the path.
proof fn lemma_links_after(
    m0: Rows,
    mv: Rows,
    ma: Rows,
    path: Seq<Seq<u8>>,
    mp: Rows,
    parent: Seq<u8>,
    p: Seq<u8>,
)
    requires
        path.len() > 0,
        same_tree(m0, mv),
        same_tree(mv, ma),
        links_layered(mp),
        new_links_fresh(ma, mp),
        new_links_along(ma, path.drop_last(), mp),
        is_node_prefix(parent),
        is_packed(p),
        !layered(m0, p),
        tree_grows(mp, linked(mp, parent, path.last(), p)),
        walk(mp, path.drop_last()) == Walk::Found(parent),
        walk(linked(mp, parent, path.last(), p), path.drop_last()) == Walk::Found(parent),
    ensures
        new_links_fresh(m0, linked(mp, parent, path.last(), p)),
        new_links_along(m0, path, linked(mp, parent, path.last(), p)),
{
    let seg = path.last();
    let m1 = linked(mp, parent, seg, p);
    let parent_path = path.drop_last();
    assert forall|a: Seq<u8>, s: Seq<u8>|
        is_node_prefix(a) && #[trigger] linked_at(m1, a, s) && !linked_at(
            m0,
            a,
            s,
        ) implies !layered(m0, m1[child_row(node(a), s)]) && on_path(m1, path, a, s) by {
        let k = child_row(node(a), s);
        lemma_layer_is_no_link(p, a, s);
        lemma_layer_is_no_link(p, parent, seg);
        if k == child_row(node(parent), seg) {
            lemma_link_key_injective(a, s, parent, seg);
            let n = path.len() - 1;
            assert(path.subrange(0, n) =~= parent_path);
            assert(path[n] == seg);
        } else {
            assert(linked_at(mp, a, s));
            assert(row_at(mv, k) == row_at(m0, k));
            assert(row_at(ma, k) == row_at(mv, k));
            assert(!linked_at(ma, a, s));
            let c1 = mp[k];
            assert(!layered(ma, c1));
            assert(is_packed(c1));
            let l = layer_row(node(c1));
            assert(row_at(mv, l) == row_at(m0, l));
            assert(row_at(ma, l) == row_at(mv, l));
            assert(on_path(mp, parent_path, a, s));
            let n = choose|n: int|
                0 <= n < parent_path.len() && #[trigger] parent_path[n] == s && walk(
                    mp,
                    parent_path.subrange(0, n),
                ) == Walk::Found(a);
            lemma_walk_grows(mp, m1, parent_path.subrange(0, n));
            assert(parent_path.subrange(0, n) =~= path.subrange(0, n));
            assert(path[n] == s);
        }
    }
}

/// Opening a directory of a healthy store keeps it healthy: the path leads to
/// the directory afterwards, every path that led somewhere still leads there, new
/// child rows lie on the path, and a directory that was created is new and has no
/// children.
pub proof fn lemma_open_keeps(m0: Rows, path: Seq<Seq<u8>>, m1: Rows, p: Seq<u8>)
    requires
        healthy(m0),
        opens(m0, path, m1, p),
    ensures
        healthy(m1),
        walk(m1, path) == Walk::Found(p),
        tree_grows(m0, m1),
        new_links_fresh(m0, m1),
        new_links_along(m0, path, m1),
        walk(m0, path) is Missing ==> is_packed(p) && !layered(m0, p) && forall|s: Seq<u8>|
            !#[trigger] linked_at(m1, p, s),
        forall|v: int| is_i64(v) && #[trigger] taken(m0, v) ==> taken(m1, v),
        forall|v: int|
            is_i64(v) && taken(m0, v) && layered(m1, #[trigger] int_element(v)) ==> layered(
                m0,
                int_element(v),
            ),
    decreases path.len(),
{
    if walk(m0, path) is Missing {
        let (c, ma, mp, parent) = lemma_creation_witness(m0, path, m1, p);
        let mv = with_version(m0);
        let seg = path.last();
        let parent_path = path.drop_last();
        lemma_with_version_keeps(m0);
        law_allocation_is_new(mv, ma, c);
        lemma_walk_same_tree(m0, mv, path);
        lemma_walk_same_tree(mv, ma, path);
        lemma_walk_same_tree(m0, mv, parent_path);
        lemma_walk_same_tree(mv, ma, parent_path);
        lemma_open_keeps(ma, parent_path, mp, parent);
        lemma_walk_healthy(mp, parent_path);
        assert(is_packed(p));
        // The new prefix is not in use yet.
        assert(!taken(m0, c));
        assert(!layered(mv, p));
        assert(!layered(ma, p)) by {
            assert(row_at(ma, layer_row(node(p))) == row_at(mv, layer_row(node(p))));
        }
        assert(taken(ma, c));
        assert(!layered(mp, p));
        assert(taken(mp, c));
        assert(!layered(m0, p));
        // The place for the child row is free.
        assert(!linked_at(mp, parent, seg)) by {
            if walk(ma, parent_path) is Found {
                assert(mp == ma);
                assert(walk(ma, path) is Missing);
            } else {
                assert(!(walk(ma, parent_path) is Malformed));
            }
        }
        lemma_link_keeps(mp, parent, seg, c);
        assert(tree_grows(mp, m1));
        lemma_walk_grows(mp, m1, parent_path);
        lemma_packed(p);
        assert(m1.dom().contains(child_row(node(parent), seg)));
        lemma_layer_is_no_link(p, parent, seg);
        assert(m1[child_row(node(parent), seg)] == p);
        assert(walk(m1, path) == step(m1, parent, seg));
        assert forall|k: Seq<u8>|
            #![trigger m1.dom().contains(k)]
            m0.dom().contains(k) && !starts_with(k, HCA_SUBSPACE@) implies m1.dom().contains(k)
            && m1[k] == m0[k] by {
            assert(mv.dom().contains(k) && mv[k] == m0[k]);
            assert(row_at(ma, k) == row_at(mv, k));
            assert(mp.dom().contains(k) && mp[k] == ma[k]);
        }
        assert forall|v: int| is_i64(v) && #[trigger] taken(m0, v) implies taken(m1, v) by {
            assert(taken(mv, v));
            assert(taken(ma, v));
            assert(taken(mp, v));
        }
        lemma_links_after(m0, mv, ma, path, mp, parent, p);
        assert forall|v: int|
            is_i64(v) && taken(m0, v) && layered(m1, #[trigger] int_element(v)) implies layered(
            m0,
            int_element(v),
        ) by {
            assert(is_packed(int_element(v)));
            assert(taken(mv, v));
            assert(taken(ma, v));
            if int_element(v) == p {
                law_integer_round_trip(v);
                law_integer_round_trip(c);
                assert(v == c);
            }
            assert(layered(mp, int_element(v)));
            assert(layered(ma, int_element(v)));
            let k = layer_row(node(int_element(v)));
            assert(row_at(ma, k) == row_at(mv, k));
            assert(row_at(mv, k) == row_at(m0, k));
        }
    } else {
        assert(walk(m0, path) is Found);
    }
}

// ---------------------------------------------------------------------------
// Success
// ---------------------------------------------------------------------------

/// Whether the range of an `i64` has room for `n` more allocations.
pub open spec fn room(m: Rows, n: nat) -> bool {
    &&& 8192 * (n + 1) <= i64::MAX
    &&& forall|s: int| #[trigger] counts(m, s) ==> s + 8192 * (n + 1) <= i64::MAX
}

/// With room, an allocation on a healthy store is not refused.
pub proof fn lemma_allocation_succeeds(m: Rows)
    requires
        healthy(m),
        room(m, 1),
    ensures
        !allocation_refused(m),
{
    lemma_healthy_hca(m);
    lemma_latest_start(m);
    let s = latest_start(m)->0;
    lemma_allocations(m, s);
    let n = allocations(m, s)->0;
    assert(is_i64(s + window(s)));
    if 2 * n >= window(s) {
        let next = s + window(s);
        let mid = moved_on(m, next);
        lemma_moved_on_empty(m, s);
        lemma_moved_on(m, next, next);
        assert(!counts(mid, next));
        assert(allocations(mid, next) == Some(0int));
        assert(is_i64(next + window(next)));
        assert(open_from(mid, next) is Some);
    }
    assert(open_window(m) is Some);
    lemma_opened(m);
    let (opened, start) = open_window(m)->0;
    if window_full(opened, start) {
        let w = vstd::set_lib::set_int_range(start, start + window(start));
        vstd::set_lib::lemma_int_range(start, start + window(start));
        assert forall|c: int| w.contains(c) implies claimed(opened).contains(c) by {
            assert(in_window(start, c));
        }
        vstd::set_lib::lemma_len_subset(w, claimed(opened));
    }
}

/// An allocation takes up the room of one.
pub proof fn lemma_allocation_room(m: Rows, m1: Rows, c: int, n: nat)
    requires
        healthy(m),
        is_allocation(m, m1, c),
        room(m, n),
        n > 0,
    ensures
        room(m1, (n - 1) as nat),
{
    lemma_healthy_hca(m);
    lemma_latest_start(m);
    lemma_opened(m);
    lemma_allocation_range(m, m1, c);
    let (opened, start) = open_window(m)->0;
    let s = latest_start(m)->0;
    lemma_allocations(m, s);
    let k = allocations(m, s)->0;
    let mid = choose|mid: Rows| #[trigger]
        retouched(opened, mid, start) && m1 == mid.insert(recent_row(c), Seq::empty());
    assert(start <= s + 8192 && (counts(m, s) || start == 0)) by {
        if 2 * k >= window(s) {
            let next = s + window(s);
            lemma_moved_on_empty(m, s);
            lemma_moved_on(m, next, next);
            assert(!counts(moved_on(m, next), next));
            assert(allocations(moved_on(m, next), next) == Some(0int));
            assert(open_from(m, s) == open_from(moved_on(m, next), next));
            assert(start == next);
        }
    }
    assert forall|t: int| #[trigger] counts(m1, t) implies t + 8192 * n <= i64::MAX by {
        lemma_hca_key_injective(t, c);
        assert(mid.dom().contains(counter_row(t)));
        assert(counts(opened, t));
    }
}

/// Every row of the node region begins with the node of the root or of a directory,
/// which has its layer row where child rows hang on such directories only, and goes
/// on behind it.
pub proof fn lemma_node_of_row(m: Rows, k: Seq<u8>) -> (q: Seq<u8>)
    requires
        all_known(m),
        m.dom().contains(k),
        k[0] == 0xFE,
    ensures
        is_node_prefix(q),
        links_layered(m) ==> q == NODE_PREFIX@ || layered(m, q),
        starts_with(k, node(q)),
        k.len() > node(q).len(),
        k[node(q).len() as int] == 0x14 || k[node(q).len() as int] == CODE_BYTES,
{
    assert(known(m, k));
    lemma_layout_constants();
    lemma_key_shapes(NODE_PREFIX@, Seq::empty(), 0);
    lemma_node_head(NODE_PREFIX@);
    if k == VERSION_KEY@ {
        assert(k.subrange(0, 4) =~= node(NODE_PREFIX@));
        NODE_PREFIX@
    } else if is_counter(k) {
        let s = choose|s: int| is_i64(s) && k == #[trigger] counter_row(s);
        lemma_key_shapes(NODE_PREFIX@, Seq::empty(), s);
        assert(k.subrange(0, 4) =~= node(NODE_PREFIX@));
        NODE_PREFIX@
    } else if is_recent(k) {
        let s = choose|s: int| is_i64(s) && k == #[trigger] recent_row(s);
        lemma_key_shapes(NODE_PREFIX@, Seq::empty(), s);
        assert(k.subrange(0, 4) =~= node(NODE_PREFIX@));
        NODE_PREFIX@
    } else if is_layer(k) {
        let p = choose|p: Seq<u8>| is_packed(p) && k == #[trigger] layer_row(node(p));
        lemma_key_shapes(p, Seq::empty(), 0);
        p
    } else if is_link(k) {
        let (p, seg) = choose|p: Seq<u8>, seg: Seq<u8>|
            is_node_prefix(p) && valid_utf8(seg) && k == #[trigger] child_row(node(p), seg);
        lemma_key_shapes(p, seg, 0);
        assert(linked_at(m, p, seg));
        p
    } else {
        let p = choose|p: Seq<u8>| is_packed(p) && layered(m, p) && #[trigger] starts_with(k, p);
        lemma_data_head(k, p);
        p
    }
}

/// A row of the node region leads with the prefix of its node.
pub proof fn lemma_row_payload(q: Seq<u8>, k: Seq<u8>)
    requires
        starts_with(k, node(q)),
        k.len() > node(q).len(),
        k[node(q).len() as int] != 0xFF,
    ensures
        leading_payload(tail(k, 1)) == Some(q),
        tail(tail(k, 1), terminated(q).len() + 1) == tail(k, node(q).len()),
{
    let t = tail(k, node(q).len());
    lemma_starts_with_split(k, node(q));
    lemma_layout_constants();
    assert(t[0] == k[node(q).len() as int]);
    law_element_round_trip(CODE_BYTES, q, t);
    assert(tail(k, 1) =~= bytes_element(q) + t);
    assert(tail(tail(k, 1), terminated(q).len() + 1) =~= t);
}

/// A packed integer that no directory has passes both freedom probes.
pub proof fn lemma_probes_pass(m: Rows, c: int)
    requires
        healthy(m),
        is_i64(c),
        !layered(m, int_element(c)),
    ensures
        !occupied(m, int_element(c)),
        prefix_free(m, int_element(c)),
{
    let p = int_element(c);
    assert(is_packed(p));
    lemma_packed(p);
    assert forall|k: Seq<u8>| #[trigger] m.dom().contains(k) implies !starts_with(k, p) by {
        if starts_with(k, p) {
            lemma_data_head(k, p);
            lemma_kinds(m, k);
            let q = choose|q: Seq<u8>|
                is_packed(q) && layered(m, q) && #[trigger] starts_with(k, q);
            lemma_data_owner(k, p, q);
        }
    }
    assert forall|k: Seq<u8>| #[trigger] m.dom().contains(k) implies !starts_with(k, node(p)) by {
        if starts_with(k, node(p)) {
            lemma_node_head(p);
            assert(k.subrange(0, node(p).len() as int)[0] == k[0]);
            let q = lemma_node_of_row(m, k);
            lemma_node_of_key(p, q, k);
        }
    }
    law_prefix_free(m, p);
}

/// Over rows of the layout, a packed prefix passes the freedom probes exactly if no
/// key begins with its node.
pub proof fn law_prefix_free(m: Rows, p: Seq<u8>)
    requires
        all_known(m),
        is_packed(p),
    ensures
        prefix_free(m, p) <==> forall|k: Seq<u8>| #[trigger]
            m.dom().contains(k) ==> !starts_with(k, node(p)),
{
    lemma_packed(p);
    lemma_layout_constants();
    assert(!starts_with(p, NODE_PREFIX@)) by {
        if starts_with(p, NODE_PREFIX@) {
            assert(p.subrange(0, 1)[0] == p[0]);
        }
    }
    if prefix_free(m, p) {
        assert forall|k: Seq<u8>| #[trigger] m.dom().contains(k) implies !starts_with(k, node(p)) by {
            if starts_with(k, node(p)) {
                lemma_own_span(p, k);
            }
        }
    }
    if forall|k: Seq<u8>| #[trigger] m.dom().contains(k) ==> !starts_with(k, node(p)) {
        lemma_unused_prefix(m, p);
    }
}

/// A packed prefix whose node no key begins with passes the freedom probes.
proof fn lemma_unused_prefix(m: Rows, p: Seq<u8>)
    requires
        all_known(m),
        is_packed(p),
        forall|k: Seq<u8>| #[trigger] m.dom().contains(k) ==> !starts_with(k, node(p)),
    ensures
        node_span_empty(m, p),
        !contained_in_node(m, p),
{
    lemma_packed(p);
    lemma_layout_constants();
    assert forall|k: Seq<u8>| #[trigger] m.dom().contains(k) implies !in_node_span(p, k) by {
        lemma_kinds(m, k);
        if k[0] == 0xFE {
            let q = lemma_node_of_row(m, k);
            lemma_span_misses(p, q, k);
        } else if in_node_span(p, k) {
            lemma_data_row_head(m, k);
            lemma_node_head(p);
            assert(parts_at(k, node(p), 0));
            lemma_lt_asymmetric(k, node(p));
        }
    }
    if contained_in_node(m, p) {
        let k = choose|k: Seq<u8>| #[trigger]
            is_last_node_row(m, p, k) && leading_payload(tail(k, 1)) is Some && starts_with(
                p,
                leading_payload(tail(k, 1))->0,
            );
        lemma_kinds(m, k);
        if k[0] != 0xFE {
            lemma_data_row_head(m, k);
            assert(parts_at(k, NODE_PREFIX@.push(0), 0));
            lemma_lt_asymmetric(k, NODE_PREFIX@.push(0));
        }
        let q = lemma_node_of_row(m, k);
        lemma_row_payload(q, k);
        if q == NODE_PREFIX@ {
            assert(p.subrange(0, 1)[0] == p[0]);
        } else {
            lemma_packed(q);
            lemma_packed_prefix_free(p, q);
        }
        assert(false);
    }
}

/// A data row sorts before the node region.
proof fn lemma_data_row_head(m: Rows, k: Seq<u8>)
    requires
        is_data(m, k),
    ensures
        k.len() > 0,
        k[0] < 0xFE,
{
    let q = choose|q: Seq<u8>| is_packed(q) && layered(m, q) && #[trigger] starts_with(k, q);
    lemma_data_head(k, q);
}

/// A row of another node lies outside of the node span of a packed integer.
proof fn lemma_span_misses(p: Seq<u8>, q: Seq<u8>, k: Seq<u8>)
    requires
        is_packed(p),
        is_node_prefix(q),
        p != q,
        starts_with(k, node(q)),
    ensures
        !in_node_span(p, k),
{
    lemma_packed(p);
    lemma_packed_successor(p);
    lemma_node_head(p);
    lemma_node_head(q);
    lemma_layout_constants();
    let n = successor(p)->0;
    let h = NODE_PREFIX@ + seq![CODE_BYTES];
    assert(node(p) =~= h + terminated(p));
    assert(node(q) =~= h + terminated(q));
    assert(node(n) =~= h + terminated(n));
    lemma_prefix_le(node(q), k);
    assert(!starts_with(q, p)) by {
        if starts_with(q, p) {
            if q == NODE_PREFIX@ {
                assert(q.subrange(0, p.len() as int)[0] == q[0]);
            } else {
                lemma_packed(q);
                lemma_packed_prefix_free(q, p);
            }
        }
    }
    lemma_lt_total(p, q);
    if lt(p, q) {
        law_prefix_range_exact(p, q);
        lemma_lt_total(q, n);
        if n != q {
            lemma_terminated_order(n, q);
        }
        lemma_range_common_prefix(h, terminated(n), terminated(q));
        assert(le(node(n), node(q)));
        lemma_order(node(n), node(q), k);
        if lt(k, node(n)) {
            lemma_order(k, node(n), k);
            lemma_order(node(n), k, node(n));
        }
    } else {
        // `q` sorts before `p`, and so does every row of its node.
        lemma_terminated_order(q, p);
        let i = choose|i: int| parts_at(terminated(q), terminated(p), i);
        if i < terminated(q).len() {
            assert(parts_at(k, node(p), i + 2)) by {
                assert forall|j: int| 0 <= j < i + 2 implies k[j] == node(p)[j] by {
                    assert(k.subrange(0, node(q).len() as int)[j] == k[j]);
                    if j >= 2 {
                        assert(terminated(q)[j - 2] == terminated(p)[j - 2]);
                    }
                }
                assert(k.subrange(0, node(q).len() as int)[i + 2] == k[i + 2]);
            }
            lemma_lt_asymmetric(k, node(p));
        } else {
            assert(terminated(p).subrange(0, terminated(q).len() as int) =~= terminated(q));
            lemma_terminated_begins(q, p);
            if q == NODE_PREFIX@ {
                assert(p.subrange(0, 1)[0] == p[0]);
            } else {
                lemma_packed(q);
                lemma_packed_prefix_free(p, q);
            }
        }
    }
}

/// With room for every missing directory, opening a path of texts in a healthy
/// store is not refused.
pub proof fn lemma_open_succeeds(m: Rows, path: Seq<Seq<u8>>)
    requires
        healthy(m),
        valid_path(path),
        room(m, path.len()),
    ensures
        !open_refused(m, path),
    decreases path.len(),
{
    lemma_walk_well_formed(m, path);
    if walk(m, path) is Missing {
        let mv = with_version(m);
        let parent = path.drop_last();
        assert(valid_utf8(path[path.len() - 1]));
        assert forall|i: int| 0 <= i < parent.len() implies valid_utf8(#[trigger] parent[i]) by {
            assert(valid_utf8(path[i]));
        }
        lemma_with_version_keeps(m);
        assert forall|s: int| #[trigger] counts(mv, s) implies counts(m, s) by {
            lemma_key_shapes(NODE_PREFIX@, Seq::empty(), s);
        }
        assert(room(mv, path.len()));
        assert(room(mv, 1));
        lemma_allocation_succeeds(mv);
        assert forall|c: int, ma: Rows| #[trigger] is_allocation(mv, ma, c) implies !(occupied(
            ma,
            int_element(c),
        ) || !prefix_free(ma, int_element(c)) || open_refused(ma, parent)) by {
            law_allocation_is_new(mv, ma, c);
            lemma_allocation_room(mv, ma, c, path.len());
            let p = int_element(c);
            assert(is_packed(p));
            assert(!layered(mv, p));
            assert(row_at(ma, layer_row(node(p))) == row_at(mv, layer_row(node(p))));
            lemma_probes_pass(ma, c);
            lemma_open_succeeds(ma, parent);
        }
    }
}

/// Opening a path takes up the room of at most one allocation per segment.
pub proof fn lemma_open_room(m0: Rows, path: Seq<Seq<u8>>, m1: Rows, p: Seq<u8>, n: nat)
    requires
        healthy(m0),
        opens(m0, path, m1, p),
        room(m0, n + path.len()),
    ensures
        room(m1, n),
    decreases path.len(),
{
    if walk(m0, path) is Missing {
        let (c, ma, mp, parent) = lemma_creation_witness(m0, path, m1, p);
        let mv = with_version(m0);
        lemma_with_version_keeps(m0);
        assert forall|s: int| #[trigger] counts(mv, s) implies counts(m0, s) by {
            lemma_key_shapes(NODE_PREFIX@, Seq::empty(), s);
        }
        assert(room(mv, n + path.len()));
        law_allocation_is_new(mv, ma, c);
        lemma_allocation_room(mv, ma, c, n + path.len());
        lemma_open_room(ma, path.drop_last(), mp, parent, n);
        lemma_open_keeps(ma, path.drop_last(), mp, parent);
        lemma_walk_healthy(mp, path.drop_last());
        assert(is_packed(p));
        assert forall|s: int| #[trigger] counts(m1, s) implies counts(mp, s) by {
            lemma_key_shapes(parent, path.last(), s);
            lemma_key_shapes(p, path.last(), s);
            lemma_packed(p);
            lemma_layout_constants();
            if parent != NODE_PREFIX@ {
                lemma_packed(parent);
            }
        }
    }
}

} // verus!
