//! Removing a directory keeps a store healthy.

use vstd::prelude::*;
use vstd::utf8::valid_utf8;

use crate::bytes::starts_with;
use crate::flatdir::health::{
    all_known, hangs_at, healthy, is_data, is_layer, is_link, is_node_prefix, is_packed, known,
    layered, layers_linked, lemma_data_head, lemma_data_owner, lemma_key_shapes, lemma_kinds,
    lemma_layer_is_no_link, lemma_layers_taken, lemma_link_key_injective, lemma_node_head,
    lemma_node_of_key, lemma_packed, lemma_same_allocator, lemma_walk_healthy, linked_at,
    links_injective, links_layered, ranked, ranked_by, same_allocator,
};
use crate::flatdir::layout::{
    child_row, counter_row, inside, layer_row, lemma_layout_constants, node, recent_row,
    NODE_PREFIX, VERSION_KEY,
};
use crate::flatdir::model::{is_child_key, walk, Walk};
use crate::flatdir::ops::{lemma_child_row_inside, unlinked};
use crate::flatdir::prune::{
    edge, in_subtree, lemma_child_key_inside, owns, prunable, pruned, reaches, reaches_in, sub_rows,
    tree_within,
};
use crate::flatdir::tuple::{int_element, int_of_element, is_i64};
use crate::rawkv::{row_at, Rows};

verus! {

/// A child row of a node of a healthy store is the one of some segment.
pub proof fn lemma_child_key_is_link(m: Rows, p: Seq<u8>, k: Seq<u8>) -> (seg: Seq<u8>)
    requires
        all_known(m),
        is_node_prefix(p),
        m.dom().contains(k),
        is_child_key(p, k),
    ensures
        valid_utf8(seg),
        k == child_row(node(p), seg),
{
    lemma_child_key_inside(p, k);
    lemma_node_head(p);
    lemma_kinds(m, k);
    lemma_layout_constants();
    let n = node(p).len() as int;
    assert(k.subrange(0, n)[0] == k[0] && k.subrange(0, n)[2] == k[2]);
    assert(k[n] == 0x14) by {
        let base = node(p) + int_element(0);
        assert(k.subrange(0, base.len() as int)[n] == k[n]);
        assert(base[n] == 0x14);
    }
    if is_layer(k) {
        let q = choose|q: Seq<u8>| is_packed(q) && k == #[trigger] layer_row(node(q));
        lemma_key_shapes(q, Seq::empty(), 0);
        lemma_node_of_key(p, q, k);
    }
    assert(is_link(k));
    let (q, seg) = choose|q: Seq<u8>, seg: Seq<u8>|
        is_node_prefix(q) && valid_utf8(seg) && k == #[trigger] child_row(node(q), seg);
    lemma_key_shapes(q, seg, 0);
    lemma_node_of_key(p, q, k);
    seg
}

/// The child rows of a node of a healthy store are those with a segment.
pub proof fn lemma_edge_is_link(m: Rows, p: Seq<u8>, v: Seq<u8>) -> (seg: Seq<u8>)
    requires
        all_known(m),
        is_node_prefix(p),
        edge(m, p, v),
    ensures
        valid_utf8(seg),
        linked_at(m, p, seg),
        m[child_row(node(p), seg)] == v,
{
    let k = choose|k: Seq<u8>| #[trigger] m.dom().contains(k) && is_child_key(p, k) && m[k] == v;
    lemma_child_key_is_link(m, p, k)
}

/// What is reached from a directory of a healthy store is a directory of it,
/// and its rank is higher by at least the number of steps.
proof fn lemma_reached_rank(
    m: Rows,
    rank: spec_fn(Seq<u8>) -> nat,
    bound: nat,
    p: Seq<u8>,
    q: Seq<u8>,
    n: nat,
)
    requires
        all_known(m),
        links_layered(m),
        ranked_by(m, rank, bound),
        is_packed(p),
        layered(m, p),
        reaches_in(m, p, q, n),
    ensures
        is_packed(q),
        layered(m, q),
        rank(p) + n <= rank(q),
    decreases n,
{
    if n > 0 {
        let v = choose|v: Seq<u8>| #[trigger] edge(m, p, v) && reaches_in(m, v, q, (n - 1) as nat);
        let seg = lemma_edge_is_link(m, p, v);
        assert(linked_at(m, p, seg));
        lemma_reached_rank(m, rank, bound, v, q, (n - 1) as nat);
    }
}

/// The last step of a way: where it comes from.
pub proof fn lemma_last_step(m: Rows, p: Seq<u8>, q: Seq<u8>, n: nat) -> (w: Seq<u8>)
    requires
        n > 0,
        reaches_in(m, p, q, n),
    ensures
        reaches_in(m, p, w, (n - 1) as nat),
        edge(m, w, q),
    decreases n,
{
    let v = choose|v: Seq<u8>| #[trigger] edge(m, p, v) && reaches_in(m, v, q, (n - 1) as nat);
    if n == 1 {
        p
    } else {
        let w = lemma_last_step(m, v, q, (n - 1) as nat);
        assert(edge(m, p, v) && reaches_in(m, v, w, (n - 2) as nat));
        w
    }
}

/// A child row with a segment is an edge.
proof fn lemma_link_is_edge(m: Rows, p: Seq<u8>, seg: Seq<u8>)
    requires
        linked_at(m, p, seg),
    ensures
        edge(m, p, m[child_row(node(p), seg)]),
{
    let k = child_row(node(p), seg);
    lemma_child_row_inside(node(p), seg);
    assert(m.dom().contains(k) && is_child_key(p, k));
}

/// One more step.
proof fn lemma_step_on(m: Rows, p: Seq<u8>, q: Seq<u8>, v: Seq<u8>, n: nat)
    requires
        reaches_in(m, p, q, n),
        edge(m, q, v),
    ensures
        reaches_in(m, p, v, n + 1),
{
    assert(reaches_in(m, v, v, 0));
    assert(edge(m, q, v) && reaches_in(m, v, v, 0));
    assert(reaches_in(m, q, v, 1));
    crate::flatdir::prune::lemma_reaches_concat(m, p, q, v, n, 1);
}

/// Every directory of a healthy store has a subtree of finite depth.
proof fn lemma_tree_of_rank(
    m: Rows,
    rank: spec_fn(Seq<u8>) -> nat,
    bound: nat,
    p: Seq<u8>,
    n: nat,
)
    requires
        all_known(m),
        links_layered(m),
        ranked_by(m, rank, bound),
        is_node_prefix(p),
        bound < rank(p) + n,
    ensures
        tree_within(m, p, n + 1),
    decreases n,
{
    assert forall|v: Seq<u8>| #[trigger] edge(m, p, v) implies int_of_element(v) is Some
        && tree_within(m, v, n) by {
        let seg = lemma_edge_is_link(m, p, v);
        assert(linked_at(m, p, seg));
        lemma_packed(v);
        assert(n > 0);
        lemma_tree_of_rank(m, rank, bound, v, (n - 1) as nat);
    }
}

/// The subtree of every directory of a healthy store can be removed.
pub proof fn lemma_healthy_prunable(m: Rows, p: Seq<u8>)
    requires
        healthy(m),
        is_node_prefix(p),
    ensures
        prunable(m, p),
{
    let (rank, bound) = choose|rank: spec_fn(Seq<u8>) -> nat, bound: nat|
        ranked_by(m, rank, bound);
    lemma_tree_of_rank(m, rank, bound, p, bound + 1);
    assert(tree_within(m, p, bound + 2));
}

/// Whose rows the rows of the tree are: a child row or layer row of a node
/// belongs to that directory alone, rows under the root to none.
proof fn lemma_tree_owner(p: Seq<u8>, seg: Seq<u8>, q: Seq<u8>)
    requires
        is_node_prefix(p),
        is_packed(q),
    ensures
        owns(q, child_row(node(p), seg)) <==> p == q,
        is_packed(p) ==> (owns(q, layer_row(node(p))) <==> p == q),
{
    lemma_key_shapes(p, seg, 0);
    lemma_node_head(p);
    lemma_packed(q);
    let a = child_row(node(p), seg);
    let b = layer_row(node(p));
    if starts_with(a, q) {
        lemma_data_head(a, q);
    }
    if starts_with(b, q) {
        lemma_data_head(b, q);
    }
    if inside(node(q), a) {
        lemma_node_of_key(p, q, a);
    }
    if inside(node(q), b) {
        lemma_node_of_key(p, q, b);
    }
}

/// The version row and the allocator's rows belong to no directory.
proof fn lemma_meta_owner(k: Seq<u8>, q: Seq<u8>)
    requires
        is_packed(q),
        k.len() > 2,
        k[0] == 0xFE,
        k[2] == 0xFE,
    ensures
        !owns(q, k),
{
    lemma_packed(q);
    lemma_node_head(q);
    lemma_layout_constants();
    if starts_with(k, q) {
        lemma_data_head(k, q);
    }
    if inside(node(q), k) {
        assert(k.subrange(0, node(q).len() as int)[2] == k[2]);
    }
}

/// Whether `q` is the prefix of the removed directory or lies below it.
pub open spec fn doomed(m: Rows, p: Seq<u8>, q: Seq<u8>) -> bool {
    reaches(m, p, q)
}

/// No directory on the way to `p` lies below `p`: the ranks forbid it.
proof fn lemma_ancestor_safe(
    m: Rows,
    rank: spec_fn(Seq<u8>) -> nat,
    bound: nat,
    path: Seq<Seq<u8>>,
    n: int,
)
    requires
        all_known(m),
        links_layered(m),
        ranked_by(m, rank, bound),
        walk(m, path) is Found,
        0 <= n <= path.len(),
    ensures
        walk(m, path.subrange(0, n)) is Found,
        n < path.len() ==> rank(walk(m, path.subrange(0, n))->Found_0) < rank(
            walk(m, path)->Found_0,
        ),
    decreases path.len() - n,
{
    if n == path.len() {
        assert(path.subrange(0, n) =~= path);
    } else {
        lemma_ancestor_safe(m, rank, bound, path, n + 1);
        let longer = path.subrange(0, n + 1);
        assert(longer.drop_last() =~= path.subrange(0, n));
        let q = walk(m, path.subrange(0, n))->Found_0;
        lemma_walk_healthy(m, path.subrange(0, n));
        assert(linked_at(m, q, longer.last()));
        if n + 1 == path.len() {
            assert(longer =~= path);
        }
    }
}

/// The way to the parent of a removed directory is still there.
proof fn lemma_parent_stays(m: Rows, path: Seq<Seq<u8>>, p: Seq<u8>, n: int)
    requires
        healthy(m),
        path.len() > 0,
        walk(m, path) == Walk::Found(p),
        0 <= n < path.len(),
    ensures
        walk(pruned(m, p), path.subrange(0, n)) == walk(m, path.subrange(0, n)),
        walk(m, path.subrange(0, n)) is Found,
        !doomed(m, p, walk(m, path.subrange(0, n))->Found_0),
    decreases n,
{
    let (rank, bound) = choose|rank: spec_fn(Seq<u8>) -> nat, bound: nat|
        ranked_by(m, rank, bound);
    lemma_ancestor_safe(m, rank, bound, path, n);
    lemma_walk_healthy(m, path);
    let q = walk(m, path.subrange(0, n))->Found_0;
    if doomed(m, p, q) {
        let s = choose|s: nat| reaches_in(m, p, q, s);
        lemma_reached_rank(m, rank, bound, p, q, s);
    }
    if n > 0 {
        lemma_parent_stays(m, path, p, n - 1);
        let here = path.subrange(0, n);
        assert(here.drop_last() =~= path.subrange(0, n - 1));
        let a = walk(m, path.subrange(0, n - 1))->Found_0;
        lemma_walk_healthy(m, path.subrange(0, n - 1));
        lemma_link_stays(m, p, a, here.last());
    }
}

/// A child row of a directory that does not go stays.
pub proof fn lemma_link_stays(m: Rows, p: Seq<u8>, a: Seq<u8>, seg: Seq<u8>)
    requires
        healthy(m),
        is_packed(p),
        layered(m, p),
        is_node_prefix(a),
        !doomed(m, p, a),
    ensures
        row_at(pruned(m, p), child_row(node(a), seg)) == row_at(m, child_row(node(a), seg)),
        is_packed(a) ==> row_at(pruned(m, p), layer_row(node(a))) == row_at(
            m,
            layer_row(node(a)),
        ),
{
    let k = child_row(node(a), seg);
    let l = layer_row(node(a));
    if in_subtree(m, p, k) {
        let q = choose|q: Seq<u8>| #[trigger] reaches(m, p, q) && owns(q, k);
        lemma_doomed_packed(m, p, q);
        lemma_tree_owner(a, seg, q);
    }
    if is_packed(a) && in_subtree(m, p, l) {
        let q = choose|q: Seq<u8>| #[trigger] reaches(m, p, q) && owns(q, l);
        lemma_doomed_packed(m, p, q);
        lemma_tree_owner(a, seg, q);
    }
}

/// What goes is a directory.
pub proof fn lemma_doomed_packed(m: Rows, p: Seq<u8>, q: Seq<u8>)
    requires
        healthy(m),
        is_packed(p),
        layered(m, p),
        doomed(m, p, q),
    ensures
        is_packed(q),
        layered(m, q),
{
    let (rank, bound) = choose|rank: spec_fn(Seq<u8>) -> nat, bound: nat|
        ranked_by(m, rank, bound);
    let s = choose|s: nat| reaches_in(m, p, q, s);
    lemma_reached_rank(m, rank, bound, p, q, s);
}

/// The rows of a directory that goes, go.
proof fn lemma_doomed_rows_go(m: Rows, p: Seq<u8>, q: Seq<u8>, seg: Seq<u8>)
    requires
        healthy(m),
        is_packed(p),
        layered(m, p),
        doomed(m, p, q),
    ensures
        !linked_at(pruned(m, p), q, seg),
        !layered(pruned(m, p), q),
        forall|k: Seq<u8>| starts_with(k, q) ==> !#[trigger] pruned(m, p).dom().contains(k),
{
    lemma_doomed_packed(m, p, q);
    lemma_tree_owner(q, seg, q);
    assert(reaches(m, p, q));
    assert(in_subtree(m, p, child_row(node(q), seg)));
    assert(in_subtree(m, p, layer_row(node(q))));
    assert forall|k: Seq<u8>| starts_with(k, q) implies !#[trigger] pruned(m, p).dom().contains(
        k,
    ) by {
        assert(owns(q, k));
        assert(in_subtree(m, p, k));
    }
}

/// Whether a child row that is left is as it was and joins directories that
/// stay.
pub open spec fn link_left(m: Rows, p: Seq<u8>, m3: Rows, a: Seq<u8>, s: Seq<u8>) -> bool {
    &&& !doomed(m, p, a)
    &&& linked_at(m, a, s)
    &&& m3[child_row(node(a), s)] == m[child_row(node(a), s)]
    &&& !doomed(m, p, m[child_row(node(a), s)])
}

/// Whether the layer row of a directory is left just if the directory stays.
pub open spec fn layer_left(m: Rows, p: Seq<u8>, m3: Rows, q: Seq<u8>) -> bool {
    if doomed(m, p, q) {
        is_packed(q) && !layered(m3, q)
    } else {
        is_packed(q) ==> (layered(m3, q) <==> layered(m, q))
    }
}

/// What is left of the tree once `p` and everything below it is gone: child
/// rows between directories that stay, and the layer rows of these.
pub open spec fn tree_left(m: Rows, p: Seq<u8>, m3: Rows) -> bool {
    &&& forall|a: Seq<u8>, s: Seq<u8>|
        is_node_prefix(a) && #[trigger] linked_at(m3, a, s) ==> link_left(m, p, m3, a, s)
    &&& forall|q: Seq<u8>| #[trigger] layer_left(m, p, m3, q)
}

/// Where the removed directory hangs.
pub proof fn lemma_hanging(m: Rows, path: Seq<Seq<u8>>, p: Seq<u8>) -> (parent: Seq<u8>)
    requires
        healthy(m),
        path.len() > 0,
        walk(m, path) == Walk::Found(p),
    ensures
        is_packed(p),
        layered(m, p),
        is_node_prefix(parent),
        walk(m, path.drop_last()) == Walk::Found(parent),
        linked_at(m, parent, path.last()),
        m[child_row(node(parent), path.last())] == p,
        unlinked(pruned(m, p), path) == pruned(m, p).remove(
            child_row(node(parent), path.last()),
        ),
{
    let n = path.len() - 1;
    lemma_walk_healthy(m, path);
    assert(path.subrange(0, n) =~= path.drop_last());
    lemma_parent_stays(m, path, p, n);
    lemma_walk_healthy(m, path.drop_last());
    walk(m, path.drop_last())->Found_0
}

/// A child row that is left joins directories that stay.
proof fn lemma_link_left(m: Rows, path: Seq<Seq<u8>>, p: Seq<u8>, a: Seq<u8>, s: Seq<u8>)
    requires
        healthy(m),
        path.len() > 0,
        walk(m, path) == Walk::Found(p),
        is_node_prefix(a),
        linked_at(unlinked(pruned(m, p), path), a, s),
    ensures
        !doomed(m, p, a),
        linked_at(m, a, s),
        unlinked(pruned(m, p), path)[child_row(node(a), s)] == m[child_row(node(a), s)],
        !doomed(m, p, m[child_row(node(a), s)]),
{
    let m2 = pruned(m, p);
    let parent = lemma_hanging(m, path, p);
    let k = child_row(node(a), s);
    let v = m[k];
    assert(k != child_row(node(parent), path.last()));
    assert(m2.dom().contains(k));
    assert(linked_at(m, a, s));
    assert(linked_at(m2, a, s));
    if doomed(m, p, a) {
        lemma_doomed_rows_go(m, p, a, s);
    }
    if doomed(m, p, v) {
        let i = choose|i: nat| reaches_in(m, p, v, i);
        if i == 0 {
            // The only child row that leads to `p` is the one taken out.
            lemma_same_target(m, a, s, parent, path.last());
        } else {
            let w = lemma_last_step(m, p, v, i);
            assert(doomed(m, p, w));
            lemma_doomed_packed(m, p, w);
            let t = lemma_edge_is_link(m, w, v);
            lemma_same_target(m, a, s, w, t);
        }
    }
}

/// Only one child row leads to a directory.
proof fn lemma_same_target(m: Rows, a: Seq<u8>, s: Seq<u8>, b: Seq<u8>, t: Seq<u8>)
    requires
        links_injective(m),
        is_node_prefix(a),
        is_node_prefix(b),
        linked_at(m, a, s),
        linked_at(m, b, t),
        m[child_row(node(a), s)] == m[child_row(node(b), t)],
    ensures
        a == b,
        s == t,
{
}

/// The layer row of a directory is left if and only if the directory stays.
proof fn lemma_layer_left(m: Rows, path: Seq<Seq<u8>>, p: Seq<u8>, q: Seq<u8>)
    requires
        healthy(m),
        path.len() > 0,
        walk(m, path) == Walk::Found(p),
    ensures
        is_packed(q) && !doomed(m, p, q) ==> (layered(unlinked(pruned(m, p), path), q) <==> layered(
            m,
            q,
        )),
        doomed(m, p, q) ==> is_packed(q) && !layered(unlinked(pruned(m, p), path), q),
{
    let seg = path.last();
    let parent = lemma_hanging(m, path, p);
    if doomed(m, p, q) {
        lemma_doomed_packed(m, p, q);
        lemma_doomed_rows_go(m, p, q, seg);
    } else if is_packed(q) {
        lemma_link_stays(m, p, q, seg);
        lemma_layer_is_no_link(q, parent, seg);
    }
}

/// The tree that is left.
proof fn lemma_tree_left(m: Rows, path: Seq<Seq<u8>>, p: Seq<u8>)
    requires
        healthy(m),
        path.len() > 0,
        walk(m, path) == Walk::Found(p),
    ensures
        tree_left(m, p, unlinked(pruned(m, p), path)),
{
    let m3 = unlinked(pruned(m, p), path);
    assert forall|a: Seq<u8>, s: Seq<u8>|
        is_node_prefix(a) && #[trigger] linked_at(m3, a, s) implies link_left(m, p, m3, a, s) by {
        lemma_link_left(m, path, p, a, s);
    }
    assert forall|q: Seq<u8>| #[trigger] layer_left(m, p, m3, q) by {
        lemma_layer_left(m, path, p, q);
    }
}

/// The tree that is left keeps the tree's invariant.
proof fn lemma_tree_left_keeps(m: Rows, p: Seq<u8>, m3: Rows)
    requires
        healthy(m),
        tree_left(m, p, m3),
    ensures
        links_layered(m3),
        links_injective(m3),
        ranked(m3),
{
    assert(links_layered(m3)) by {
        assert forall|a: Seq<u8>, s: Seq<u8>|
            is_node_prefix(a) && #[trigger] linked_at(m3, a, s) implies {
            let c = m3[child_row(node(a), s)];
            is_packed(c) && layered(m3, c) && (a == NODE_PREFIX@ || layered(m3, a))
        } by {
            assert(link_left(m, p, m3, a, s));
            assert(linked_at(m, a, s));
            assert(layer_left(m, p, m3, m3[child_row(node(a), s)]));
            assert(layer_left(m, p, m3, a));
        }
    }
    assert(links_injective(m3)) by {
        assert forall|a: Seq<u8>, s: Seq<u8>, b: Seq<u8>, t: Seq<u8>|
            #![trigger linked_at(m3, a, s), linked_at(m3, b, t)]
            is_node_prefix(a) && is_node_prefix(b) && linked_at(m3, a, s) && linked_at(m3, b, t)
                && m3[child_row(node(a), s)] == m3[child_row(node(b), t)] implies a == b && s
            == t by {
            assert(link_left(m, p, m3, a, s) && link_left(m, p, m3, b, t));
            assert(linked_at(m, a, s) && linked_at(m, b, t));
        }
    }
    let (rank, bound) = choose|rank: spec_fn(Seq<u8>) -> nat, bound: nat|
        ranked_by(m, rank, bound);
    assert(ranked_by(m3, rank, bound)) by {
        assert forall|a: Seq<u8>, s: Seq<u8>|
            is_node_prefix(a) && #[trigger] linked_at(m3, a, s) implies rank(a) < rank(
            m3[child_row(node(a), s)],
        ) <= bound by {
            assert(link_left(m, p, m3, a, s));
            assert(linked_at(m, a, s));
        }
    }
}

/// A directory that stays hangs where it hung.
proof fn lemma_hangs_left(m: Rows, path: Seq<Seq<u8>>, p: Seq<u8>)
    requires
        healthy(m),
        path.len() > 0,
        walk(m, path) == Walk::Found(p),
    ensures
        layers_linked(unlinked(pruned(m, p), path)),
{
    let m3 = unlinked(pruned(m, p), path);
    let parent = lemma_hanging(m, path, p);
    assert forall|q: Seq<u8>| is_packed(q) && #[trigger] layered(m3, q) implies exists|
        a: Seq<u8>,
        s: Seq<u8>,
    | #[trigger] hangs_at(m3, q, a, s) by {
        lemma_layer_left(m, path, p, q);
        assert(!doomed(m, p, q));
        assert(layered(m, q));
        let (a, s) = choose|a: Seq<u8>, s: Seq<u8>| #[trigger] hangs_at(m, q, a, s);
        if doomed(m, p, a) {
            let n = choose|n: nat| reaches_in(m, p, a, n);
            lemma_link_is_edge(m, a, s);
            lemma_step_on(m, p, a, q, n);
        }
        lemma_link_stays(m, p, a, s);
        if child_row(node(a), s) == child_row(node(parent), path.last()) {
            assert(q == p);
            assert(reaches_in(m, p, p, 0));
        }
        assert(hangs_at(m3, q, a, s));
    }
}

/// The allocator's rows and the version row stay.
proof fn lemma_meta_left(m: Rows, path: Seq<Seq<u8>>, p: Seq<u8>)
    requires
        healthy(m),
        path.len() > 0,
        walk(m, path) == Walk::Found(p),
    ensures
        same_allocator(m, unlinked(pruned(m, p), path)),
        row_at(unlinked(pruned(m, p), path), VERSION_KEY@) == row_at(m, VERSION_KEY@),
{
    let m3 = unlinked(pruned(m, p), path);
    let seg = path.last();
    let parent = lemma_hanging(m, path, p);
    let link = child_row(node(parent), seg);
    lemma_key_shapes(parent, seg, 0);
    lemma_node_head(parent);
    lemma_layout_constants();
    assert forall|k: Seq<u8>|
        k.len() > 4 && k[0] == 0xFE && k[2] == 0xFE && k[4] != 0x14 implies #[trigger] row_at(
        m3,
        k,
    ) == row_at(m, k) by {
        if in_subtree(m, p, k) {
            let q = choose|q: Seq<u8>| #[trigger] reaches(m, p, q) && owns(q, k);
            lemma_doomed_packed(m, p, q);
            lemma_meta_owner(k, q);
        }
        if k == link && parent != NODE_PREFIX@ {
            lemma_packed(parent);
        }
    }
    assert forall|v: int| is_i64(v) implies row_at(m3, #[trigger] counter_row(v)) == row_at(
        m,
        counter_row(v),
    ) by {
        lemma_key_shapes(NODE_PREFIX@, seg, v);
    }
    assert forall|v: int| is_i64(v) implies row_at(m3, #[trigger] recent_row(v)) == row_at(
        m,
        recent_row(v),
    ) by {
        lemma_key_shapes(NODE_PREFIX@, seg, v);
    }
    lemma_key_shapes(NODE_PREFIX@, seg, 0);
}

/// The data rows of a directory that stays, stay.
proof fn lemma_data_left(m: Rows, path: Seq<Seq<u8>>, p: Seq<u8>, q: Seq<u8>, k: Seq<u8>)
    requires
        healthy(m),
        path.len() > 0,
        walk(m, path) == Walk::Found(p),
        is_packed(q),
        !doomed(m, p, q),
        starts_with(k, q),
    ensures
        row_at(unlinked(pruned(m, p), path), k) == row_at(m, k),
{
    let parent = lemma_hanging(m, path, p);
    lemma_key_shapes(parent, path.last(), 0);
    lemma_data_head(k, q);
    if in_subtree(m, p, k) {
        let r = choose|r: Seq<u8>| #[trigger] reaches(m, p, r) && owns(r, k);
        lemma_doomed_packed(m, p, r);
        lemma_node_head(r);
        if starts_with(k, r) {
            lemma_data_owner(k, q, r);
        } else {
            assert(k.subrange(0, node(r).len() as int)[0] == k[0]);
        }
    }
}

/// What the removal of the directory at a path of a healthy store leaves: a
/// healthy store in which the path leads nowhere, the directory and everything
/// below it is gone, and every other directory is as it was.
pub proof fn lemma_removal_keeps(m: Rows, path: Seq<Seq<u8>>, p: Seq<u8>)
    requires
        healthy(m),
        path.len() > 0,
        walk(m, path) == Walk::Found(p),
    ensures
        prunable(m, p),
        healthy(unlinked(pruned(m, p), path)),
        walk(unlinked(pruned(m, p), path), path) is Missing,
        sub_rows(unlinked(pruned(m, p), path), m),
        tree_left(m, p, unlinked(pruned(m, p), path)),
        forall|q: Seq<u8>, k: Seq<u8>|
            is_packed(q) && !doomed(m, p, q) && #[trigger] starts_with(k, q) ==> row_at(
                unlinked(pruned(m, p), path),
                k,
            ) == row_at(m, k),
        forall|q: Seq<u8>, k: Seq<u8>|
            doomed(m, p, q) && #[trigger] starts_with(k, q) ==> !unlinked(
                pruned(m, p),
                path,
            ).dom().contains(k),
{
    let m2 = pruned(m, p);
    let m3 = unlinked(m2, path);
    let seg = path.last();
    let parent = lemma_hanging(m, path, p);
    let link = child_row(node(parent), seg);
    lemma_healthy_prunable(m, p);
    lemma_tree_left(m, path, p);
    lemma_tree_left_keeps(m, p, m3);
    lemma_hangs_left(m, path, p);
    lemma_meta_left(m, path, p);
    lemma_same_allocator(m, m3);
    assert(sub_rows(m3, m));
    assert forall|q: Seq<u8>| is_packed(q) && #[trigger] layered(m3, q) implies layered(m, q) by {
        assert(layer_left(m, p, m3, q));
    }
    lemma_layers_taken(m, m3);
    assert forall|q: Seq<u8>, k: Seq<u8>|
        is_packed(q) && !doomed(m, p, q) && #[trigger] starts_with(k, q) implies row_at(m3, k)
        == row_at(m, k) by {
        lemma_data_left(m, path, p, q, k);
    }
    assert forall|q: Seq<u8>, k: Seq<u8>|
        doomed(m, p, q) && #[trigger] starts_with(k, q) implies !m3.dom().contains(k) by {
        lemma_doomed_rows_go(m, p, q, seg);
        assert(!m2.dom().contains(k));
    }
    assert forall|k: Seq<u8>| #[trigger] m3.dom().contains(k) implies known(m3, k) by {
        assert(m.dom().contains(k));
        assert(known(m, k));
        if is_data(m, k) {
            let q = choose|q: Seq<u8>|
                is_packed(q) && layered(m, q) && #[trigger] starts_with(k, q);
            assert(!doomed(m, p, q));
            assert(layer_left(m, p, m3, q));
            assert(is_data(m3, k));
        }
    }
    assert(walk(m3, path.drop_last()) == Walk::Found(parent)) by {
        assert(path.subrange(0, path.len() - 1) =~= path.drop_last());
        lemma_parent_keeps(m, m2, m3, path, p, path.len() - 1);
    }
    assert(!m3.dom().contains(link));
    assert(valid_utf8(seg));
}

/// Taking out the child row at the end of a path does not touch the way to it.
proof fn lemma_parent_keeps(
    m: Rows,
    m2: Rows,
    m3: Rows,
    path: Seq<Seq<u8>>,
    p: Seq<u8>,
    n: int,
)
    requires
        healthy(m),
        path.len() > 0,
        walk(m, path) == Walk::Found(p),
        0 <= n < path.len(),
        m2 == pruned(m, p),
        walk(m, path.drop_last()) is Found,
        m3 == m2.remove(child_row(node(walk(m, path.drop_last())->Found_0), path.last())),
    ensures
        walk(m3, path.subrange(0, n)) == walk(m, path.subrange(0, n)),
    decreases n,
{
    lemma_parent_stays(m, path, p, n);
    if n > 0 {
        lemma_parent_keeps(m, m2, m3, path, p, n - 1);
        lemma_parent_stays(m, path, p, n - 1);
        let here = path.subrange(0, n);
        assert(here.drop_last() =~= path.subrange(0, n - 1));
        let a = walk(m, path.subrange(0, n - 1))->Found_0;
        let parent = walk(m, path.drop_last())->Found_0;
        let (rank, bound) = choose|rank: spec_fn(Seq<u8>) -> nat, bound: nat|
            ranked_by(m, rank, bound);
        lemma_walk_healthy(m, path.subrange(0, n - 1));
        lemma_walk_healthy(m, path.drop_last());
        if child_row(node(a), here.last()) == child_row(node(parent), path.last()) {
            lemma_link_key_injective(a, here.last(), parent, path.last());
            assert(path.drop_last().subrange(0, n - 1) =~= path.subrange(0, n - 1));
            lemma_ancestor_safe(m, rank, bound, path.drop_last(), n - 1);
        }
    }
}

} // verus!
