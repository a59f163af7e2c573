//! What the removal of a directory subtree takes away.

use vstd::prelude::*;

use crate::bytes::{
    lemma_prefixes_nest, lemma_starts_with_concat, lemma_starts_with_nested, starts_with, tail,
};
use crate::flatdir::layout::{inside, node, NODE_PREFIX};
use crate::flatdir::model::{is_child_key, lemma_packed_prefix_free, lemma_packed_shape};
use crate::flatdir::tuple::{
    escape, escape_byte, int_element, int_of_element, terminated, CODE_BYTES,
};
use crate::rawkv::{all_rows, Rows};
use crate::stream::KvPair;

verus! {

/// Whether some child row of `p` holds `v`.
pub open spec fn edge(m: Rows, p: Seq<u8>, v: Seq<u8>) -> bool {
    exists|k: Seq<u8>| #[trigger] m.dom().contains(k) && is_child_key(p, k) && m[k] == v
}

/// Whether `q` is reached from `p` through exactly `n` child rows.
pub open spec fn reaches_in(m: Rows, p: Seq<u8>, q: Seq<u8>, n: nat) -> bool
    decreases n,
{
    if n == 0 {
        p == q
    } else {
        exists|v: Seq<u8>| #[trigger] edge(m, p, v) && reaches_in(m, v, q, (n - 1) as nat)
    }
}

/// Whether `q` is `p` or lies below it.
pub open spec fn reaches(m: Rows, p: Seq<u8>, q: Seq<u8>) -> bool {
    exists|n: nat| reaches_in(m, p, q, n)
}

/// Whether the directories below `p` form a tree of less than `n` levels whose
/// every child row holds a packed integer.
pub open spec fn tree_within(m: Rows, p: Seq<u8>, n: nat) -> bool
    decreases n,
{
    n > 0 && forall|v: Seq<u8>| #[trigger]
        edge(m, p, v) ==> int_of_element(v) is Some && tree_within(m, v, (n - 1) as nat)
}

/// Whether the subtree of `p` can be removed: it has finite depth and every
/// child row in it holds a packed integer.
pub open spec fn prunable(m: Rows, p: Seq<u8>) -> bool {
    exists|n: nat| tree_within(m, p, n)
}

/// Whether the row of `k` belongs to the directory with prefix `q`: as a data
/// row, a child row or the layer row.
pub open spec fn owns(q: Seq<u8>, k: Seq<u8>) -> bool {
    starts_with(k, q) || inside(node(q), k)
}

/// Whether the row of `k` belongs to `p` or to a directory below it.
pub open spec fn in_subtree(m: Rows, p: Seq<u8>, k: Seq<u8>) -> bool {
    exists|q: Seq<u8>| #[trigger] reaches(m, p, q) && owns(q, k)
}

/// The rows without those of `p` and of the directories below it.
pub open spec fn pruned(m: Rows, p: Seq<u8>) -> Rows {
    m.remove_keys(Set::new(|k: Seq<u8>| in_subtree(m, p, k)))
}

/// Whether `m1` holds only rows of `m0`.
pub open spec fn sub_rows(m1: Rows, m0: Rows) -> bool {
    forall|k: Seq<u8>| #[trigger]
        m1.dom().contains(k) ==> m0.dom().contains(k) && m1[k] == m0[k]
}

/// Whether a removal of the subtree of `p`, carried through or broken off, can take
/// the rows from `m0` to `m1`: no row is new or changed, and a row that is gone
/// belonged to `p` or to a directory below it.
pub open spec fn takes_within(m0: Rows, p: Seq<u8>, m1: Rows) -> bool {
    &&& sub_rows(m1, m0)
    &&& forall|k: Seq<u8>| #[trigger]
        m0.dom().contains(k) && !m1.dom().contains(k) ==> in_subtree(m0, p, k)
}

/// Where fewer rows reach, more rows do.
pub proof fn lemma_reaches_sub(m1: Rows, m0: Rows, p: Seq<u8>, q: Seq<u8>, n: nat)
    requires
        sub_rows(m1, m0),
        reaches_in(m1, p, q, n),
    ensures
        reaches_in(m0, p, q, n),
    decreases n,
{
    if n > 0 {
        let v = choose|v: Seq<u8>| #[trigger]
            edge(m1, p, v) && reaches_in(m1, v, q, (n - 1) as nat);
        lemma_edge_sub(m1, m0, p, v);
        lemma_reaches_sub(m1, m0, v, q, (n - 1) as nat);
    }
}

proof fn lemma_edge_sub(m1: Rows, m0: Rows, p: Seq<u8>, v: Seq<u8>)
    requires
        sub_rows(m1, m0),
        edge(m1, p, v),
    ensures
        edge(m0, p, v),
{
    let k = choose|k: Seq<u8>| #[trigger]
        m1.dom().contains(k) && is_child_key(p, k) && m1[k] == v;
    assert(m0.dom().contains(k));
}

/// Where more rows form a tree, fewer rows do.
pub proof fn lemma_tree_sub(m1: Rows, m0: Rows, p: Seq<u8>, n: nat)
    requires
        sub_rows(m1, m0),
        tree_within(m0, p, n),
    ensures
        tree_within(m1, p, n),
    decreases n,
{
    assert forall|v: Seq<u8>| #[trigger] edge(m1, p, v) implies int_of_element(v) is Some
        && tree_within(m1, v, (n - 1) as nat) by {
        lemma_edge_sub(m1, m0, p, v);
        lemma_tree_sub(m1, m0, v, (n - 1) as nat);
    }
}

/// A tree of few levels is a tree of at most more levels.
pub proof fn lemma_tree_deeper(m: Rows, p: Seq<u8>, n: nat, d: nat)
    requires
        tree_within(m, p, n),
        n <= d,
    ensures
        tree_within(m, p, d),
    decreases n,
{
    assert forall|v: Seq<u8>| #[trigger] edge(m, p, v) implies int_of_element(v) is Some
        && tree_within(m, v, (d - 1) as nat) by {
        lemma_tree_deeper(m, v, (n - 1) as nat, (d - 1) as nat);
    }
}

/// What lies below the root of a tree is the root of a tree.
pub proof fn lemma_tree_below(m: Rows, p: Seq<u8>, q: Seq<u8>, n: nat, s: nat)
    requires
        tree_within(m, p, n),
        reaches_in(m, p, q, s),
    ensures
        s < n,
        tree_within(m, q, (n - s) as nat),
        s > 0 ==> int_of_element(q) is Some,
    decreases s,
{
    if s > 0 {
        let v = choose|v: Seq<u8>| #[trigger] edge(m, p, v) && reaches_in(m, v, q, (s - 1) as nat);
        lemma_tree_below(m, v, q, (n - 1) as nat, (s - 1) as nat);
    }
}

/// In a tree no directory lies below itself.
pub proof fn lemma_tree_acyclic(m: Rows, p: Seq<u8>, n: nat, s: nat)
    requires
        tree_within(m, p, n),
        reaches_in(m, p, p, s),
    ensures
        s == 0,
    decreases n,
{
    if s > 0 {
        lemma_tree_below(m, p, p, n, s);
        lemma_tree_acyclic(m, p, (n - s) as nat, s);
    }
}

/// Reaching goes on where it arrived.
pub proof fn lemma_reaches_concat(m: Rows, p: Seq<u8>, q: Seq<u8>, r: Seq<u8>, a: nat, b: nat)
    requires
        reaches_in(m, p, q, a),
        reaches_in(m, q, r, b),
    ensures
        reaches_in(m, p, r, a + b),
    decreases a,
{
    if a > 0 {
        let v = choose|v: Seq<u8>| #[trigger] edge(m, p, v) && reaches_in(m, v, q, (a - 1) as nat);
        lemma_reaches_concat(m, v, q, r, (a - 1) as nat, b);
        assert(edge(m, p, v) && reaches_in(m, v, r, (a + b - 1) as nat));
    }
}

/// A terminated payload begins another one only if the payload begins the
/// other one.
pub proof fn lemma_terminated_begins(c: Seq<u8>, q: Seq<u8>)
    requires
        starts_with(terminated(q), terminated(c)),
    ensures
        starts_with(q, c),
    decreases c.len(),
{
    let s = terminated(q);
    let t = terminated(c);
    if c.len() == 0 {
        assert(q.subrange(0, 0) =~= c);
    } else {
        assert(t[0] == c[0]);
        assert(s.subrange(0, t.len() as int)[0] == s[0]);
        if q.len() == 0 {
            assert(escape(q) =~= Seq::<u8>::empty());
            assert(s.len() == 1);
            assert(t.len() >= 2);
            assert(false);
        }
        assert(s[0] == q[0]);
        let x = tail(c, 1);
        let y = tail(q, 1);
        let h = escape_byte(c[0]);
        assert(t =~= h + terminated(x));
        assert(s =~= h + terminated(y));
        lemma_starts_with_nested(s, h, terminated(x));
        lemma_starts_with_concat(h, terminated(y));
        lemma_terminated_begins(x, y);
        assert(q.subrange(0, c.len() as int) =~= c) by {
            assert forall|i: int| 0 <= i < c.len() implies q[i] == c[i] by {
                if i > 0 {
                    assert(y.subrange(0, x.len() as int)[i - 1] == x[i - 1]);
                }
            }
        }
    }
}

/// The node of one packed integer begins the node of another one only if they
/// are the same.
pub proof fn lemma_nodes_apart(c: Seq<u8>, q: Seq<u8>, k: Seq<u8>)
    requires
        int_of_element(c) is Some,
        int_of_element(q) is Some,
        starts_with(k, node(c)),
        starts_with(k, node(q)),
    ensures
        c == q,
{
    if node(c).len() <= node(q).len() {
        lemma_prefixes_nest(k, node(c), node(q));
        lemma_node_begins(c, q);
        lemma_packed_prefix_free(q, c);
    } else {
        lemma_prefixes_nest(k, node(q), node(c));
        lemma_node_begins(q, c);
        lemma_packed_prefix_free(c, q);
    }
}

proof fn lemma_node_begins(c: Seq<u8>, q: Seq<u8>)
    requires
        starts_with(node(q), node(c)),
    ensures
        starts_with(q, c),
{
    let h = NODE_PREFIX@ + seq![CODE_BYTES];
    assert(node(c) =~= h + terminated(c));
    assert(node(q) =~= h + terminated(q));
    lemma_starts_with_nested(node(q), h, terminated(c));
    lemma_starts_with_concat(h, terminated(q));
    lemma_terminated_begins(c, q);
}

/// A row inside the node of a packed integer belongs to no other packed integer.
pub proof fn lemma_owner_of_node_row(c: Seq<u8>, q: Seq<u8>, k: Seq<u8>)
    requires
        int_of_element(c) is Some,
        int_of_element(q) is Some,
        inside(node(c), k),
        owns(q, k),
    ensures
        c == q,
{
    if starts_with(k, q) {
        lemma_packed_shape(q);
        assert(k.subrange(0, q.len() as int)[0] == k[0]);
        assert(k.subrange(0, node(c).len() as int)[0] == k[0]);
        assert(node(c)[0] == 0xFE);
    } else {
        lemma_nodes_apart(c, q, k);
    }
}

/// A child row of `p` lies inside the node of `p`.
pub proof fn lemma_child_key_inside(p: Seq<u8>, k: Seq<u8>)
    requires
        is_child_key(p, k),
    ensures
        inside(node(p), k),
{
    let n = node(p);
    lemma_starts_with_nested(k, n, int_element(0));
    assert(k.subrange(0, (n + int_element(0)).len() as int)[n.len() as int] == k[n.len() as int]);
    assert((n + int_element(0))[n.len() as int] == 0x14);
}

/// Whether `q` is reached from one of the first `i` values of a list.
pub open spec fn reached_from(m: Rows, list: Seq<KvPair>, i: int, q: Seq<u8>) -> bool {
    exists|j: int| 0 <= j < i && reaches(m, (#[trigger] list[j]).value@, q)
}

/// Whether the row of `k` lies in the subtree of one of the first `i` values of
/// a list.
pub open spec fn in_subtrees(m: Rows, list: Seq<KvPair>, i: int, k: Seq<u8>) -> bool {
    exists|q: Seq<u8>| #[trigger] reached_from(m, list, i, q) && owns(q, k)
}

/// The rows without the subtrees of the first `i` values of a list.
pub open spec fn pruned_list(m: Rows, list: Seq<KvPair>, i: int) -> Rows {
    m.remove_keys(Set::new(|k: Seq<u8>| in_subtrees(m, list, i, k)))
}

/// Taking the subtrees of the first children, and then rows of the next one's, takes
/// rows of the whole subtree only.
pub proof fn lemma_takes_child(m: Rows, p: Seq<u8>, list: Seq<KvPair>, i: int, m1: Rows)
    requires
        all_rows(m, list),
        forall|j: int| 0 <= j < list.len() ==> is_child_key(p, (#[trigger] list[j]).key@),
        0 <= i <= list.len(),
        m1 == pruned_list(m, list, i) || (i < list.len() && takes_within(
            pruned_list(m, list, i),
            list[i].value@,
            m1,
        )),
    ensures
        takes_within(m, p, m1),
{
    let mi = pruned_list(m, list, i);
    assert forall|k: Seq<u8>| #[trigger]
        m.dom().contains(k) && !m1.dom().contains(k) implies in_subtree(m, p, k) by {
        if mi.dom().contains(k) {
            let c = list[i].value@;
            assert(in_subtree(mi, c, k));
            let q = choose|q: Seq<u8>| #[trigger] reaches(mi, c, q) && owns(q, k);
            let n = choose|n: nat| reaches_in(mi, c, q, n);
            lemma_reaches_sub(mi, m, c, q, n);
            assert(m.dom().contains(list[i].key@));
            assert(edge(m, p, c));
            assert(reaches_in(m, p, q, n + 1));
            assert(reaches(m, p, q));
        } else {
            let q = choose|q: Seq<u8>| #[trigger] reached_from(m, list, i, q) && owns(q, k);
            let j = choose|j: int| 0 <= j < i && reaches(m, (#[trigger] list[j]).value@, q);
            let c = list[j].value@;
            let n = choose|n: nat| reaches_in(m, c, q, n);
            assert(m.dom().contains(list[j].key@));
            assert(edge(m, p, c));
            assert(reaches_in(m, p, q, n + 1));
            assert(reaches(m, p, q));
        }
    }
    assert forall|k: Seq<u8>| #[trigger] m1.dom().contains(k) implies m.dom().contains(k) && m1[k]
        == m[k] by {
        assert(mi.dom().contains(k));
    }
}

/// Whether the first `i` values of a list are packed integers whose subtrees
/// have less than `d` levels.
pub open spec fn trees_within(m: Rows, list: Seq<KvPair>, i: int, d: nat) -> bool {
    forall|j: int|
        0 <= j < i ==> int_of_element((#[trigger] list[j]).value@) is Some && tree_within(
            m,
            list[j].value@,
            d,
        )
}

/// What the first values of a list reach is a packed integer and the root of a
/// tree.
proof fn lemma_reached_tree(m: Rows, list: Seq<KvPair>, i: int, d: nat, q: Seq<u8>)
    requires
        trees_within(m, list, i, d),
        reached_from(m, list, i, q),
    ensures
        int_of_element(q) is Some,
        tree_within(m, q, d),
{
    let j = choose|j: int| 0 <= j < i && reaches(m, (#[trigger] list[j]).value@, q);
    let c = list[j].value@;
    let s = choose|s: nat| reaches_in(m, c, q, s);
    lemma_tree_below(m, c, q, d, s);
    lemma_tree_deeper(m, q, (d - s) as nat, d);
}

/// Outside of the removed subtrees every edge is still there.
proof fn lemma_edge_kept(m: Rows, list: Seq<KvPair>, i: int, d: nat, c: Seq<u8>, v: Seq<u8>)
    requires
        trees_within(m, list, i, d),
        int_of_element(c) is Some,
        !reached_from(m, list, i, c),
        edge(m, c, v),
    ensures
        edge(pruned_list(m, list, i), c, v),
{
    let k = choose|k: Seq<u8>| #[trigger] m.dom().contains(k) && is_child_key(c, k) && m[k] == v;
    if in_subtrees(m, list, i, k) {
        let q = choose|q: Seq<u8>| #[trigger] reached_from(m, list, i, q) && owns(q, k);
        lemma_reached_tree(m, list, i, d, q);
        lemma_child_key_inside(c, k);
        lemma_owner_of_node_row(c, q, k);
    }
    assert(pruned_list(m, list, i).dom().contains(k));
}

/// A subtree that is a tree once other trees are removed was one before.
pub proof fn lemma_tree_before(m: Rows, list: Seq<KvPair>, i: int, d: nat, c: Seq<u8>, n: nat)
    requires
        trees_within(m, list, i, d),
        int_of_element(c) is Some,
        tree_within(pruned_list(m, list, i), c, n),
    ensures
        tree_within(m, c, n + d),
    decreases n,
{
    if reached_from(m, list, i, c) {
        lemma_reached_tree(m, list, i, d, c);
        lemma_tree_deeper(m, c, d, n + d);
    } else {
        assert forall|v: Seq<u8>| #[trigger] edge(m, c, v) implies int_of_element(v) is Some
            && tree_within(m, v, (n + d - 1) as nat) by {
            lemma_edge_kept(m, list, i, d, c, v);
            lemma_tree_before(m, list, i, d, v, (n - 1) as nat);
        }
    }
}

/// What is reached, but not from the removed subtrees, is still reached.
proof fn lemma_reaches_kept(
    m: Rows,
    list: Seq<KvPair>,
    i: int,
    d: nat,
    c: Seq<u8>,
    q: Seq<u8>,
    e: nat,
    n: nat,
)
    requires
        trees_within(m, list, i, d),
        int_of_element(c) is Some,
        tree_within(m, c, e),
        reaches_in(m, c, q, n),
        !reached_from(m, list, i, q),
    ensures
        reaches_in(pruned_list(m, list, i), c, q, n),
    decreases n,
{
    if n > 0 {
        let v = choose|v: Seq<u8>| #[trigger] edge(m, c, v) && reaches_in(m, v, q, (n - 1) as nat);
        if reached_from(m, list, i, c) {
            let j = choose|j: int| 0 <= j < i && reaches(m, (#[trigger] list[j]).value@, c);
            let s = choose|s: nat| reaches_in(m, list[j].value@, c, s);
            lemma_reaches_concat(m, list[j].value@, c, q, s, n);
            assert(reaches(m, list[j].value@, q));
            assert(false);
        }
        lemma_edge_kept(m, list, i, d, c, v);
        lemma_reaches_kept(m, list, i, d, v, q, (e - 1) as nat, (n - 1) as nat);
    }
}

/// Removing one more subtree from what is left after the first `i`.
pub proof fn lemma_prune_next(m: Rows, list: Seq<KvPair>, i: int, d: nat, n: nat)
    requires
        0 <= i < list.len(),
        trees_within(m, list, i, d),
        int_of_element(list[i].value@) is Some,
        tree_within(pruned_list(m, list, i), list[i].value@, n),
    ensures
        trees_within(m, list, i + 1, n + d),
        pruned(pruned_list(m, list, i), list[i].value@) == pruned_list(m, list, i + 1),
{
    let c = list[i].value@;
    let mi = pruned_list(m, list, i);
    lemma_tree_before(m, list, i, d, c, n);
    assert forall|j: int| 0 <= j < i + 1 implies int_of_element((#[trigger] list[j]).value@) is Some
        && tree_within(m, list[j].value@, n + d) by {
        if j < i {
            lemma_tree_deeper(m, list[j].value@, d, n + d);
        }
    }
    assert(sub_rows(mi, m));
    let a = pruned(mi, c);
    let b = pruned_list(m, list, i + 1);
    assert forall|k: Seq<u8>| m.dom().contains(k) implies (in_subtrees(m, list, i + 1, k) <==> (
    in_subtrees(m, list, i, k) || in_subtree(mi, c, k))) by {
        if in_subtrees(m, list, i, k) {
            let q = choose|q: Seq<u8>| #[trigger] reached_from(m, list, i, q) && owns(q, k);
            let j = choose|j: int| 0 <= j < i && reaches(m, (#[trigger] list[j]).value@, q);
            assert(0 <= j < i + 1 && reaches(m, list[j].value@, q));
            assert(reached_from(m, list, i + 1, q));
        }
        if in_subtree(mi, c, k) {
            let q = choose|q: Seq<u8>| #[trigger] reaches(mi, c, q) && owns(q, k);
            let s = choose|s: nat| reaches_in(mi, c, q, s);
            lemma_reaches_sub(mi, m, c, q, s);
            assert(reaches(m, list[i].value@, q));
            assert(reached_from(m, list, i + 1, q));
        }
        if in_subtrees(m, list, i + 1, k) && !in_subtrees(m, list, i, k) {
            let q = choose|q: Seq<u8>| #[trigger] reached_from(m, list, i + 1, q) && owns(q, k);
            let j = choose|j: int| 0 <= j < i + 1 && reaches(m, (#[trigger] list[j]).value@, q);
            assert(!reached_from(m, list, i, q));
            assert(j == i);
            let s = choose|s: nat| reaches_in(m, c, q, s);
            lemma_reaches_kept(m, list, i, d, c, q, n + d, s);
            assert(reaches(mi, c, q));
        }
    }
    assert(a.dom() =~= b.dom());
    assert(a =~= b);
}

/// Once the subtrees of all children and the rows of `p` itself are removed,
/// the subtree of `p` is.
pub proof fn lemma_prune_whole(m: Rows, p: Seq<u8>, list: Seq<KvPair>, d: nat)
    requires
        trees_within(m, list, list.len() as int, d),
        all_rows(m, list),
        forall|j: int| 0 <= j < list.len() ==> is_child_key(p, (#[trigger] list[j]).key@),
        forall|k: Seq<u8>| #[trigger]
            m.dom().contains(k) && is_child_key(p, k) ==> crate::rawkv::lists_key(list, k),
    ensures
        tree_within(m, p, d + 1),
        pruned(m, p) == pruned_list(m, list, list.len() as int).remove_keys(
            Set::new(|k: Seq<u8>| owns(p, k)),
        ),
{
    let n = list.len() as int;
    assert forall|v: Seq<u8>| #[trigger] edge(m, p, v) implies exists|j: int|
        0 <= j < n && (#[trigger] list[j]).value@ == v by {
        let k = choose|k: Seq<u8>| #[trigger]
            m.dom().contains(k) && is_child_key(p, k) && m[k] == v;
        assert(crate::rawkv::lists_key(list, k));
        let j = choose|j: int| 0 <= j < list.len() && (#[trigger] list[j]).key@ == k;
        assert(list[j].value@ == v);
    }
    assert forall|j: int| 0 <= j < n implies edge(m, p, (#[trigger] list[j]).value@) by {
        assert(m.dom().contains(list[j].key@));
    }
    assert(tree_within(m, p, d + 1)) by {
        assert forall|v: Seq<u8>| #[trigger] edge(m, p, v) implies int_of_element(v) is Some
            && tree_within(m, v, d) by {
            let j = choose|j: int| 0 <= j < n && (#[trigger] list[j]).value@ == v;
            assert(list[j].value@ == v);
        }
    }
    let a = pruned(m, p);
    let b = pruned_list(m, list, n).remove_keys(Set::new(|k: Seq<u8>| owns(p, k)));
    assert forall|k: Seq<u8>| #[trigger] m.dom().contains(k) implies (in_subtree(m, p, k) <==> (in_subtrees(
        m,
        list,
        n,
        k,
    ) || owns(p, k))) by {
        if in_subtree(m, p, k) {
            let q = choose|q: Seq<u8>| #[trigger] reaches(m, p, q) && owns(q, k);
            let s = choose|s: nat| reaches_in(m, p, q, s);
            if s > 0 {
                let v = choose|v: Seq<u8>| #[trigger]
                    edge(m, p, v) && reaches_in(m, v, q, (s - 1) as nat);
                assert(reaches(m, v, q));
                let j = choose|j: int| 0 <= j < n && (#[trigger] list[j]).value@ == v;
                assert(reaches(m, list[j].value@, q));
                assert(reached_from(m, list, n, q));
            }
        }
        if in_subtrees(m, list, n, k) {
            let q = choose|q: Seq<u8>| #[trigger] reached_from(m, list, n, q) && owns(q, k);
            let j = choose|j: int| 0 <= j < n && reaches(m, (#[trigger] list[j]).value@, q);
            let s = choose|s: nat| reaches_in(m, list[j].value@, q, s);
            assert(edge(m, p, list[j].value@) && reaches_in(m, list[j].value@, q, s));
            assert(reaches_in(m, p, q, s + 1));
            assert(reaches(m, p, q));
        }
        if owns(p, k) {
            assert(reaches_in(m, p, p, 0));
            assert(reaches(m, p, p));
        }
    }
    assert forall|k: Seq<u8>| a.dom().contains(k) <==> b.dom().contains(k) by {
        if m.dom().contains(k) {
            assert(in_subtree(m, p, k) <==> (in_subtrees(m, list, n, k) || owns(p, k)));
        }
    }
    assert(a.dom() =~= b.dom());
    assert(a =~= b);
}

} // verus!
