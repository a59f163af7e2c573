//! Which keys the directory operations write or delete.
//!
//! A view keeps account of the keys that were written or deleted through it. A
//! creation adds rows and works within the allocator's subspace; a removal
//! deletes rows that were there. Neither touches a key for nothing.

use vstd::prelude::*;
use vstd::utf8::valid_utf8;

use crate::bytes::{lemma_prefix_le, parts_at, starts_with};
use crate::flatdir::hca::{is_allocation, lemma_allocation_frame, same_outside_hca};
use crate::flatdir::layout::{
    child_row, layer_row, lemma_layout_constants, node, HCA_SUBSPACE, NODE_PREFIX,
};
use crate::flatdir::model::{
    in_node_span, lemma_packed_shape, lemma_packed_successor, lemma_walk_prefix, linked, occupied,
    opens, prefix_free, walk, with_version, Walk,
};
use crate::flatdir::prune::lemma_terminated_begins;
use crate::flatdir::tuple::{
    int_element, int_of_element, lemma_terminated_order, terminated, CODE_BYTES,
};
use crate::keyspace::{law_prefix_range_exact, successor};
use crate::rawkv::{row_at, Rows};

verus! {

/// Whether a view has only come to touch keys of the allocator's subspace, each of a
/// row that was there before or is there now.
pub open spec fn touches_hca(m0: Rows, m1: Rows, t0: Set<Seq<u8>>, t1: Set<Seq<u8>>) -> bool {
    &&& t0.subset_of(t1)
    &&& forall|k: Seq<u8>| #[trigger]
        t1.contains(k) && !t0.contains(k) ==> starts_with(k, HCA_SUBSPACE@) && (m0.dom().contains(k)
            || m1.dom().contains(k))
}

/// Whether every row of `m0` outside of the allocator's subspace is in `m1` as it was.
pub open spec fn keeps_rows(m0: Rows, m1: Rows) -> bool {
    forall|k: Seq<u8>| #[trigger]
        m0.dom().contains(k) && !starts_with(k, HCA_SUBSPACE@) ==> m1.dom().contains(k) && m1[k]
            == m0[k]
}

/// Whether a view has only added rows, the allocator's subspace aside: every row
/// outside of it is as it was, and a key outside of it that the view has come to touch
/// is one of a row that was not there before and is there now.
pub open spec fn only_adds(m0: Rows, m1: Rows, t0: Set<Seq<u8>>, t1: Set<Seq<u8>>) -> bool {
    &&& t0.subset_of(t1)
    &&& keeps_rows(m0, m1)
    &&& forall|k: Seq<u8>| #[trigger]
        t1.contains(k) && !t0.contains(k) && !starts_with(k, HCA_SUBSPACE@) ==> !m0.dom().contains(
            k,
        ) && m1.dom().contains(k)
}

/// The keys that a removal has touched, the version row included where it had to
/// be written: every row that is gone was deleted.
pub open spec fn swept(m0: Rows, m1: Rows, t0: Set<Seq<u8>>) -> Set<Seq<u8>> {
    t0.union(with_version(m0).dom().difference(m0.dom())).union(
        with_version(m0).dom().difference(m1.dom()),
    )
}

/// Adding rows twice adds rows.
pub proof fn lemma_only_adds_transitive(
    a: Rows,
    b: Rows,
    c: Rows,
    ta: Set<Seq<u8>>,
    tb: Set<Seq<u8>>,
    tc: Set<Seq<u8>>,
)
    requires
        only_adds(a, b, ta, tb),
        only_adds(b, c, tb, tc),
    ensures
        only_adds(a, c, ta, tc),
{
    assert forall|k: Seq<u8>| #[trigger]
        a.dom().contains(k) && !starts_with(k, HCA_SUBSPACE@) implies c.dom().contains(k) && c[k]
        == a[k] by {
        assert(b.dom().contains(k));
    }
    assert forall|k: Seq<u8>| #[trigger]
        tc.contains(k) && !ta.contains(k) && !starts_with(k, HCA_SUBSPACE@) implies !a.dom().contains(
        k,
    ) && c.dom().contains(k) by {
        if tb.contains(k) {
            assert(b.dom().contains(k));
        } else {
            assert(!b.dom().contains(k));
        }
    }
}

/// Work within the allocator's subspace adds rows at most there.
pub proof fn lemma_hca_only_adds(m0: Rows, m1: Rows, t0: Set<Seq<u8>>, t1: Set<Seq<u8>>)
    requires
        same_outside_hca(m0, m1),
        touches_hca(m0, m1, t0, t1),
    ensures
        only_adds(m0, m1, t0, t1),
{
    assert forall|k: Seq<u8>| #[trigger]
        m0.dom().contains(k) && !starts_with(k, HCA_SUBSPACE@) implies m1.dom().contains(k)
        && m1[k] == m0[k] by {
        assert(row_at(m1, k) == row_at(m0, k));
    }
}

/// A child row lies outside of the allocator's subspace.
pub proof fn lemma_child_outside_hca(q: Seq<u8>, seg: Seq<u8>)
    requires
        q == NODE_PREFIX@ || int_of_element(q) is Some,
    ensures
        !starts_with(child_row(node(q), seg), HCA_SUBSPACE@),
{
    lemma_layout_constants();
    let k = child_row(node(q), seg);
    assert(HCA_SUBSPACE@[2] == 0xFE && HCA_SUBSPACE@[4] == 0x01);
    if starts_with(k, HCA_SUBSPACE@) {
        assert(k.subrange(0, 9)[2] == k[2]);
        assert(k.subrange(0, 9)[4] == k[4]);
        if q == NODE_PREFIX@ {
            assert(node(q) == crate::flatdir::layout::ROOT_NODE@);
            assert(k[4] == 0x14);
        } else {
            lemma_packed_shape(q);
            assert(node(q) =~= NODE_PREFIX@ + seq![CODE_BYTES] + terminated(q));
            assert(terminated(q)[0] == q[0]);
        }
    }
}

/// Work within the allocator's subspace changes where no path leads.
pub proof fn lemma_walk_outside_hca(m0: Rows, m1: Rows, path: Seq<Seq<u8>>)
    requires
        same_outside_hca(m0, m1),
    ensures
        walk(m1, path) == walk(m0, path),
    decreases path.len(),
{
    if path.len() > 0 {
        let before = path.drop_last();
        lemma_walk_outside_hca(m0, m1, before);
        if let Walk::Found(q) = walk(m0, before) {
            lemma_walk_prefix(m0, before);
            lemma_child_outside_hca(q, path.last());
            let k = child_row(node(q), path.last());
            assert(row_at(m1, k) == row_at(m0, k));
        }
    }
}

/// The rows of a node lie in its span.
pub proof fn lemma_own_span(p: Seq<u8>, k: Seq<u8>)
    requires
        int_of_element(p) is Some,
        starts_with(k, node(p)),
    ensures
        in_node_span(p, k),
{
    lemma_packed_successor(p);
    lemma_packed_shape(p);
    lemma_layout_constants();
    let n = successor(p)->0;
    let h = NODE_PREFIX@ + seq![CODE_BYTES];
    assert(node(p) =~= h + terminated(p));
    assert(node(n) =~= h + terminated(n));
    lemma_prefix_le(node(p), k);
    law_prefix_range_exact(p, p);
    assert(p.subrange(0, p.len() as int) =~= p);
    law_prefix_range_exact(p, n);
    crate::bytes::lemma_lt_irreflexive(n);
    lemma_terminated_order(p, n);
    let i = choose|i: int| parts_at(terminated(p), terminated(n), i);
    if i >= terminated(p).len() {
        assert(terminated(n).subrange(0, terminated(p).len() as int) =~= terminated(p));
        lemma_terminated_begins(p, n);
        assert(false);
    }
    assert(parts_at(k, node(n), i + 2)) by {
        assert forall|j: int| 0 <= j < i + 2 implies k[j] == node(n)[j] by {
            assert(k.subrange(0, node(p).len() as int)[j] == k[j]);
            if j >= 2 {
                assert(terminated(p)[j - 2] == terminated(n)[j - 2]);
            }
        }
        assert(k.subrange(0, node(p).len() as int)[i + 2] == k[i + 2]);
    }
}

/// A child row begins with its node, and so does a layer row.
pub proof fn lemma_rows_of_node(p: Seq<u8>, seg: Seq<u8>)
    ensures
        starts_with(child_row(node(p), seg), node(p)),
        starts_with(layer_row(node(p)), node(p)),
{
    let a = child_row(node(p), seg);
    let b = layer_row(node(p));
    assert(a.subrange(0, node(p).len() as int) =~= node(p));
    assert(b.subrange(0, node(p).len() as int) =~= node(p));
}

/// A directory that had to be created had no rows before, the allocator's subspace
/// aside.
pub proof fn lemma_new_node(m0: Rows, path: Seq<Seq<u8>>, m1: Rows, p: Seq<u8>, k: Seq<u8>)
    requires
        opens(m0, path, m1, p),
        walk(m0, path) is Missing,
        starts_with(k, node(p)),
        !starts_with(k, HCA_SUBSPACE@),
    ensures
        !m0.dom().contains(k),
{
    let (c, ma, mp, parent) = choose|c: int, ma: Rows, mp: Rows, parent: Seq<u8>|
        {
            &&& #[trigger] is_allocation(with_version(m0), ma, c)
            &&& p == int_element(c)
            &&& !occupied(ma, p)
            &&& prefix_free(ma, p)
            &&& opens(ma, path.drop_last(), mp, parent)
            &&& m1 == #[trigger] linked(mp, parent, path.last(), p)
        };
    lemma_allocation_frame(with_version(m0), ma, c);
    crate::flatdir::hca::lemma_allocation_range(with_version(m0), ma, c);
    crate::flatdir::model::lemma_element_packed(c);
    lemma_own_span(p, k);
    assert(row_at(ma, k) == row_at(with_version(m0), k));
}

/// The child row that links a directory under an opened parent was not there
/// before.
pub proof fn lemma_link_is_new(
    m0: Rows,
    ma: Rows,
    path: Seq<Seq<u8>>,
    mp: Rows,
    parent: Seq<u8>,
)
    requires
        path.len() > 0,
        walk(m0, path) is Missing,
        valid_utf8(path.last()),
        same_outside_hca(with_version(m0), ma),
        opens(ma, path.drop_last(), mp, parent),
    ensures
        !starts_with(child_row(node(parent), path.last()), HCA_SUBSPACE@) ==> !m0.dom().contains(
            child_row(node(parent), path.last()),
        ),
{
    let k = child_row(node(parent), path.last());
    lemma_rows_of_node(parent, path.last());
    lemma_walk_outside_hca(with_version(m0), ma, path.drop_last());
    crate::flatdir::model::lemma_walk_with_version(m0, path.drop_last());
    if !starts_with(k, HCA_SUBSPACE@) && !(walk(ma, path.drop_last()) is Found) {
        lemma_new_node(ma, path.drop_last(), mp, parent, k);
        assert(row_at(ma, k) == row_at(with_version(m0), k));
    }
}

/// Writing a row that was not there adds a row.
pub proof fn lemma_insert_only_adds(
    m0: Rows,
    m: Rows,
    t0: Set<Seq<u8>>,
    t: Set<Seq<u8>>,
    key: Seq<u8>,
    value: Seq<u8>,
)
    requires
        only_adds(m0, m, t0, t),
        starts_with(key, HCA_SUBSPACE@) || !m0.dom().contains(key),
    ensures
        only_adds(m0, m.insert(key, value), t0, t.insert(key)),
{
}

} // verus!
