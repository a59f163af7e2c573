//! What a new directory is given: a prefix that nothing in the store uses, a layer row,
//! and a child row in its parent.

use vstd::prelude::*;

use crate::bytes::{le, lemma_order, lemma_starts_with_concat, lt, starts_with, tail};
use crate::call_laws::encoding::{lemma_stands_behind, stands_behind};
use crate::flatdir::error::FlatError;
use crate::flatdir::hca::{is_allocation, lemma_allocation_frame, CandidateSource};
use crate::flatdir::health::{is_packed, lemma_packed, lemma_row_payload};
use crate::flatdir::layout::{
    child_row, layer_row, lemma_layout_constants, node, HCA_SUBSPACE, LAYER_TAG, NODE_PREFIX,
};
use crate::flatdir::model::{
    below_node, contained_in_node, in_node_span, is_last_node_row, linked, occupied, opens,
    prefix_free, with_version,
};
use crate::flatdir::ops::{create_or_open, find, is_prefix_free};
use crate::flatdir::tuple::{int_element, leading_payload};
use crate::flatdir::touch::lemma_own_span;
use crate::key::path_of;
use crate::keyspace::successor;
use crate::rawkv::{row_at, RawKv, Rows};

verus! {

/// A prefix is free exactly if it is not empty and does not begin as the node region
/// does, no key lies between its node and the node of what follows it, and the greatest
/// key of the node region up to its node does not lead with a beginning of the prefix.
pub proof fn law_free_exact<R: RawKv>(raw: R, prefix: &[u8], r: bool, next: Seq<u8>)
    requires
        raw.wf(),
        successor(prefix@) == Some(next),
        call_ensures(is_prefix_free::<R>, (&raw, prefix), Ok::<bool, FlatError<R::Error>>(r)),
    ensures
        r <==> {
            &&& prefix@.len() > 0
            &&& prefix@[0] != 0xFE
            &&& forall|k: Seq<u8>| #[trigger]
                raw.rows().dom().contains(k) ==> lt(k, node(prefix@)) || !lt(k, node(next))
            &&& forall|k: Seq<u8>| #[trigger]
                is_greatest_below(raw.rows(), prefix@, k) ==> !(leading_payload(
                    tail(k, 1),
                ) matches Some(q) && starts_with(prefix@, q))
        },
{
    let m = raw.rows();
    let p = prefix@;
    lemma_layout_constants();
    if p.len() > 0 {
        if starts_with(p, NODE_PREFIX@) {
            assert(p.subrange(0, 1)[0] == p[0]);
        }
        if p[0] == 0xFE {
            assert(p.subrange(0, 1) =~= NODE_PREFIX@);
        }
    }
    assert forall|k: Seq<u8>| in_node_span(p, k) <==> !(lt(k, node(p)) || !lt(k, node(next))) by {
        lemma_order(node(p), k, node(p));
        lemma_order(k, node(p), k);
    }
    assert forall|k: Seq<u8>| is_greatest_below(m, p, k) <==> is_last_node_row(m, p, k) by {
        lemma_greatest(m, p, k);
    }
    if crate::flatdir::model::node_span_empty(m, p) {
        assert forall|k: Seq<u8>| #[trigger] m.dom().contains(k) implies lt(k, node(p)) || !lt(
            k,
            node(next),
        ) by {
            assert(!in_node_span(p, k));
        }
    }
    if contained_in_node(m, p) {
        let k = choose|k: Seq<u8>| #[trigger]
            is_last_node_row(m, p, k) && leading_payload(tail(k, 1)) is Some && starts_with(
                p,
                leading_payload(tail(k, 1))->0,
            );
        assert(is_greatest_below(m, p, k));
    }
}

/// Whether a key is the greatest one of the node region that sorts before the node of the
/// prefix with a zero byte behind it.
pub open spec fn is_greatest_below(m: Rows, p: Seq<u8>, k: Seq<u8>) -> bool {
    &&& m.dom().contains(k)
    &&& !lt(k, seq![0xFEu8, 0x00u8])
    &&& lt(k, node(p.push(0)))
    &&& forall|j: Seq<u8>| #[trigger]
        m.dom().contains(j) && !lt(j, seq![0xFEu8, 0x00u8]) && lt(j, node(p.push(0))) ==> !lt(k, j)
}

/// The two ways to say that a key is the greatest one agree.
proof fn lemma_greatest(m: Rows, p: Seq<u8>, k: Seq<u8>)
    ensures
        is_greatest_below(m, p, k) <==> is_last_node_row(m, p, k),
{
    lemma_layout_constants();
    assert(NODE_PREFIX@.push(0) =~= seq![0xFEu8, 0x00u8]);
    assert forall|j: Seq<u8>| #[trigger] below_node(p, j) <==> !lt(j, seq![0xFEu8, 0x00u8]) && lt(
        j,
        node(p.push(0)),
    ) by {
        lemma_order(seq![0xFEu8, 0x00u8], j, seq![0xFEu8, 0x00u8]);
        lemma_order(j, seq![0xFEu8, 0x00u8], j);
    }
    assert forall|j: Seq<u8>| le(j, k) <==> !#[trigger] lt(k, j) by {
        lemma_order(j, k, j);
        lemma_order(k, j, k);
    }
}

/// A directory that is created has a packed prefix that nothing in the store used: no key
/// stood behind it, and none in its node. It has an empty layer row, and a child row leads
/// to it under the last segment of its path.
pub proof fn law_create_fresh<R: RawKv, S: CandidateSource>(
    before: R,
    after: R,
    source: S,
    path: &[&[u8]],
    q: Vec<u8>,
    k: Seq<u8>,
)
    requires
        before.wf(),
        call_ensures(
            find::<R>,
            (&before, path),
            Ok::<Option<Vec<u8>>, FlatError<R::Error>>(None),
        ),
        exists|x: &mut R, y: &mut S|
            *x == before && *final(x) == after && *y == source && #[trigger] call_ensures(
                create_or_open::<R, S>,
                (x, path, true, y),
                Ok::<Option<Vec<u8>>, FlatError<R::Error>>(Some(q)),
            ),
    ensures
        path@.len() > 0,
        is_packed(q@),
        before.rows().dom().contains(k) ==> !stands_behind(q@, k) && !starts_with(k, node(q@)),
        after.rows().dom().contains(layer_row(node(q@))),
        after.rows()[layer_row(node(q@))].len() == 0,
        exists|w: Seq<u8>|
            row_at(after.rows(), #[trigger] child_row(node(w), path@.last()@)) == Some(q@),
        before.rows().dom().contains(k) && !starts_with(k, HCA_SUBSPACE@)
            ==> after.rows().dom().contains(k) && after.rows()[k] == before.rows()[k],
{
    let m0 = before.rows();
    let segs = path_of(path@);
    let m1 = after.rows();
    let (c, ma, mp, parent) = choose|c: int, ma: Rows, mp: Rows, parent: Seq<u8>|
        {
            &&& #[trigger] is_allocation(with_version(m0), ma, c)
            &&& q@ == int_element(c)
            &&& !occupied(ma, q@)
            &&& prefix_free(ma, q@)
            &&& opens(ma, segs.drop_last(), mp, parent)
            &&& m1 == #[trigger] linked(mp, parent, segs.last(), q@)
        };
    lemma_allocation_frame(with_version(m0), ma, c);
    crate::flatdir::hca::lemma_allocation_range(with_version(m0), ma, c);
    assert(is_packed(q@));
    lemma_packed(q@);
    lemma_layout_constants();
    assert(segs.last() == path@.last()@);
    assert(row_at(m1, child_row(node(parent), path@.last()@)) == Some(q@)) by {
        lemma_linked(mp, parent, segs.last(), q@);
    }
    lemma_linked(mp, parent, segs.last(), q@);
    if m0.dom().contains(k) {
        lemma_stands_behind(q@, k);
        if stands_behind(q@, k) || starts_with(k, node(q@)) {
            assert(!starts_with(k, HCA_SUBSPACE@)) by {
                if starts_with(k, HCA_SUBSPACE@) {
                    assert(k.subrange(0, HCA_SUBSPACE@.len() as int)[0] == k[0]);
                    assert(k.subrange(0, HCA_SUBSPACE@.len() as int)[2] == k[2]);
                    if stands_behind(q@, k) {
                        assert(k.subrange(0, q@.len() as int)[0] == k[0]);
                    } else {
                        crate::flatdir::health::lemma_node_head(q@);
                        assert(k.subrange(0, node(q@).len() as int)[2] == k[2]);
                    }
                }
            }
            assert(row_at(ma, k) == row_at(with_version(m0), k));
            assert(ma.dom().contains(k));
            if starts_with(k, node(q@)) {
                lemma_own_span(q@, k);
            }
        }
    }
}

/// Linking a directory writes its layer row and its child row.
proof fn lemma_linked(m: Rows, parent: Seq<u8>, seg: Seq<u8>, p: Seq<u8>)
    requires
        is_packed(p),
    ensures
        row_at(linked(m, parent, seg, p), child_row(node(parent), seg)) == Some(p),
        row_at(linked(m, parent, seg, p), layer_row(node(p))) == Some(Seq::<u8>::empty()),
{
    let a = child_row(node(parent), seg);
    let b = layer_row(node(p));
    if a == b {
        lemma_layout_constants();
        let t = tail(a, node(parent).len());
        assert(a =~= node(parent) + t);
        assert(a[node(parent).len() as int] == 0x14);
        assert(b[node(p).len() as int] == 0x01);
        lemma_starts_with_concat(node(parent), t);
        lemma_starts_with_concat(node(p), LAYER_TAG@);
        lemma_row_payload(parent, a);
        lemma_row_payload(p, b);
    }
}

} // verus!
