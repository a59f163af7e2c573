//! What the rows of a flat store mean.
//!
//! The directory operations are stated over the rows they work on: which
//! version the store has, which directory a path leads to, which prefixes are
//! free, which rows a directory owns.

use core::ops::Bound;

use vstd::prelude::*;
use vstd::utf8::valid_utf8;

use crate::bytes::{le, lemma_lt_asymmetric, lemma_prefixes_nest, lt, starts_with, tail};
use crate::flatdir::hca::{
    allocation_refused, is_allocation, left_by_refusal, lemma_allocation_range, same_outside_hca,
};
use crate::flatdir::layout::{
    child_row, counter_row, inside, layer_row, lemma_layout_constants, lemma_layout_version, node,
    recent_row, version_of, HCA_SUBSPACE, LAYOUT_VERSION, NODE_PREFIX, VERSION_KEY,
};
use crate::flatdir::tuple::{
    int_element, int_of_element, is_i64, law_integer_round_trip, leading_payload,
};
use crate::keyspace::{in_range, successor};
use crate::rawkv::{row_at, Rows};

verus! {

// ---------------------------------------------------------------------------
// Version
// ---------------------------------------------------------------------------

/// Whether a version value names a version this layout reads.
pub open spec fn readable_version(value: Seq<u8>) -> bool {
    match version_of(value) {
        Some((major, minor, _)) => major <= 1 && minor == 0,
        None => false,
    }
}

/// Whether the store is fresh or has a version this layout reads.
pub open spec fn version_ok(m: Rows) -> bool {
    match row_at(m, VERSION_KEY@) {
        Some(value) => readable_version(value),
        None => true,
    }
}

/// The rows with the version row that a fresh store is given.
pub open spec fn with_version(m: Rows) -> Rows {
    if m.dom().contains(VERSION_KEY@) {
        m
    } else {
        m.insert(VERSION_KEY@, LAYOUT_VERSION@)
    }
}

// ---------------------------------------------------------------------------
// Paths
// ---------------------------------------------------------------------------

/// Where a path leads.
pub enum Walk {
    /// To the directory with this allocated prefix.
    Found(Seq<u8>),
    /// To no directory.
    Missing,
    /// Through a segment that is no text or a child row that holds no prefix.
    Malformed,
}

/// Where one segment leads from the directory with prefix `p`.
pub open spec fn step(m: Rows, p: Seq<u8>, seg: Seq<u8>) -> Walk {
    if !valid_utf8(seg) {
        Walk::Malformed
    } else {
        match row_at(m, child_row(node(p), seg)) {
            None => Walk::Missing,
            Some(v) => if int_of_element(v) is Some {
                Walk::Found(v)
            } else {
                Walk::Malformed
            },
        }
    }
}

/// Where a path leads from the root of the layout. A missing parent is not an
/// error: the path just leads nowhere.
pub open spec fn walk(m: Rows, path: Seq<Seq<u8>>) -> Walk
    decreases path.len(),
{
    if path.len() == 0 {
        Walk::Found(NODE_PREFIX@)
    } else {
        match walk(m, path.drop_last()) {
            Walk::Found(p) => step(m, p, path.last()),
            other => other,
        }
    }
}

/// A walk that stops short of the end of the path stops there.
pub proof fn lemma_walk_stops(m: Rows, path: Seq<Seq<u8>>, n: int)
    requires
        0 <= n <= path.len(),
        !(walk(m, path.subrange(0, n)) is Found),
    ensures
        walk(m, path) == walk(m, path.subrange(0, n)),
    decreases path.len() - n,
{
    if n == path.len() {
        assert(path.subrange(0, n) =~= path);
    } else {
        assert(path.subrange(0, n + 1).drop_last() =~= path.subrange(0, n));
        lemma_walk_stops(m, path, n + 1);
    }
}

/// A path that leads somewhere from the root leads to a packed integer.
pub proof fn lemma_walk_prefix(m: Rows, path: Seq<Seq<u8>>)
    requires
        walk(m, path) is Found,
    ensures
        path.len() > 0 ==> int_of_element(walk(m, path)->Found_0) is Some,
        path.len() == 0 ==> walk(m, path)->Found_0 == NODE_PREFIX@,
{
}

// ---------------------------------------------------------------------------
// Data keys
// ---------------------------------------------------------------------------

/// Whether `p` is a packed integer at the front of `key`.
pub open spec fn is_data_prefix(key: Seq<u8>, p: Seq<u8>) -> bool {
    starts_with(key, p) && int_of_element(p) is Some
}

/// The packed integer at the front of a key.
pub open spec fn data_prefix(key: Seq<u8>) -> Option<Seq<u8>> {
    if exists|p: Seq<u8>| is_data_prefix(key, p) {
        Some(choose|p: Seq<u8>| is_data_prefix(key, p))
    } else {
        None
    }
}

/// The length that the first byte of a packed integer announces.
pub open spec fn announced_len(code: u8) -> nat {
    if code >= 0x14 {
        (1 + code - 0x14) as nat
    } else {
        (1 + 0x14 - code) as nat
    }
}

/// A packed integer begins with `0x0c..=0x1c`, which announces its length.
pub proof fn lemma_packed_shape(p: Seq<u8>)
    requires
        int_of_element(p) is Some,
    ensures
        p.len() > 0,
        0x0c <= p[0] <= 0x1c,
        p.len() == announced_len(p[0]),
{
}

/// No packed integer begins another one.
pub proof fn lemma_packed_prefix_free(p: Seq<u8>, q: Seq<u8>)
    requires
        int_of_element(p) is Some,
        int_of_element(q) is Some,
        starts_with(p, q),
    ensures
        p == q,
{
    lemma_packed_shape(p);
    lemma_packed_shape(q);
    assert(p.subrange(0, q.len() as int)[0] == p[0]);
    assert(p =~= p.subrange(0, q.len() as int));
}

/// A key has at most one packed integer at its front.
pub proof fn lemma_data_prefix_unique(key: Seq<u8>, p: Seq<u8>)
    requires
        is_data_prefix(key, p),
    ensures
        data_prefix(key) == Some(p),
{
    let q = data_prefix(key)->0;
    assert(is_data_prefix(key, q));
    if p.len() <= q.len() {
        lemma_prefixes_nest(key, p, q);
        lemma_packed_prefix_free(q, p);
    } else {
        lemma_prefixes_nest(key, q, p);
        lemma_packed_prefix_free(p, q);
    }
}

/// A packed integer has a successor as a prefix.
pub proof fn lemma_packed_successor(p: Seq<u8>)
    requires
        int_of_element(p) is Some,
    ensures
        successor(p) is Some,
{
    lemma_packed_shape(p);
    crate::keyspace::lemma_successor_shape(p);
}

/// The element of an integer is a packed integer.
pub proof fn lemma_element_packed(v: int)
    requires
        is_i64(v),
    ensures
        int_of_element(int_element(v)) == Some(v),
        successor(int_element(v)) is Some,
{
    law_integer_round_trip(v);
    lemma_packed_successor(int_element(v));
}

// ---------------------------------------------------------------------------
// Free prefixes
// ---------------------------------------------------------------------------

/// Whether `k` is the last node row at or below the node of `p`.
pub open spec fn is_last_node_row(m: Rows, p: Seq<u8>, k: Seq<u8>) -> bool {
    &&& m.dom().contains(k)
    &&& below_node(p, k)
    &&& forall|j: Seq<u8>| #[trigger] m.dom().contains(j) && below_node(p, j) ==> le(j, k)
}

/// Whether `k` is a key of the node region below what follows the node of `p`.
pub open spec fn below_node(p: Seq<u8>, k: Seq<u8>) -> bool {
    in_range(k, Bound::Included(NODE_PREFIX@.push(0)), Bound::Excluded(node(p.push(0))))
}

/// Whether the node that the last such row belongs to contains `p`: the
/// payload the row leads with begins `p`.
pub open spec fn contained_in_node(m: Rows, p: Seq<u8>) -> bool {
    exists|k: Seq<u8>| #[trigger]
        is_last_node_row(m, p, k) && leading_payload(tail(k, 1)) is Some && starts_with(
            p,
            leading_payload(tail(k, 1))->0,
        )
}

/// Whether `k` lies between the node of `p` and the node of its successor.
pub open spec fn in_node_span(p: Seq<u8>, k: Seq<u8>) -> bool {
    in_range(k, Bound::Included(node(p)), Bound::Excluded(node(successor(p)->0)))
}

/// Whether no row lies in the node span of `p`.
pub open spec fn node_span_empty(m: Rows, p: Seq<u8>) -> bool {
    forall|k: Seq<u8>| #[trigger] m.dom().contains(k) ==> !in_node_span(p, k)
}

/// Whether `p` is free: it is neither empty nor in the node region, no
/// existing node contains it, and its own node span holds no rows.
pub open spec fn prefix_free(m: Rows, p: Seq<u8>) -> bool {
    &&& p.len() > 0
    &&& !starts_with(p, NODE_PREFIX@)
    &&& !contained_in_node(m, p)
    &&& node_span_empty(m, p)
}

/// Whether some row lies strictly inside `p`.
pub open spec fn occupied(m: Rows, p: Seq<u8>) -> bool {
    exists|k: Seq<u8>| #[trigger] m.dom().contains(k) && inside(p, k)
}

/// There is at most one last node row.
pub proof fn lemma_last_node_row_unique(m: Rows, p: Seq<u8>, a: Seq<u8>, b: Seq<u8>)
    requires
        is_last_node_row(m, p, a),
        is_last_node_row(m, p, b),
    ensures
        a == b,
{
    if a != b {
        lemma_lt_asymmetric(a, b);
    }
}

// ---------------------------------------------------------------------------
// Opening directories
// ---------------------------------------------------------------------------

/// The rows with a directory of prefix `p` linked into the directory of prefix
/// `parent` under a segment: its child row and its layer row.
pub open spec fn linked(m: Rows, parent: Seq<u8>, seg: Seq<u8>, p: Seq<u8>) -> Rows {
    m.insert(child_row(node(parent), seg), p).insert(layer_row(node(p)), Seq::empty())
}

/// Whether `p` is the prefix of the directory at `path` once the rows have
/// gone from `m0` to `m1`: it is there already and nothing changes, or it is
/// created. A creation writes the version row of a fresh store, allocates a
/// prefix that passes both freedom probes, opens the parent in the same way,
/// and writes the child row and the layer row.
pub open spec fn opens(m0: Rows, path: Seq<Seq<u8>>, m1: Rows, p: Seq<u8>) -> bool
    decreases path.len(),
{
    match walk(m0, path) {
        Walk::Found(q) => m1 == m0 && p == q,
        Walk::Malformed => false,
        Walk::Missing => path.len() > 0 && valid_utf8(path.last()) && exists|
            c: int,
            ma: Rows,
            mp: Rows,
            parent: Seq<u8>,
        |
            {
                &&& #[trigger] is_allocation(with_version(m0), ma, c)
                &&& p == int_element(c)
                &&& !occupied(ma, p)
                &&& prefix_free(ma, p)
                &&& opens(ma, path.drop_last(), mp, parent)
                &&& m1 == #[trigger] linked(mp, parent, path.last(), p)
            },
    }
}

/// Whether opening `path` with creation can be refused on these rows: the path
/// is malformed, or it is missing and an allocation is refused or yields a
/// prefix that fails a probe, here or for a parent.
pub open spec fn open_refused(m: Rows, path: Seq<Seq<u8>>) -> bool
    decreases path.len(),
{
    match walk(m, path) {
        Walk::Found(_) => false,
        Walk::Malformed => true,
        Walk::Missing => {
            ||| path.len() == 0
            ||| !valid_utf8(path.last())
            ||| allocation_refused(with_version(m))
            ||| exists|c: int, ma: Rows|
                {
                    &&& #[trigger] is_allocation(with_version(m), ma, c)
                    &&& (occupied(ma, int_element(c)) || !prefix_free(ma, int_element(c))
                        || open_refused(ma, path.drop_last()))
                }
        },
    }
}

/// Whether a refused opening of `path` with creation can leave these rows: nothing
/// changes where the path is malformed; a creation that is refused leaves what it has
/// written up to there, here or for a parent.
pub open spec fn refusal_leaves(m0: Rows, path: Seq<Seq<u8>>, m1: Rows) -> bool
    decreases path.len(),
{
    match walk(m0, path) {
        Walk::Found(_) => false,
        Walk::Malformed => m1 == m0,
        Walk::Missing => {
            ||| allocation_refused(with_version(m0)) && left_by_refusal(with_version(m0), m1)
            ||| path.len() > 0 && exists|c: int, ma: Rows|
                {
                    &&& #[trigger] is_allocation(with_version(m0), ma, c)
                    &&& {
                        ||| (occupied(ma, int_element(c)) || !prefix_free(ma, int_element(c)))
                            && m1 == ma
                        ||| refusal_leaves(ma, path.drop_last(), m1)
                        ||| !valid_utf8(path.last()) && exists|parent: Seq<u8>| #[trigger]
                            opens(ma, path.drop_last(), m1, parent)
                    }
                }
        },
    }
}

/// Whether the two stores agree on every key outside of the node region.
pub open spec fn same_data(m0: Rows, m1: Rows) -> bool {
    forall|k: Seq<u8>| !starts_with(k, NODE_PREFIX@) ==> #[trigger] row_at(m1, k) == row_at(m0, k)
}

// ---------------------------------------------------------------------------
// Children
// ---------------------------------------------------------------------------

/// Whether `k` lies among the child rows of the directory with prefix `p`.
pub open spec fn is_child_key(p: Seq<u8>, k: Seq<u8>) -> bool {
    inside(node(p) + int_element(0), k)
}

/// Whether `k` is the child row of some name under `p`.
pub open spec fn names_child(p: Seq<u8>, k: Seq<u8>) -> bool {
    exists|name: Seq<char>| k == #[trigger] child_row(node(p), vstd::utf8::encode_utf8(name))
}

/// Whether every child row under `p` carries a name.
pub open spec fn children_named(m: Rows, p: Seq<u8>) -> bool {
    forall|k: Seq<u8>| #[trigger] m.dom().contains(k) && is_child_key(p, k) ==> names_child(p, k)
}

/// Whether `names` are the names of the children of `p`: exactly those with a
/// child row, each once, ascending by their UTF-8 bytes.
pub open spec fn is_child_list(m: Rows, p: Seq<u8>, names: Seq<Seq<char>>) -> bool {
    &&& forall|i: int|
        0 <= i < names.len() ==> m.dom().contains(
            child_row(node(p), vstd::utf8::encode_utf8(#[trigger] names[i])),
        )
    &&& forall|i: int, j: int|
        #![trigger names[i], names[j]]
        0 <= i < j < names.len() ==> lt(
            vstd::utf8::encode_utf8(names[i]),
            vstd::utf8::encode_utf8(names[j]),
        )
    &&& forall|name: Seq<char>|
        m.dom().contains(child_row(node(p), #[trigger] vstd::utf8::encode_utf8(name)))
            ==> names.contains(name)
}

// ---------------------------------------------------------------------------
// What creation leaves alone
// ---------------------------------------------------------------------------

/// Every key that an operation on the directory structure writes lies in the
/// node region.
pub proof fn lemma_meta_keys(p: Seq<u8>, seg: Seq<u8>, c: int)
    ensures
        starts_with(node(p), NODE_PREFIX@),
        starts_with(child_row(node(p), seg), NODE_PREFIX@),
        starts_with(layer_row(node(p)), NODE_PREFIX@),
        starts_with(counter_row(c), NODE_PREFIX@),
        starts_with(recent_row(c), NODE_PREFIX@),
        starts_with(HCA_SUBSPACE@, NODE_PREFIX@),
        starts_with(VERSION_KEY@, NODE_PREFIX@),
        !starts_with(VERSION_KEY@, HCA_SUBSPACE@),
{
    lemma_layout_constants();
    assert(node(p).subrange(0, 1) =~= NODE_PREFIX@);
    assert(child_row(node(p), seg).subrange(0, 1) =~= NODE_PREFIX@);
    assert(layer_row(node(p)).subrange(0, 1) =~= NODE_PREFIX@);
    assert(counter_row(c).subrange(0, 1) =~= NODE_PREFIX@);
    assert(recent_row(c).subrange(0, 1) =~= NODE_PREFIX@);
    assert(HCA_SUBSPACE@.subrange(0, 1) =~= NODE_PREFIX@);
    assert(VERSION_KEY@.subrange(0, 1) =~= NODE_PREFIX@);
    assert(VERSION_KEY@[5] != HCA_SUBSPACE@[5]);
    assert(VERSION_KEY@.subrange(0, 9)[5] == VERSION_KEY@[5]);
}

/// What stands outside of the node region stands outside of the allocator's
/// subspace.
pub proof fn lemma_same_outside_hca_data(m0: Rows, m1: Rows)
    requires
        same_outside_hca(m0, m1),
    ensures
        same_data(m0, m1),
        row_at(m1, VERSION_KEY@) == row_at(m0, VERSION_KEY@),
{
    lemma_meta_keys(Seq::empty(), Seq::empty(), 0);
    assert forall|k: Seq<u8>| !starts_with(k, NODE_PREFIX@) implies #[trigger] row_at(m1, k)
        == row_at(m0, k) by {
        if starts_with(k, HCA_SUBSPACE@) {
            assert(k.subrange(0, HCA_SUBSPACE@.len() as int).subrange(0, 1) =~= k.subrange(0, 1));
        }
    }
}

/// Writing the version row of a fresh store touches no data, and the store
/// has a version this layout reads afterwards if it had one, or none, before.
pub proof fn lemma_with_version(m: Rows)
    ensures
        same_data(m, with_version(m)),
        version_ok(m) ==> version_ok(with_version(m)),
{
    lemma_meta_keys(Seq::empty(), Seq::empty(), 0);
    lemma_layout_version();
}

/// The version row is no child row.
pub proof fn lemma_version_is_no_child(p: Seq<u8>, seg: Seq<u8>)
    ensures
        child_row(node(p), seg) != VERSION_KEY@,
{
    let n = node(p).len() as int;
    if child_row(node(p), seg) == VERSION_KEY@ {
        assert(child_row(node(p), seg)[n] == 0x14);
        assert(VERSION_KEY@.len() == 13);
        assert(child_row(node(p), seg).len() > n);
        assert(VERSION_KEY@ =~= seq![
            0xFEu8, 0x01u8, 0xFEu8, 0x00u8, 0x01u8, 0x76u8, 0x65u8, 0x72u8, 0x73u8, 0x69u8, 0x6Fu8, 0x6Eu8, 0x00u8,
        ]);
        assert(forall|i: int| 0 <= i < 13 ==> VERSION_KEY@[i] != 0x14);
    }
}

/// Writing the version row of a fresh store changes where no path leads.
pub proof fn lemma_walk_with_version(m: Rows, path: Seq<Seq<u8>>)
    ensures
        walk(with_version(m), path) == walk(m, path),
    decreases path.len(),
{
    if path.len() > 0 {
        lemma_walk_with_version(m, path.drop_last());
        if let Walk::Found(p) = walk(m, path.drop_last()) {
            lemma_version_is_no_child(p, path.last());
        }
    }
}

/// An opened directory other than the layout's root has a packed integer for
/// its prefix.
pub proof fn lemma_opens_packed(m0: Rows, path: Seq<Seq<u8>>, m1: Rows, p: Seq<u8>)
    requires
        opens(m0, path, m1, p),
        path.len() > 0,
    ensures
        int_of_element(p) is Some,
{
    if walk(m0, path) is Found {
        lemma_walk_prefix(m0, path);
    } else {
        let (c, ma, mp, parent) = choose|c: int, ma: Rows, mp: Rows, parent: Seq<u8>|
            {
                &&& #[trigger] is_allocation(with_version(m0), ma, c)
                &&& p == int_element(c)
                &&& !occupied(ma, p)
                &&& prefix_free(ma, p)
                &&& opens(ma, path.drop_last(), mp, parent)
                &&& m1 == #[trigger] linked(mp, parent, path.last(), p)
            };
        lemma_allocation_range(with_version(m0), ma, c);
        law_integer_round_trip(c);
    }
}

} // verus!
