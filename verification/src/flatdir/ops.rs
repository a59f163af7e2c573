//! The directory operations over a [`RawKv`] view: the version check, node
//! lookup, lazy creation, child listing, recursive removal, and the
//! whole-store walk.
//!
//! Paths are sequences of segments, UTF-8 enforced by the caller at the API
//! boundary ([`validate_dir`](crate::key::validate_dir)) and re-checked here
//! where a segment is packed as a string element.

use core::ops::Bound;

use vstd::prelude::*;
use vstd::utf8::{encode_utf8, encode_utf8_valid_utf8, valid_utf8};

use crate::bytemap::ByteMap;
use crate::bytes::{
    bytes_eq, copy_bytes, copy_tail, has_prefix, le, lemma_lt_asymmetric, lemma_lt_irreflexive,
    lemma_order, lemma_starts_with_concat, lt, starts_with, string_from_utf8, tail,
};
use crate::flatdir::error::FlatError;
use crate::flatdir::hca::{
    allocate, is_allocation, lemma_allocation_frame, same_outside_hca, CandidateSource,
};
use crate::flatdir::layout::{
    child_key, child_row, children_key_range, data_region, inside, inside_range, layer_key,
    layer_row, node, node_key_range, node_subspace, parse_version, COUNTERS_BASE, HCA_SUBSPACE,
    LAYER_TAG, LAYOUT_VERSION, NODE_PREFIX, RECENT_BASE, VERSION_KEY,
};
use crate::flatdir::model::{
    announced_len, below_node, children_named, contained_in_node, data_prefix, in_node_span,
    is_child_key, is_child_list, is_data_prefix, is_last_node_row, lemma_data_prefix_unique,
    lemma_element_packed, lemma_last_node_row_unique, lemma_meta_keys, lemma_packed_shape,
    lemma_packed_successor, lemma_same_outside_hca_data, lemma_walk_stops, lemma_walk_with_version,
    lemma_with_version, linked, names_child, occupied, open_refused, opens, prefix_free,
    readable_version, refusal_leaves, same_data, version_ok, walk, with_version, Walk,
};
use crate::flatdir::prune::{
    edge, in_subtrees, lemma_prune_next, lemma_prune_whole, lemma_reaches_sub, lemma_takes_child,
    lemma_tree_acyclic, lemma_tree_sub, owns, prunable, pruned, pruned_list, reaches_in, sub_rows,
    takes_within, tree_within, trees_within,
};
use crate::flatdir::rows::{
    child_keys, child_keys_of, classify, data_keys, data_ok, faulty, foreign, has_layer,
    in_node_region, is_target, kind_at, layer_among, lemma_among_all, lemma_among_next,
    lemma_first_fault, lemma_first_stray, lemma_no_first_fault, no_faults, region_split, sound,
    target_among, targets_layered, RowKind,
};
use crate::flatdir::touch::{
    lemma_hca_only_adds, lemma_insert_only_adds, lemma_link_is_new, lemma_only_adds_transitive,
    lemma_own_span, lemma_rows_of_node, only_adds, swept,
};
use crate::flatdir::tuple::{
    child_tuple, element, first_bytes_element, first_element_payload, int_element, int_of_element,
    leading_payload, lemma_leading_payload_sound, pack_i64, terminated, unpack_child_name,
    unpack_i64_full,
};
use crate::key::path_of;
use crate::keyspace::{bound_as_slice, bound_of, in_range, next_prefix, owned_bound_of, successor};
use crate::rawkv::{
    all_rows, call_fails, in_key_order, lists_key, read_fails, row_at, write_fails, RawKv, Rows,
};
use crate::stream::KvPair;

verus! {

/// Borrow an owned bound pair as slice bounds.
pub(crate) fn bounds_ref(b: &(Bound<Vec<u8>>, Bound<Vec<u8>>)) -> (r: (Bound<&[u8]>, Bound<&[u8]>))
    ensures
        bound_of(r.0) == owned_bound_of(b.0),
        bound_of(r.1) == owned_bound_of(b.1),
{
    (bound_as_slice(&b.0), bound_as_slice(&b.1))
}

/// Read and enforce the store's version row:
///
/// * missing: fresh; succeed, and write the version row iff `allow_create`
///   (lazy initialisation: the first create writes it);
/// * present: must parse as a 12-byte version; a newer major or minor version
///   and a malformed value are [`FlatError::Foreign`].
pub fn check_version<R: RawKv>(raw: &mut R, allow_create: bool) -> (r: Result<
    (),
    FlatError<R::Error>,
>)
    requires
        old(raw).wf(),
    ensures
        final(raw).wf(),
        final(raw).terms() == old(raw).terms(),
        !allow_create ==> *final(raw) == *old(raw),
        match r {
            Ok(()) => {
                &&& version_ok(old(raw).rows())
                &&& allow_create ==> final(raw).rows() == with_version(old(raw).rows())
                &&& allow_create ==> final(raw).touched() == old(raw).touched().union(
                    with_version(old(raw).rows()).dom().difference(old(raw).rows().dom()),
                )
            },
            Err(FlatError::Foreign) => !version_ok(old(raw).rows()) && *final(raw) == *old(raw),
            Err(FlatError::Engine(e)) => (!old(raw).terms().readable && read_fails(*old(raw), e)) || (
            allow_create && !old(raw).terms().writable && write_fails(*old(raw), e)),
            Err(_) => false,
        },
{
    match check_version_read(raw) {
        Ok(()) => {},
        Err(e) => return Err(e),
    }
    if allow_create {
        let row = match raw.get(&VERSION_KEY) {
            Ok(row) => row,
            Err(e) => return Err(FlatError::Engine(e)),
        };
        if row.is_none() {
            match raw.insert(&VERSION_KEY, &LAYOUT_VERSION) {
                Ok(()) => {},
                Err(e) => return Err(FlatError::Engine(e)),
            }
        }
        proof {
            let m = old(raw).rows();
            assert(raw.touched() =~= old(raw).touched().union(
                with_version(m).dom().difference(m.dom()),
            ));
        }
    }
    Ok(())
}

/// The read-only half of [`check_version`]: enforce the version row without
/// writing it.
pub fn check_version_read<R: RawKv>(raw: &R) -> (r: Result<(), FlatError<R::Error>>)
    requires
        raw.wf(),
    ensures
        match r {
            Ok(()) => version_ok(raw.rows()),
            Err(FlatError::Foreign) => !version_ok(raw.rows()),
            Err(FlatError::Engine(e)) => !raw.terms().readable && read_fails(*raw, e),
            Err(_) => false,
        },
{
    match raw.get(&VERSION_KEY) {
        Ok(None) => Ok(()),
        Ok(Some(v)) => {
            if is_readable_version(v.as_slice()) {
                Ok(())
            } else {
                Err(FlatError::Foreign)
            }
        },
        Err(e) => Err(FlatError::Engine(e)),
    }
}

/// Whether a version value names a version this layout reads.
pub(crate) fn is_readable_version(value: &[u8]) -> (r: bool)
    ensures
        r == readable_version(value@),
{
    match parse_version(value) {
        Some((major, minor, _)) => !(major > 1 || minor > 0),
        None => false,
    }
}

/// Find the allocated prefix of the node at `path`: walk from the root node; a
/// missing child row stops the walk with `Ok(None)`, missing parents are not
/// errors.
///
/// An empty path is the layout's root: it always exists, and its "prefix" is
/// the node prefix itself (never used as a data prefix).
pub fn find<R: RawKv>(raw: &R, path: &[&[u8]]) -> (r: Result<Option<Vec<u8>>, FlatError<R::Error>>)
    requires
        raw.wf(),
    ensures
        match r {
            Ok(Some(p)) => walk(raw.rows(), path_of(path@)) == Walk::Found(p@),
            Ok(None) => walk(raw.rows(), path_of(path@)) is Missing,
            Err(FlatError::Corrupt) => walk(raw.rows(), path_of(path@)) is Malformed,
            Err(FlatError::Engine(e)) => !raw.terms().readable && read_fails(*raw, e),
            Err(_) => false,
        },
{
    let mut prefix = copy_bytes(&NODE_PREFIX);
    let ghost m = raw.rows();
    let ghost segs = path_of(path@);
    let mut i: usize = 0;
    assert(segs.subrange(0, 0) =~= Seq::<Seq<u8>>::empty());
    while i < path.len()
        invariant
            raw.wf(),
            m == raw.rows(),
            segs == path_of(path@),
            i <= path.len(),
            walk(m, segs.subrange(0, i as int)) == Walk::Found(prefix@),
        decreases path.len() - i,
    {
        let seg = path[i];
        let ghost next = segs.subrange(0, i + 1);
        proof {
            assert(next.drop_last() =~= segs.subrange(0, i as int));
            assert(next.last() == seg@);
        }
        let name = match string_from_utf8(seg) {
            Some(name) => name,
            None => {
                proof {
                    lemma_walk_stops(m, segs, i + 1);
                }
                return Err(FlatError::Corrupt);
            },
        };
        proof {
            encode_utf8_valid_utf8(name@);
        }
        let key = child_key(node_subspace(prefix.as_slice()).as_slice(), name.as_str());
        let value = match raw.get(key.as_slice()) {
            Ok(Some(value)) => value,
            Ok(None) => {
                proof {
                    lemma_walk_stops(m, segs, i + 1);
                }
                return Ok(None);
            },
            Err(e) => return Err(FlatError::Engine(e)),
        };
        if unpack_i64_full(value.as_slice()).is_none() {
            proof {
                lemma_walk_stops(m, segs, i + 1);
            }
            return Err(FlatError::Corrupt);
        }
        prefix = value;
        i = i + 1;
    }
    assert(segs.subrange(0, i as int) =~= segs);
    Ok(Some(prefix))
}

/// The prefix that owns a data key: for a data key `P ‖ k`, the packed `i64`
/// at the front of the key.
///
/// `None` when the key is not a data key with a well-formed allocated prefix at
/// its front (meta keys, foreign content, reserved-region rows).
pub fn data_key_prefix(key: &[u8]) -> (r: Option<&[u8]>)
    ensures
        match r {
            Some(p) => data_prefix(key@) == Some(p@) && is_data_prefix(key@, p@),
            None => data_prefix(key@) is None,
        },
{
    proof {
        assert forall|p: Seq<u8>| is_data_prefix(key@, p) implies key@.len() > 0 && 0x0c <= key@[0]
            <= 0x1c && p == key@.subrange(0, announced_len(key@[0]) as int) && announced_len(
            key@[0],
        ) <= key@.len() by {
            lemma_packed_shape(p);
            assert(key@.subrange(0, p.len() as int)[0] == key@[0]);
        }
    }
    if key.len() == 0 {
        return None;
    }
    let code = key[0];
    if code < 0x0c || code > 0x1c {
        return None;
    }
    let len: usize = if code >= 0x14 {
        (1 + (code - 0x14)) as usize
    } else {
        (1 + (0x14 - code)) as usize
    };
    if key.len() < len {
        return None;
    }
    let packed = &key[0..len];
    if unpack_i64_full(packed).is_none() {
        return None;
    }
    proof {
        assert(packed@ == key@.subrange(0, len as int));
        assert(is_data_prefix(key@, packed@));
        lemma_data_prefix_unique(key@, packed@);
    }
    Some(packed)
}

/// Whether an allocated prefix is free: (a) no existing node contains it,
/// checked on the last row of the node region at or below the prefix's
/// position, and (b) the prefix's own node span holds no rows.
///
/// Both hold for every allocated prefix; a violation is an allocator-invariant
/// failure, reported by the caller. Over rows of the layout they come to one
/// question, whether a key begins with the prefix's node
/// ([`law_prefix_free`](crate::flatdir::health::law_prefix_free)). A prefix of
/// `0xFF` bytes alone has no node span and is left out.
pub fn is_prefix_free<R: RawKv>(raw: &R, prefix: &[u8]) -> (r: Result<bool, FlatError<R::Error>>)
    requires
        raw.wf(),
        prefix@.len() == 0 || successor(prefix@) is Some,
    ensures
        match r {
            Ok(free) => free == prefix_free(raw.rows(), prefix@),
            Err(FlatError::Engine(e)) => !raw.terms().readable && read_fails(*raw, e),
            Err(_) => false,
        },
{
    if prefix.len() == 0 {
        return Ok(false);
    }
    if has_prefix(prefix, &NODE_PREFIX) {
        return Ok(false);
    }
    let ghost m = raw.rows();
    let ghost p = prefix@;
    let mut key_after = copy_bytes(prefix);
    key_after.push(0);
    let range_end = node_subspace(key_after.as_slice());
    let mut scan_start = copy_bytes(&NODE_PREFIX);
    scan_start.push(0);
    let rows = match raw.scan(
        Bound::Included(scan_start.as_slice()),
        Bound::Excluded(range_end.as_slice()),
        true,
    ) {
        Ok(rows) => rows,
        Err(e) => return Err(FlatError::Engine(e)),
    };
    if rows.len() > 0 {
        let last = &rows[rows.len() - 1];
        let ghost k = last.key@;
        proof {
            assert forall|j: Seq<u8>| #[trigger]
                m.dom().contains(j) && below_node(p, j) implies le(j, k) by {
                assert(lists_key(rows@, j));
                let i = choose|i: int| 0 <= i < rows@.len() && (#[trigger] rows@[i]).key@ == j;
                if i < rows@.len() - 1 {
                    assert(lt(rows@[i].key@, rows@[rows@.len() - 1].key@));
                }
            }
            assert(is_last_node_row(m, p, k));
            assert forall|j: Seq<u8>| is_last_node_row(m, p, j) implies j == k by {
                lemma_last_node_row_unique(m, p, j, k);
            }
            assert(k.len() > 0) by {
                assert(le(NODE_PREFIX@.push(0), k));
                assert(k != Seq::<u8>::empty());
            }
        }
        let rel = copy_tail(last.key.as_slice(), 1);
        if let Some(prev) = first_element_payload(rel.as_slice()) {
            if has_prefix(prefix, prev.as_slice()) {
                assert(contained_in_node(m, p));
                return Ok(false);
            }
        }
    } else {
        proof {
            assert forall|k: Seq<u8>| !is_last_node_row(m, p, k) by {
                if is_last_node_row(m, p, k) {
                    assert(lists_key(rows@, k));
                }
            }
        }
    }
    assert(!contained_in_node(m, p));
    let next = match next_prefix(prefix) {
        Some(next) => next,
        None => return Ok(false),
    };
    let span_start = node_subspace(prefix);
    let span_end = node_subspace(next.as_slice());
    let span = match raw.scan(
        Bound::Included(span_start.as_slice()),
        Bound::Excluded(span_end.as_slice()),
        true,
    ) {
        Ok(rows) => rows,
        Err(e) => return Err(FlatError::Engine(e)),
    };
    proof {
        if span@.len() == 0 {
            assert forall|k: Seq<u8>| #[trigger] m.dom().contains(k) implies !in_node_span(p, k) by {
                if in_node_span(p, k) {
                    assert(lists_key(span@, k));
                }
            }
        } else {
            let k = span@[0].key@;
            assert(m.dom().contains(k));
            assert(in_node_span(p, k));
        }
    }
    Ok(span.len() == 0)
}

/// Whether the prefix's data region `[prefix ‖ 0x00, prefix ‖ 0xFF]` holds any
/// row.
pub fn prefix_data_region_occupied<R: RawKv>(raw: &R, prefix: &[u8]) -> (r: Result<
    bool,
    FlatError<R::Error>,
>)
    requires
        raw.wf(),
    ensures
        match r {
            Ok(b) => b == occupied(raw.rows(), prefix@),
            Err(FlatError::Engine(e)) => !raw.terms().readable && read_fails(*raw, e),
            Err(_) => false,
        },
{
    let range = inside_range(prefix);
    let (start, end) = bounds_ref(&range);
    match raw.scan(start, end, true) {
        Ok(rows) => {
            proof {
                let m = raw.rows();
                if rows@.len() > 0 {
                    let k = rows@[0].key@;
                    assert(m.dom().contains(k));
                    assert(inside(prefix@, k));
                } else {
                    assert forall|k: Seq<u8>| #[trigger] m.dom().contains(k) implies !inside(
                        prefix@,
                        k,
                    ) by {
                        if inside(prefix@, k) {
                            assert(lists_key(rows@, k));
                        }
                    }
                }
            }
            Ok(rows.len() > 0)
        },
        Err(e) => Err(FlatError::Engine(e)),
    }
}

/// Whether opening a path goes on to create it: creation is allowed, the store has
/// a version this layout reads, and the path leads nowhere. Otherwise nothing is
/// written and no candidate is drawn.
pub open spec fn creates(m: Rows, path: Seq<Seq<u8>>, allow_create: bool) -> bool {
    allow_create && version_ok(m) && walk(m, path) is Missing
}

/// Open (and optionally create) the directory at `path`, returning its
/// allocated prefix.
///
/// A creation goes through the version check (which lazily writes the version
/// row on a fresh store), the allocation, the two prefix-freedom checks, the
/// lazy parent creation, and the child-row and layer-row writes, in this order.
pub fn create_or_open<R: RawKv, S: CandidateSource>(
    raw: &mut R,
    path: &[&[u8]],
    allow_create: bool,
    source: &mut S,
) -> (r: Result<Option<Vec<u8>>, FlatError<R::Error>>)
    requires
        old(raw).wf(),
    ensures
        final(raw).wf(),
        final(raw).terms() == old(raw).terms(),
        !(r matches Err(FlatError::Engine(_))) ==> same_data(old(raw).rows(), final(raw).rows()),
        !(r matches Err(FlatError::Engine(_))) ==> only_adds(
            old(raw).rows(),
            final(raw).rows(),
            old(raw).touched(),
            final(raw).touched(),
        ),
        !creates(old(raw).rows(), path_of(path@), allow_create) ==> *final(raw) == *old(raw)
            && *final(source) == *old(source),
        match r {
            Ok(Some(p)) => {
                &&& version_ok(old(raw).rows())
                &&& !allow_create ==> walk(old(raw).rows(), path_of(path@)) is Found
                &&& opens(old(raw).rows(), path_of(path@), final(raw).rows(), p@)
            },
            Ok(None) => {
                &&& version_ok(old(raw).rows())
                &&& !allow_create
                &&& walk(old(raw).rows(), path_of(path@)) is Missing
                &&& *final(raw) == *old(raw)
            },
            Err(FlatError::Foreign) => !version_ok(old(raw).rows()) && *final(raw) == *old(raw),
            Err(FlatError::Corrupt) => {
                &&& version_ok(old(raw).rows())
                &&& if allow_create {
                    &&& open_refused(old(raw).rows(), path_of(path@))
                    &&& refusal_leaves(old(raw).rows(), path_of(path@), final(raw).rows())
                } else {
                    walk(old(raw).rows(), path_of(path@)) is Malformed
                }
            },
            Err(FlatError::Engine(e)) => {
                &&& !old(raw).terms().readable || !old(raw).terms().writable
                &&& call_fails::<R>(old(raw).terms(), e)
                &&& !creates(old(raw).rows(), path_of(path@), allow_create) ==> !old(
                    raw,
                ).terms().readable && read_fails(*old(raw), e)
            },
            Err(FlatError::Key(_)) => false,
        },
    decreases path@.len(),
{
    let ghost m0 = raw.rows();
    let ghost segs = path_of(path@);
    match check_version(raw, false) {
        Ok(()) => {},
        Err(e) => return Err(e),
    }
    match find(raw, path) {
        Ok(Some(prefix)) => return Ok(Some(prefix)),
        Ok(None) => {},
        Err(e) => return Err(e),
    }
    if !allow_create {
        return Ok(None);
    }
    match check_version(raw, true) {
        Ok(()) => {},
        Err(e) => return Err(e),
    }
    let ghost mv = raw.rows();
    let ghost t0 = old(raw).touched();
    let ghost tv = raw.touched();
    proof {
        lemma_with_version(m0);
        assert(only_adds(m0, mv, t0, tv));
    }
    let value = match allocate(raw, source) {
        Ok(value) => value,
        Err(e) => {
            proof {
                if e is Corrupt {
                    lemma_same_outside_hca_data(mv, raw.rows());
                    lemma_same_data_transitive(m0, mv, raw.rows());
                    lemma_hca_only_adds(mv, raw.rows(), tv, raw.touched());
                    lemma_only_adds_transitive(m0, mv, raw.rows(), t0, tv, raw.touched());
                }
            }
            return Err(e);
        },
    };
    let ghost ma = raw.rows();
    let ghost ta = raw.touched();
    proof {
        lemma_allocation_frame(mv, ma, value as int);
        lemma_hca_only_adds(mv, ma, tv, ta);
        lemma_only_adds_transitive(m0, mv, ma, t0, tv, ta);
        lemma_same_outside_hca_data(mv, ma);
        lemma_same_data_transitive(m0, mv, ma);
        lemma_element_packed(value as int);
    }
    let prefix = pack_i64(value);
    match prefix_data_region_occupied(raw, prefix.as_slice()) {
        Ok(occupied) => {
            if occupied {
                assert(is_allocation(with_version(m0), ma, value as int));
                return Err(FlatError::Corrupt);
            }
        },
        Err(e) => return Err(e),
    }
    match is_prefix_free(raw, prefix.as_slice()) {
        Ok(free) => {
            if !free {
                assert(is_allocation(with_version(m0), ma, value as int));
                return Err(FlatError::Corrupt);
            }
        },
        Err(e) => return Err(e),
    }
    let parent_path = &path[0..path.len() - 1];
    assert(path_of(parent_path@) =~= segs.drop_last());
    let parent = match create_or_open(raw, parent_path, true, source) {
        Ok(Some(parent)) => parent,
        Ok(None) => return Err(FlatError::Corrupt),
        Err(e) => {
            proof {
                if e is Corrupt {
                    lemma_same_data_transitive(m0, ma, raw.rows());
                    lemma_only_adds_transitive(m0, ma, raw.rows(), t0, ta, raw.touched());
                    assert(open_refused(ma, segs.drop_last()));
                    assert(open_refused(m0, segs));
                    assert(is_allocation(with_version(m0), ma, value as int));
                    assert(refusal_leaves(m0, segs, raw.rows()));
                }
            }
            return Err(e);
        },
    };
    let ghost mp = raw.rows();
    let ghost tp = raw.touched();
    let parent_node = node_subspace(parent.as_slice());
    proof {
        lemma_same_data_transitive(m0, ma, mp);
        lemma_only_adds_transitive(m0, ma, mp, t0, ta, tp);
    }
    let name = match string_from_utf8(path[path.len() - 1]) {
        Some(name) => name,
        None => {
            proof {
                assert(!valid_utf8(segs.last()));
                assert(is_allocation(with_version(m0), ma, value as int));
                assert(opens(ma, segs.drop_last(), mp, parent@));
            }
            return Err(FlatError::Corrupt);
        },
    };
    proof {
        encode_utf8_valid_utf8(name@);
        assert(encode_utf8(name@) == segs.last());
    }
    let child = child_key(parent_node.as_slice(), name.as_str());
    match raw.insert(child.as_slice(), prefix.as_slice()) {
        Ok(()) => {},
        Err(e) => return Err(FlatError::Engine(e)),
    }
    let layer = layer_key(node_subspace(prefix.as_slice()).as_slice());
    let empty: Vec<u8> = Vec::new();
    match raw.insert(layer.as_slice(), empty.as_slice()) {
        Ok(()) => {},
        Err(e) => return Err(FlatError::Engine(e)),
    }
    proof {
        assert(empty@ =~= Seq::<u8>::empty());
        lemma_meta_keys(parent@, segs.last(), 0);
        lemma_meta_keys(prefix@, segs.last(), 0);
        assert(same_data(mp, raw.rows()));
        lemma_same_data_transitive(m0, mp, raw.rows());
        lemma_link_adds(m0, ma, segs, mp, parent@, prefix@, t0, ta, tp);
        assert(is_allocation(with_version(m0), ma, value as int));
        assert(raw.rows() == linked(mp, parent@, segs.last(), prefix@));
        assert(opens(m0, segs, raw.rows(), prefix@));
    }
    Ok(Some(prefix))
}

/// Linking a new directory under its opened parent adds rows.
proof fn lemma_link_adds(
    m0: Rows,
    ma: Rows,
    path: Seq<Seq<u8>>,
    mp: Rows,
    parent: Seq<u8>,
    p: Seq<u8>,
    t0: Set<Seq<u8>>,
    ta: Set<Seq<u8>>,
    tp: Set<Seq<u8>>,
)
    requires
        path.len() > 0,
        walk(m0, path) is Missing,
        valid_utf8(path.last()),
        same_outside_hca(with_version(m0), ma),
        opens(ma, path.drop_last(), mp, parent),
        int_of_element(p) is Some,
        prefix_free(ma, p),
        only_adds(m0, ma, t0, ta),
        only_adds(m0, mp, t0, tp),
    ensures
        only_adds(
            m0,
            linked(mp, parent, path.last(), p),
            t0,
            tp.insert(child_row(node(parent), path.last())).insert(layer_row(node(p))),
        ),
{
    let child = child_row(node(parent), path.last());
    let layer = layer_row(node(p));
    lemma_link_is_new(m0, ma, path, mp, parent);
    lemma_insert_only_adds(m0, mp, t0, tp, child, p);
    lemma_rows_of_node(p, path.last());
    lemma_own_span(p, layer);
    let m = mp.insert(child, p);
    let t = tp.insert(child);
    assert(starts_with(layer, HCA_SUBSPACE@) || !m0.dom().contains(layer));
    lemma_insert_only_adds(m0, m, t0, t, layer, Seq::empty());
}

/// Agreement on data is transitive.
proof fn lemma_same_data_transitive(a: Rows, b: Rows, c: Rows)
    requires
        same_data(a, b),
        same_data(b, c),
    ensures
        same_data(a, c),
{
    assert forall|k: Seq<u8>| !starts_with(k, NODE_PREFIX@) implies #[trigger] row_at(c, k)
        == row_at(a, k) by {
        assert(row_at(b, k) == row_at(a, k));
    }
}

/// The texts of a list of names.
pub open spec fn texts(names: Seq<String>) -> Seq<Seq<char>> {
    Seq::new(names.len(), |i: int| names[i]@)
}

/// List the immediate children of the directory with allocated prefix
/// `prefix`, sorted by name.
///
/// The rows come in key order, and that is the order of the names: escaping
/// keeps the order of the UTF-8 bytes. [`FlatError::Corrupt`] when a child row
/// does not carry a name.
pub fn list_children<R: RawKv>(raw: &R, prefix: &[u8]) -> (r: Result<
    Vec<String>,
    FlatError<R::Error>,
>)
    requires
        raw.wf(),
    ensures
        match r {
            Ok(names) => {
                &&& children_named(raw.rows(), prefix@)
                &&& is_child_list(raw.rows(), prefix@, texts(names@))
            },
            Err(FlatError::Corrupt) => !children_named(raw.rows(), prefix@),
            Err(FlatError::Engine(e)) => !raw.terms().readable && read_fails(*raw, e),
            Err(_) => false,
        },
{
    let ghost m = raw.rows();
    let ghost p = prefix@;
    let node = node_subspace(prefix);
    let range = children_key_range(node.as_slice());
    let (start, end) = bounds_ref(&range);
    let rows = match raw.scan(start, end, true) {
        Ok(rows) => rows,
        Err(e) => return Err(FlatError::Engine(e)),
    };
    let mut names: Vec<String> = Vec::with_capacity(rows.len());
    let mut i: usize = 0;
    while i < rows.len()
        invariant
            i <= rows@.len(),
            names@.len() == i,
            node@ == crate::flatdir::layout::node(p),
            m == raw.rows(),
            p == prefix@,
            crate::rawkv::all_rows(m, rows@),
            forall|j: int|
                0 <= j < rows@.len() ==> is_child_key(p, (#[trigger] rows@[j]).key@),
            forall|j: int|
                0 <= j < i ==> (#[trigger] rows@[j]).key@ == child_row(
                    node@,
                    encode_utf8(names@[j]@),
                ),
        decreases rows.len() - i,
    {
        let key = &rows[i].key;
        let ghost k = key@;
        proof {
            assert(is_child_key(p, rows@[i as int].key@));
            lemma_child_row_begins(node@, k);
        }
        let rel = copy_tail(key.as_slice(), node.len());
        match unpack_child_name(rel.as_slice()) {
            Some(name) => {
                proof {
                    crate::bytes::lemma_starts_with_split(k, node@);
                    assert(child_row(node@, encode_utf8(name@)) =~= node@ + child_tuple(name@));
                }
                names.push(name);
            },
            None => {
                proof {
                    assert(m.dom().contains(k));
                    if names_child(p, k) {
                        let name = choose|name: Seq<char>|
                            k == #[trigger] child_row(node@, encode_utf8(name));
                        lemma_starts_with_concat(node@, child_tuple(name));
                        assert(child_row(node@, encode_utf8(name)) =~= node@ + child_tuple(name));
                        assert(rel@ == child_tuple(name));
                    }
                }
                return Err(FlatError::Corrupt);
            },
        }
        i = i + 1;
    }
    proof {
        let list = texts(names@);
        assert forall|k: Seq<u8>| #[trigger]
            m.dom().contains(k) && is_child_key(p, k) implies names_child(p, k) by {
            assert(lists_key(rows@, k));
            let j = choose|j: int| 0 <= j < rows@.len() && (#[trigger] rows@[j]).key@ == k;
            assert(k == child_row(node@, encode_utf8(names@[j]@)));
        }
        assert forall|j: int| 0 <= j < list.len() implies m.dom().contains(
            child_row(node@, encode_utf8(#[trigger] list[j])),
        ) by {
            assert(m.dom().contains(rows@[j].key@));
        }
        assert forall|a: int, b: int|
            #![trigger list[a], list[b]]
            0 <= a < b < list.len() implies lt(encode_utf8(list[a]), encode_utf8(list[b])) by {
            assert(lt(rows@[a].key@, rows@[b].key@));
            lemma_child_row_order(node@, encode_utf8(list[a]), encode_utf8(list[b]));
        }
        assert forall|name: Seq<char>|
            m.dom().contains(
                child_row(node@, #[trigger] encode_utf8(name)),
            ) implies list.contains(name) by {
            let k = child_row(node@, encode_utf8(name));
            lemma_child_row_inside(node@, encode_utf8(name));
            assert(is_child_key(p, k));
            assert(lists_key(rows@, k));
            let j = choose|j: int| 0 <= j < rows@.len() && (#[trigger] rows@[j]).key@ == k;
            lemma_child_row_injective(node@, encode_utf8(name), encode_utf8(names@[j]@));
            vstd::utf8::encode_utf8_decode_utf8(name);
            vstd::utf8::encode_utf8_decode_utf8(names@[j]@);
            assert(list[j] == name);
        }
    }
    Ok(names)
}

/// A key among the child rows of a node begins with the node.
proof fn lemma_child_row_begins(n: Seq<u8>, k: Seq<u8>)
    requires
        inside(n + int_element(0), k),
    ensures
        starts_with(k, n),
{
    crate::bytes::lemma_starts_with_nested(k, n, int_element(0));
}

/// The child row of a name lies among the child rows of its node.
pub proof fn lemma_child_row_inside(n: Seq<u8>, seg: Seq<u8>)
    ensures
        inside(n + int_element(0), child_row(n, seg)),
{
    let base = n + int_element(0);
    let e = crate::flatdir::tuple::element(crate::flatdir::tuple::CODE_STRING, seg);
    lemma_starts_with_concat(base, e);
    assert(child_row(n, seg)[base.len() as int] == e[0]);
}

/// Different names have different child rows.
pub proof fn lemma_child_row_injective(n: Seq<u8>, a: Seq<u8>, b: Seq<u8>)
    requires
        child_row(n, a) == child_row(n, b),
    ensures
        a == b,
{
    let code = crate::flatdir::tuple::CODE_STRING;
    let base = n + int_element(0);
    lemma_starts_with_concat(base, crate::flatdir::tuple::element(code, a));
    lemma_starts_with_concat(base, crate::flatdir::tuple::element(code, b));
    crate::flatdir::tuple::law_element_injective(code, a, b);
}

/// The child rows of a node sort as the names do.
pub proof fn lemma_child_row_order(n: Seq<u8>, a: Seq<u8>, b: Seq<u8>)
    ensures
        lt(child_row(n, a), child_row(n, b)) <==> lt(a, b),
{
    let code = crate::flatdir::tuple::CODE_STRING;
    let base = n + int_element(0);
    crate::bytes::lemma_lt_common_prefix(
        base,
        crate::flatdir::tuple::element(code, a),
        crate::flatdir::tuple::element(code, b),
    );
    crate::flatdir::tuple::law_element_order(code, a, b);
}

/// Whether a prefix is on the trail of a removal.
pub open spec fn on_trail(trail: Seq<Vec<u8>>, p: Seq<u8>) -> bool {
    exists|i: int| 0 <= i < trail.len() && (#[trigger] trail[i])@ == p
}

/// The keys of the rows whose value is not on the trail.
spec fn open_keys(m: Rows, trail: Seq<Vec<u8>>) -> Set<Seq<u8>> {
    m.dom().filter(|k: Seq<u8>| !on_trail(trail, m[k]))
}

/// Going on to a value that is not on the trail leaves fewer open keys.
proof fn lemma_trail_shrinks(
    m0: Rows,
    m1: Rows,
    trail: Seq<Vec<u8>>,
    longer: Seq<Vec<u8>>,
    k: Seq<u8>,
)
    requires
        m0.dom().finite(),
        sub_rows(m1, m0),
        m0.dom().contains(k),
        !on_trail(trail, m0[k]),
        on_trail(longer, m0[k]),
        forall|p: Seq<u8>| on_trail(trail, p) ==> on_trail(longer, p),
    ensures
        open_keys(m1, longer).len() < open_keys(m0, trail).len(),
{
    let a = open_keys(m1, longer);
    let b = open_keys(m0, trail);
    m0.dom().lemma_len_filter(|k: Seq<u8>| !on_trail(trail, m0[k]));
    assert(a.subset_of(b));
    assert(b.contains(k) && !a.contains(k));
    vstd::set_lib::lemma_len_subset(a, b.remove(k));
}

/// Whether a directory below `p` is on the trail.
pub open spec fn loops_back(m: Rows, p: Seq<u8>, trail: Seq<Vec<u8>>) -> bool {
    exists|q: Seq<u8>, n: nat| n > 0 && #[trigger] reaches_in(m, p, q, n) && on_trail(trail, q)
}

/// Whether a slice is on the trail.
fn trail_has(trail: &Vec<Vec<u8>>, p: &[u8]) -> (r: bool)
    ensures
        r == on_trail(trail@, p@),
{
    let mut i: usize = 0;
    while i < trail.len()
        invariant
            i <= trail@.len(),
            forall|j: int| 0 <= j < i ==> (#[trigger] trail@[j])@ != p@,
        decreases trail.len() - i,
    {
        if bytes_eq(trail[i].as_slice(), p) {
            assert(trail@[i as int]@ == p@);
            return true;
        }
        i = i + 1;
    }
    false
}

/// The trail with one more prefix.
fn trail_with(trail: &Vec<Vec<u8>>, p: &[u8]) -> (r: Vec<Vec<u8>>)
    ensures
        forall|q: Seq<u8>| on_trail(r@, q) <==> (on_trail(trail@, q) || q == p@),
{
    let mut longer: Vec<Vec<u8>> = Vec::new();
    let mut i: usize = 0;
    while i < trail.len()
        invariant
            i <= trail@.len(),
            longer@.len() == i,
            forall|j: int| 0 <= j < i ==> (#[trigger] longer@[j])@ == trail@[j]@,
        decreases trail.len() - i,
    {
        longer.push(copy_bytes(trail[i].as_slice()));
        i = i + 1;
    }
    longer.push(copy_bytes(p));
    proof {
        assert forall|q: Seq<u8>| on_trail(longer@, q) <==> (on_trail(trail@, q) || q == p@) by {
            if on_trail(trail@, q) {
                let j = choose|j: int| 0 <= j < trail@.len() && (#[trigger] trail@[j])@ == q;
                assert(longer@[j]@ == q);
            }
            if q == p@ {
                assert(longer@[i as int]@ == q);
            }
            if on_trail(longer@, q) {
                let j = choose|j: int| 0 <= j < longer@.len() && (#[trigger] longer@[j])@ == q;
                if j < i {
                    assert(trail@[j]@ == q);
                }
            }
        }
    }
    longer
}

/// The recursive removal of a directory node: recurse into each child, then
/// clear the data region, then the node's own rows.
///
/// `trail` holds the prefixes on the way to this one, itself among them. A
/// child row that leads back onto the trail, or that holds no packed integer,
/// is [`FlatError::Corrupt`].
fn remove_recursive<R: RawKv>(raw: &mut R, prefix: &[u8], trail: &Vec<Vec<u8>>) -> (r: Result<
    (),
    FlatError<R::Error>,
>)
    requires
        old(raw).wf(),
        int_of_element(prefix@) is Some,
        on_trail(trail@, prefix@),
    ensures
        final(raw).wf(),
        final(raw).terms() == old(raw).terms(),
        !(r matches Err(FlatError::Engine(_))) ==> {
            &&& takes_within(old(raw).rows(), prefix@, final(raw).rows())
            &&& final(raw).touched() == old(raw).touched().union(
                old(raw).rows().dom().difference(final(raw).rows().dom()),
            )
        },
        match r {
            Ok(()) => prunable(old(raw).rows(), prefix@) && final(raw).rows() == pruned(
                old(raw).rows(),
                prefix@,
            ),
            Err(FlatError::Corrupt) => !prunable(old(raw).rows(), prefix@) || loops_back(
                old(raw).rows(),
                prefix@,
                trail@,
            ),
            Err(FlatError::Engine(e)) => (!old(raw).terms().readable || !old(
                raw,
            ).terms().writable) && call_fails::<R>(old(raw).terms(), e),
            Err(_) => false,
        },
    decreases open_keys(old(raw).rows(), trail@).len(),
{
    let ghost m = raw.rows();
    let ghost p = prefix@;
    let ghost t0 = raw.touched();
    proof {
        raw.rows_finite();
    }
    let node = node_subspace(prefix);
    let range = children_key_range(node.as_slice());
    let (start, end) = bounds_ref(&range);
    let rows = match raw.scan(start, end, true) {
        Ok(rows) => rows,
        Err(e) => return Err(FlatError::Engine(e)),
    };
    let ghost list = rows@;
    let ghost mut depth: nat = 0;
    let mut i: usize = 0;
    proof {
        assert forall|j: int| 0 <= j < list.len() implies is_child_key(p, (#[trigger] list[j]).key@) by {}
        assert forall|k: Seq<u8>| !in_subtrees(m, list, 0, k) by {}
        assert(pruned_list(m, list, 0) =~= m);
        assert(t0 =~= t0.union(m.dom().difference(m.dom())));
    }
    while i < rows.len()
        invariant
            raw.wf(),
            raw.terms() == old(raw).terms(),
            m == old(raw).rows(),
            m.dom().finite(),
            p == prefix@,
            list == rows@,
            i <= list.len(),
            all_rows(m, list),
            forall|j: int| 0 <= j < list.len() ==> is_child_key(p, (#[trigger] list[j]).key@),
            trees_within(m, list, i as int, depth),
            raw.rows() == pruned_list(m, list, i as int),
            t0 == old(raw).touched(),
            raw.touched() == t0.union(m.dom().difference(raw.rows().dom())),
            on_trail(trail@, p),
        decreases rows.len() - i,
    {
        let child = rows[i].value.as_slice();
        let ghost c = list[i as int].value@;
        let ghost k = list[i as int].key@;
        let ghost mi = raw.rows();
        proof {
            assert(m.dom().contains(k));
            assert(edge(m, p, c));
            assert(sub_rows(mi, m));
            lemma_takes_child(m, p, list, i as int, mi);
        }
        let ghost ti = raw.touched();
        if unpack_i64_full(child).is_none() {
            return Err(FlatError::Corrupt);
        }
        if trail_has(trail, child) {
            proof {
                assert(reaches_in(m, c, c, 0));
                assert(edge(m, p, c) && reaches_in(m, c, c, 0));
                assert(reaches_in(m, p, c, 1));
                assert(loops_back(m, p, trail@));
            }
            return Err(FlatError::Corrupt);
        }
        let longer = trail_with(trail, child);
        proof {
            lemma_trail_shrinks(m, mi, trail@, longer@, k);
        }
        match remove_recursive(raw, child, &longer) {
            Ok(()) => {
                proof {
                    lemma_touched_twice(m, mi, raw.rows(), t0, ti, raw.touched());
                    let n = choose|n: nat| tree_within(mi, c, n);
                    lemma_prune_next(m, list, i as int, depth, n);
                    depth = n + depth;
                }
            },
            Err(e) => {
                proof {
                    if e is Corrupt {
                        lemma_touched_twice(m, mi, raw.rows(), t0, ti, raw.touched());
                        lemma_takes_child(m, p, list, i as int, raw.rows());
                        lemma_child_refused(m, mi, p, c, trail@, longer@);
                    }
                }
                return Err(e);
            },
        }
        i = i + 1;
    }
    proof {
        lemma_prune_whole(m, p, list, depth);
        lemma_packed_successor(p);
    }
    let ghost mc = raw.rows();
    let ghost tc = raw.touched();
    let data = data_region(prefix);
    let (data_start, data_end) = bounds_ref(&data);
    match raw.clear_range(data_start, data_end) {
        Ok(()) => {},
        Err(e) => return Err(FlatError::Engine(e)),
    }
    let ghost md = raw.rows();
    let ghost td = raw.touched();
    proof {
        assert(sub_rows(mc, m));
        assert(td =~= tc.union(mc.dom().difference(md.dom())));
        lemma_touched_twice(m, mc, md, t0, tc, td);
    }
    let own = node_key_range(node.as_slice());
    let (own_start, own_end) = bounds_ref(&own);
    match raw.clear_range(own_start, own_end) {
        Ok(()) => {},
        Err(e) => return Err(FlatError::Engine(e)),
    }
    proof {
        assert(raw.touched() =~= td.union(md.dom().difference(raw.rows().dom())));
        lemma_touched_twice(m, md, raw.rows(), t0, td, raw.touched());
        let rest = pruned_list(m, list, list.len() as int);
        let whole = rest.remove_keys(Set::new(|k: Seq<u8>| owns(p, k)));
        assert forall|k: Seq<u8>| raw.rows().dom().contains(k) <==> whole.dom().contains(k) by {
            assert(starts_with(k, p) <==> in_range(k, bound_of(data_start), bound_of(data_end)));
            assert(inside(node@, k) <==> in_range(k, bound_of(own_start), bound_of(own_end)));
        }
        assert(raw.rows() =~= whole);
    }
    Ok(())
}

/// Deleting rows twice touches the rows that are gone.
proof fn lemma_touched_twice(
    a: Rows,
    b: Rows,
    c: Rows,
    ta: Set<Seq<u8>>,
    tb: Set<Seq<u8>>,
    tc: Set<Seq<u8>>,
)
    requires
        sub_rows(b, a),
        sub_rows(c, b),
        tb == ta.union(a.dom().difference(b.dom())),
        tc == tb.union(b.dom().difference(c.dom())),
    ensures
        sub_rows(c, a),
        tc == ta.union(a.dom().difference(c.dom())),
{
    assert forall|k: Seq<u8>| c.dom().contains(k) implies b.dom().contains(k) && a.dom().contains(
        k,
    ) by {}
    assert(tc =~= ta.union(a.dom().difference(c.dom())));
}

/// A refusal below is a refusal here.
proof fn lemma_child_refused(
    m: Rows,
    mi: Rows,
    p: Seq<u8>,
    c: Seq<u8>,
    trail: Seq<Vec<u8>>,
    longer: Seq<Vec<u8>>,
)
    requires
        sub_rows(mi, m),
        edge(m, p, c),
        forall|q: Seq<u8>| on_trail(longer, q) <==> (on_trail(trail, q) || q == c),
        !prunable(mi, c) || loops_back(mi, c, longer),
    ensures
        !prunable(m, p) || loops_back(m, p, trail),
{
    if prunable(m, p) {
        let n = choose|n: nat| tree_within(m, p, n);
        assert(tree_within(m, c, (n - 1) as nat));
        lemma_tree_sub(mi, m, c, (n - 1) as nat);
        assert(prunable(mi, c));
        let (q, s) = choose|q: Seq<u8>, s: nat|
            s > 0 && #[trigger] reaches_in(mi, c, q, s) && on_trail(longer, q);
        lemma_reaches_sub(mi, m, c, q, s);
        if q == c {
            lemma_tree_acyclic(m, c, (n - 1) as nat, s);
            assert(false);
        }
        assert(edge(m, p, c) && reaches_in(m, c, q, s));
        assert(reaches_in(m, p, q, s + 1));
    }
}

/// The rows once the child row at the end of a path is gone, if the parent is
/// still there.
pub open spec fn unlinked(m: Rows, path: Seq<Seq<u8>>) -> Rows {
    match walk(m, path.drop_last()) {
        Walk::Found(parent) => m.remove(child_row(node(parent), path.last())),
        _ => m,
    }
}

/// Whether a removal gets as far as writing: the directory is there.
pub open spec fn removal_begins(m: Rows, path: Seq<Seq<u8>>) -> bool {
    version_ok(m) && path.len() > 0 && walk(m, path) is Found
}

/// Remove the directory at `path` and its entire subtree: recurse into every
/// child, clear the directory's data region, clear the node's own rows, then
/// delete the child row in the (re-found) parent, tolerating a missing parent.
///
/// `Ok(false)` when the path does not exist, and nothing is written then. An empty
/// path is the layout's root and is not removable ([`FlatError::Corrupt`]).
pub fn remove_dir<R: RawKv>(raw: &mut R, path: &[&[u8]]) -> (r: Result<bool, FlatError<R::Error>>)
    requires
        old(raw).wf(),
    ensures
        final(raw).wf(),
        final(raw).terms() == old(raw).terms(),
        !removal_begins(old(raw).rows(), path_of(path@)) ==> *final(raw) == *old(raw),
        match r {
            Ok(true) => {
                &&& version_ok(old(raw).rows())
                &&& path@.len() > 0
                &&& walk(old(raw).rows(), path_of(path@)) matches Walk::Found(p) && prunable(
                    with_version(old(raw).rows()),
                    p,
                ) && final(raw).rows() == unlinked(
                    pruned(with_version(old(raw).rows()), p),
                    path_of(path@),
                ) && final(raw).touched() == swept(
                    old(raw).rows(),
                    final(raw).rows(),
                    old(raw).touched(),
                )
            },
            Ok(false) => {
                &&& version_ok(old(raw).rows())
                &&& path@.len() > 0
                &&& walk(old(raw).rows(), path_of(path@)) is Missing
            },
            Err(FlatError::Foreign) => !version_ok(old(raw).rows()),
            Err(FlatError::Corrupt) => {
                &&& version_ok(old(raw).rows())
                &&& path@.len() == 0 || match walk(old(raw).rows(), path_of(path@)) {
                    Walk::Found(p) => !prunable(with_version(old(raw).rows()), p),
                    Walk::Missing => false,
                    Walk::Malformed => true,
                }
                &&& removal_begins(old(raw).rows(), path_of(path@)) ==> final(raw).touched()
                    == swept(
                    old(raw).rows(),
                    final(raw).rows(),
                    old(raw).touched(),
                ) && takes_within(
                    with_version(old(raw).rows()),
                    walk(old(raw).rows(), path_of(path@))->Found_0,
                    final(raw).rows(),
                )
            },
            Err(FlatError::Engine(e)) => (!old(raw).terms().readable || !old(
                raw,
            ).terms().writable) && (read_fails(*old(raw), e) || (call_fails::<R>(old(raw).terms(), e) && walk(
                old(raw).rows(),
                path_of(path@),
            ) is Found)),
            Err(FlatError::Key(_)) => false,
        },
{
    match check_version_read(raw) {
        Ok(()) => {},
        Err(e) => return Err(e),
    }
    if path.len() == 0 {
        return Err(FlatError::Corrupt);
    }
    let ghost segs = path_of(path@);
    let prefix = match find(raw, path) {
        Ok(Some(prefix)) => prefix,
        Ok(None) => return Ok(false),
        Err(e) => return Err(e),
    };
    proof {
        lemma_walk_with_version(raw.rows(), segs);
        if segs.len() > 0 {
            crate::flatdir::model::lemma_walk_prefix(raw.rows(), segs);
        }
    }
    match check_version(raw, true) {
        Ok(()) => {},
        Err(e) => return Err(e),
    }
    let ghost m = raw.rows();
    let ghost tv = raw.touched();
    let none: Vec<Vec<u8>> = Vec::new();
    let trail = trail_with(&none, prefix.as_slice());
    match remove_recursive(raw, prefix.as_slice(), &trail) {
        Ok(()) => {},
        Err(e) => {
            proof {
                if e is Corrupt && prunable(m, prefix@) {
                    let n = choose|n: nat| tree_within(m, prefix@, n);
                    let (q, s) = choose|q: Seq<u8>, s: nat|
                        s > 0 && #[trigger] reaches_in(m, prefix@, q, s) && on_trail(trail@, q);
                    lemma_tree_acyclic(m, prefix@, n, s);
                }
            }
            return Err(e);
        },
    }
    let ghost rest = raw.rows();
    let ghost tr = raw.touched();
    let parent_path = &path[0..path.len() - 1];
    assert(path_of(parent_path@) =~= segs.drop_last());
    proof {
        assert(sub_rows(rest, m));
        lemma_walk_sub(rest, m, segs.drop_last());
    }
    match find(raw, parent_path) {
        Ok(Some(parent)) => {
            let name = match string_from_utf8(path[path.len() - 1]) {
                Some(name) => name,
                None => return Err(FlatError::Corrupt),
            };
            assert(encode_utf8(name@) == segs.last());
            let key = child_key(node_subspace(parent.as_slice()).as_slice(), name.as_str());
            match raw.delete(key.as_slice()) {
                Ok(()) => {},
                Err(e) => return Err(FlatError::Engine(e)),
            }
            proof {
                assert(m.dom().contains(key@));
                assert(raw.touched() =~= tv.union(m.dom().difference(raw.rows().dom())));
            }
        },
        Ok(None) => {},
        Err(e) => return Err(e),
    }
    Ok(true)
}

/// With fewer rows, a path that led somewhere leads to the same place or
/// nowhere.
pub proof fn lemma_walk_sub(m1: Rows, m0: Rows, path: Seq<Seq<u8>>)
    requires
        sub_rows(m1, m0),
        walk(m0, path) is Found,
    ensures
        walk(m1, path) is Missing || walk(m1, path) == walk(m0, path),
    decreases path.len(),
{
    if path.len() > 0 {
        lemma_walk_sub(m1, m0, path.drop_last());
        if let Walk::Found(p) = walk(m1, path.drop_last()) {
            let k = child_row(node(p), path.last());
            assert(m1.dom().contains(k) ==> m0.dom().contains(k));
        }
    }
}

/// Split a node-region relative key into the payload it leads with and the row
/// remainder behind the terminator.
fn split_node_row(rel: &[u8]) -> (r: Option<(Vec<u8>, Vec<u8>)>)
    ensures
        match r {
            Some((payload, row)) => {
                &&& leading_payload(rel@) == Some(payload@)
                &&& row@ == tail(rel@, terminated(payload@).len() + 1)
            },
            None => leading_payload(rel@) is None,
        },
{
    match first_bytes_element(rel) {
        Some(escaped) => {
            let payload = match first_element_payload(rel) {
                Some(payload) => payload,
                None => return None,
            };
            proof {
                lemma_leading_payload_sound(rel@);
                assert(element(rel@[0], payload@).len() == 1 + escaped@.len() + 1);
            }
            let n = rel.len();
            let row = copy_tail(rel, 1 + escaped.len() + 1);
            Some((payload, row))
        },
        None => None,
    }
}

/// What kind of row a row of the node region is.
enum NodeRow {
    Foreign,
    Corrupt,
    Meta,
    Layer(Vec<u8>),
    Child(Vec<u8>, Vec<u8>),
}

impl NodeRow {
    spec fn kind(&self) -> RowKind {
        match self {
            NodeRow::Foreign => RowKind::Foreign,
            NodeRow::Corrupt => RowKind::Corrupt,
            NodeRow::Meta => RowKind::Meta,
            NodeRow::Layer(p) => RowKind::Layer(p@),
            NodeRow::Child(p, c) => RowKind::Child(p@, c@),
        }
    }
}

/// Classifies a row of the node region.
fn classify_row(key: &[u8], value: &[u8]) -> (r: NodeRow)
    ensures
        r.kind() == classify(key@, value@),
{
    if bytes_eq(key, &VERSION_KEY) {
        return if is_readable_version(value) {
            NodeRow::Meta
        } else {
            NodeRow::Foreign
        };
    }
    if has_prefix(key, &COUNTERS_BASE) {
        let start = unpack_i64_full(copy_tail(key, COUNTERS_BASE.len()).as_slice());
        return if start.is_some() && value.len() == 8 {
            NodeRow::Meta
        } else {
            NodeRow::Corrupt
        };
    }
    if has_prefix(key, &RECENT_BASE) {
        let candidate = unpack_i64_full(copy_tail(key, RECENT_BASE.len()).as_slice());
        return if candidate.is_some() && value.len() == 0 {
            NodeRow::Meta
        } else {
            NodeRow::Corrupt
        };
    }
    if !has_prefix(key, &NODE_PREFIX) {
        return NodeRow::Foreign;
    }
    let rel = copy_tail(key, NODE_PREFIX.len());
    let (payload, row) = match split_node_row(rel.as_slice()) {
        Some(parts) => parts,
        None => return NodeRow::Foreign,
    };
    let prefix: Vec<u8> = if bytes_eq(payload.as_slice(), &NODE_PREFIX) {
        copy_bytes(&NODE_PREFIX)
    } else {
        match unpack_i64_full(payload.as_slice()) {
            Some(v) => pack_i64(v),
            None => return NodeRow::Corrupt,
        }
    };
    if !has_prefix(key, node_subspace(prefix.as_slice()).as_slice()) {
        return NodeRow::Corrupt;
    }
    if bytes_eq(row.as_slice(), &LAYER_TAG) {
        return if value.len() == 0 {
            NodeRow::Layer(prefix)
        } else {
            NodeRow::Corrupt
        };
    }
    match unpack_child_name(row.as_slice()) {
        Some(_) => {},
        None => return NodeRow::Corrupt,
    }
    match unpack_i64_full(value) {
        Some(v) => NodeRow::Child(prefix, pack_i64(v)),
        None => NodeRow::Corrupt,
    }
}

/// A whole-store walk that validates every row against the layout.
///
/// Every row must classify into exactly one kind (version, HCA counter, HCA
/// recent, node row, data row) with well-formed fields; every node that is
/// referenced as a child must have its layer row; every data key must resolve
/// to such a live directory. Returns the counted (data rows, child rows);
/// [`FlatError::Corrupt`] on a malformed row, [`FlatError::Foreign`] on content
/// the layout does not own.
pub fn validate<R: RawKv>(raw: &R) -> (r: Result<(usize, usize), FlatError<R::Error>>)
    requires
        raw.wf(),
    ensures
        match r {
            Ok((data, children)) => {
                &&& sound(raw.rows())
                &&& data == data_keys(raw.rows()).len()
                &&& children == child_keys(raw.rows()).len()
            },
            Err(FlatError::Foreign) => !sound(raw.rows()) && foreign(raw.rows()),
            Err(FlatError::Corrupt) => !sound(raw.rows()) && !foreign(raw.rows()),
            Err(FlatError::Engine(e)) => !raw.terms().readable && read_fails(*raw, e),
            Err(FlatError::Key(_)) => false,
        },
{
    let ghost m = raw.rows();
    proof {
        raw.rows_finite();
    }
    let mut node_start = copy_bytes(&NODE_PREFIX);
    node_start.push(0);
    assert(node_start@ =~= region_split());
    let node_rows = match raw.scan(Bound::Included(node_start.as_slice()), Bound::Unbounded, true) {
        Ok(rows) => rows,
        Err(e) => return Err(FlatError::Engine(e)),
    };
    let ghost list = node_rows@;
    let mut children: usize = 0;
    let mut layers: ByteMap<()> = ByteMap::new();
    let mut targets: ByteMap<()> = ByteMap::new();
    let mut i: usize = 0;
    proof {
        assert(child_keys_of(list, 0) =~= Set::<Seq<u8>>::empty());
    }
    while i < node_rows.len()
        invariant
            m == raw.rows(),
            m.dom().finite(),
            list == node_rows@,
            i <= list.len(),
            all_rows(m, list),
            in_key_order(list, true),
            forall|j: int| 0 <= j < list.len() ==> in_node_region((#[trigger] list[j]).key@),
            forall|k: Seq<u8>| #[trigger]
                m.dom().contains(k) && in_node_region(k) ==> lists_key(list, k),
            forall|j: int| 0 <= j < i ==> !faulty(m, (#[trigger] list[j]).key@),
            layers.wf(),
            targets.wf(),
            forall|p: Seq<u8>| layers@.dom().contains(p) <==> layer_among(list, i as int, p),
            forall|p: Seq<u8>| targets@.dom().contains(p) <==> target_among(list, i as int, p),
            child_keys_of(list, i as int).finite(),
            children == child_keys_of(list, i as int).len(),
            children <= i,
        decreases node_rows.len() - i,
    {
        let key = node_rows[i].key.as_slice();
        let value = node_rows[i].value.as_slice();
        let row = classify_row(key, value);
        let ghost pair = list[i as int];
        let ghost kind = kind_at(list, i as int);
        let ghost layers0 = layers@.dom();
        let ghost targets0 = targets@.dom();
        proof {
            assert(m.dom().contains(pair.key@));
            lemma_among_next(list, i as int);
            if row.kind() is Foreign || row.kind() is Corrupt {
                lemma_first_fault(m, list, i as int);
            }
        }
        match row {
            NodeRow::Foreign => {
                return Err(FlatError::Foreign);
            },
            NodeRow::Corrupt => {
                return Err(FlatError::Corrupt);
            },
            NodeRow::Meta => {},
            NodeRow::Layer(prefix) => {
                layers.insert(prefix.as_slice(), ());
            },
            NodeRow::Child(_, child) => {
                targets.insert(child.as_slice(), ());
                children = children + 1;
            },
        }
        proof {
            assert forall|p: Seq<u8>| layers@.dom().contains(p) <==> layer_among(
                list,
                i + 1,
                p,
            ) by {
                assert(layers0.contains(p) <==> layer_among(list, i as int, p));
            }
            assert forall|p: Seq<u8>| targets@.dom().contains(p) <==> target_among(
                list,
                i + 1,
                p,
            ) by {
                assert(targets0.contains(p) <==> target_among(list, i as int, p));
            }
        }
        i = i + 1;
    }
    proof {
        lemma_among_all(m, list);
    }
    let mut t: usize = 0;
    while t < targets.len()
        invariant
            m == raw.rows(),
            targets.wf(),
            layers.wf(),
            t <= targets.key_seq().len(),
            forall|p: Seq<u8>| layers@.dom().contains(p) <==> has_layer(m, p),
            forall|p: Seq<u8>| targets@.dom().contains(p) <==> is_target(m, p),
            no_faults(m),
            forall|j: int| 0 <= j < t ==> has_layer(m, #[trigger] targets.key_seq()[j]),
        decreases targets.key_seq().len() - t,
    {
        let target = targets.key_at(t);
        if !layers.contains(target) {
            proof {
                targets.lemma_at(t as int);
                assert(is_target(m, target@));
                lemma_no_first_fault(m);
            }
            return Err(FlatError::Corrupt);
        }
        t = t + 1;
    }
    proof {
        assert forall|p: Seq<u8>| #[trigger] is_target(m, p) implies has_layer(m, p) by {
            targets.lemma_position(p);
            assert(targets.key_seq()[targets.position(p)] == p);
        }
        assert(targets_layered(m));
    }
    let data_rows = match raw.scan(Bound::Unbounded, Bound::Excluded(node_start.as_slice()), true) {
        Ok(rows) => rows,
        Err(e) => return Err(FlatError::Engine(e)),
    };
    let ghost data_list = data_rows@;
    proof {
        assert forall|j: int| 0 <= j < data_list.len() implies !in_node_region(
            (#[trigger] data_list[j]).key@,
        ) by {
            lemma_lt_asymmetric(data_list[j].key@, region_split());
        }
        assert forall|k: Seq<u8>| #[trigger]
            m.dom().contains(k) && !in_node_region(k) implies lists_key(data_list, k) by {
            lemma_order(k, region_split(), k);
            lemma_order(region_split(), k, region_split());
        }
    }
    let mut d: usize = 0;
    while d < data_rows.len()
        invariant
            m == raw.rows(),
            data_list == data_rows@,
            d <= data_list.len(),
            targets.wf(),
            forall|p: Seq<u8>| targets@.dom().contains(p) <==> is_target(m, p),
            no_faults(m),
            targets_layered(m),
            all_rows(m, data_list),
            in_key_order(data_list, true),
            forall|j: int|
                0 <= j < data_list.len() ==> !in_node_region((#[trigger] data_list[j]).key@),
            forall|k: Seq<u8>| #[trigger]
                m.dom().contains(k) && !in_node_region(k) ==> lists_key(data_list, k),
            forall|j: int| 0 <= j < d ==> data_ok(m, (#[trigger] data_list[j]).key@),
        decreases data_rows.len() - d,
    {
        let key = data_rows[d].key.as_slice();
        let ghost k = data_list[d as int].key@;
        assert(m.dom().contains(k));
        match data_key_prefix(key) {
            Some(p) => {
                // Every child has its layer row by now.
                if !targets.contains(p) {
                    proof {
                        lemma_first_stray(m, data_list, d as int);
                    }
                    return Err(FlatError::Corrupt);
                }
                proof {
                    assert(is_target(m, p@));
                    assert(data_ok(m, k));
                }
            },
            None => {
                proof {
                    lemma_first_stray(m, data_list, d as int);
                }
                return Err(FlatError::Foreign);
            },
        }
        d = d + 1;
    }
    proof {
        assert forall|k: Seq<u8>| #[trigger] m.dom().contains(k) && !in_node_region(k) implies data_ok(
            m,
            k,
        ) by {
            assert(lists_key(data_list, k));
            let j = choose|j: int| 0 <= j < data_list.len() && (#[trigger] data_list[j]).key@ == k;
            assert(data_ok(m, data_list[j].key@));
        }
        assert(sound(m));
        lemma_listed_count(data_list, data_keys(m));
        assert(child_keys_of(list, list.len() as int) =~= child_keys(m));
    }
    Ok((data_rows.len(), children))
}

/// A list of pairs in key order has as many pairs as keys.
proof fn lemma_listed_count(list: Seq<KvPair>, keys: Set<Seq<u8>>)
    requires
        in_key_order(list, true),
        forall|k: Seq<u8>| keys.contains(k) <==> lists_key(list, k),
    ensures
        keys.finite(),
        keys.len() == list.len(),
{
    let ks = Seq::new(list.len(), |i: int| list[i].key@);
    assert(ks.no_duplicates()) by {
        assert forall|i: int, j: int|
            0 <= i < ks.len() && 0 <= j < ks.len() && i != j implies ks[i] != ks[j] by {
            lemma_lt_irreflexive(ks[i]);
            let a = list[i];
            let b = list[j];
        }
    }
    ks.unique_seq_to_set();
    assert(ks.to_set() =~= keys) by {
        assert forall|k: Seq<u8>| ks.to_set().contains(k) <==> keys.contains(k) by {
            if lists_key(list, k) {
                let i = choose|i: int| 0 <= i < list.len() && (#[trigger] list[i]).key@ == k;
                assert(ks[i] == k);
            }
            if ks.to_set().contains(k) {
                let i = choose|i: int| 0 <= i < ks.len() && ks[i] == k;
                assert(list[i].key@ == k);
            }
        }
    }
    vstd::seq_lib::seq_to_set_is_finite(ks);
}

} // verus!
