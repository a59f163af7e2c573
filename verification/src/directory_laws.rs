//! What holds of the directory operations together.
//!
//! Each law relates the rows before an operation to the rows after it, over
//! the spec functions that the operations' own contracts use: what a
//! directory's content is ([`dir_content`]), where it lives ([`lookup`]), and
//! that the store stays healthy.

use core::ops::Bound;

use vstd::prelude::*;
use vstd::utf8::{encode_utf8, encode_utf8_valid_utf8, valid_utf8};

use crate::bytes::{lemma_starts_with_concat, starts_with};
use crate::flatdir::health::{
    counts, healthy, is_data, is_packed, layered, lemma_data_change_keeps, lemma_data_head,
    lemma_data_owner, lemma_empty_healthy, lemma_key_shapes, lemma_kinds, lemma_link_key_injective,
    lemma_open_keeps, lemma_open_room, lemma_open_succeeds, lemma_packed, lemma_walk_grows,
    lemma_walk_healthy, lemma_walk_same_tree, lemma_walk_well_formed, lemma_with_version_keeps,
    linked_at, on_path, room, same_tree,
};
use crate::flatdir::layout::{
    child_row, lemma_layout_constants, node, NODE_PREFIX, ROOT_PATH_SEGMENT,
};
use crate::flatdir::model::{
    children_named, is_child_key, lemma_packed_shape, names_child, opens, same_data, version_ok,
    walk, with_version, Walk,
};
use crate::flatdir::ops::unlinked;
use crate::flatdir::prune::{prunable, pruned, reaches_in, sub_rows};
use crate::flatdir::removal::{doomed, lemma_edge_is_link, lemma_removal_keeps};
use crate::flatdir::rows::sound;
use crate::flatdir::soundness::lemma_healthy_sound;
use crate::flatdir::tuple::int_of_element;
use crate::flatengine::{
    anchored, cleared, content, create_refused, dir_content, is_dir_listing, lookup, sets, Refusal,
};
use crate::key::{valid_path, KeyError};
use crate::rawkv::{row_at, without_range, Rows};

verus! {

// ---------------------------------------------------------------------------
// Paths and prefixes
// ---------------------------------------------------------------------------

/// The layout path of a valid directory is valid and not empty.
proof fn lemma_anchored(dir: Seq<Seq<u8>>)
    ensures
        valid_path(dir) ==> valid_path(anchored(dir)),
        anchored(dir).len() == dir.len() + 1,
{
    encode_utf8_valid_utf8(ROOT_PATH_SEGMENT@);
    if valid_path(dir) {
        assert forall|i: int| 0 <= i < anchored(dir).len() implies valid_utf8(
            #[trigger] anchored(dir)[i],
        ) by {
            if i > 0 {
                assert(valid_utf8(dir[i - 1]));
            }
        }
    }
}

/// Different directories have different layout paths.
proof fn lemma_anchored_injective(a: Seq<Seq<u8>>, b: Seq<Seq<u8>>)
    requires
        anchored(a) == anchored(b),
    ensures
        a == b,
{
    assert(a =~= anchored(a).subrange(1, anchored(a).len() as int));
    assert(b =~= anchored(b).subrange(1, anchored(b).len() as int));
}

/// In a healthy store, different paths lead to different directories.
pub proof fn law_paths_injective(m: Rows, a: Seq<Seq<u8>>, b: Seq<Seq<u8>>)
    requires
        healthy(m),
        walk(m, a) is Found,
        walk(m, b) == walk(m, a),
    ensures
        a == b,
    decreases a.len(),
{
    lemma_walk_healthy(m, a);
    lemma_walk_healthy(m, b);
    lemma_layout_constants();
    if a.len() == 0 {
        if b.len() > 0 {
            lemma_packed(NODE_PREFIX@);
        }
        assert(a =~= b);
    } else if b.len() == 0 {
        lemma_packed(NODE_PREFIX@);
    } else {
        let p = walk(m, a.drop_last())->Found_0;
        let q = walk(m, b.drop_last())->Found_0;
        lemma_walk_healthy(m, a.drop_last());
        lemma_walk_healthy(m, b.drop_last());
        assert(linked_at(m, p, a.last()) && linked_at(m, q, b.last()));
        assert(p == q && a.last() == b.last());
        law_paths_injective(m, a.drop_last(), b.drop_last());
        assert(a =~= a.drop_last().push(a.last()));
        assert(b =~= b.drop_last().push(b.last()));
    }
}

/// On a healthy store, resolving a valid directory never fails.
pub proof fn law_lookup_succeeds(m: Rows, dir: Seq<Seq<u8>>)
    requires
        healthy(m),
        valid_path(dir),
    ensures
        lookup(m, dir) is Ok,
        lookup(m, dir) matches Ok(Some(p)) ==> is_packed(p) && layered(m, p),
{
    lemma_anchored(dir);
    lemma_walk_well_formed(m, anchored(dir));
    if walk(m, anchored(dir)) is Found {
        lemma_walk_healthy(m, anchored(dir));
    }
}

/// The data rows behind a prefix that no directory has: none.
proof fn lemma_no_content(m: Rows, p: Seq<u8>)
    requires
        healthy(m),
        is_packed(p),
        !layered(m, p),
    ensures
        content(m, p) == Map::<Seq<u8>, Seq<u8>>::empty(),
{
    assert forall|k: Seq<u8>| !content(m, p).dom().contains(k) by {
        if m.dom().contains(p + k) {
            lemma_starts_with_concat(p, k);
            lemma_data_head(p + k, p);
            lemma_kinds(m, p + k);
            let q = choose|q: Seq<u8>|
                is_packed(q) && layered(m, q) && #[trigger] starts_with(p + k, q);
            lemma_data_owner(p + k, p, q);
        }
    }
    assert(content(m, p) =~= Map::<Seq<u8>, Seq<u8>>::empty());
}

/// Stores that agree on the keys behind a prefix have the same content there.
proof fn lemma_same_content(m0: Rows, m1: Rows, p: Seq<u8>)
    requires
        forall|k: Seq<u8>| #[trigger] row_at(m1, p + k) == row_at(m0, p + k),
    ensures
        content(m1, p) == content(m0, p),
{
    assert forall|k: Seq<u8>| content(m1, p).dom().contains(k) <==> content(m0, p).dom().contains(
        k,
    ) by {
        assert(row_at(m1, p + k) == row_at(m0, p + k));
    }
    assert forall|k: Seq<u8>| content(m1, p).dom().contains(k) implies content(m1, p)[k] == content(
        m0,
        p,
    )[k] by {
        assert(row_at(m1, p + k) == row_at(m0, p + k));
    }
    assert(content(m1, p) =~= content(m0, p));
}

// ---------------------------------------------------------------------------
// A fresh store
// ---------------------------------------------------------------------------

/// A fresh store is healthy, and no directory exists in it, not even the root.
pub proof fn law_fresh_store(dir: Seq<Seq<u8>>)
    requires
        valid_path(dir),
    ensures
        healthy(Map::empty()),
        lookup(Map::empty(), dir) == Ok::<Option<Seq<u8>>, Refusal>(None),
        dir_content(Map::empty(), dir) == Map::<Seq<u8>, Seq<u8>>::empty(),
        forall|n: nat| 8192 * (n + 1) <= i64::MAX ==> #[trigger] room(Map::empty(), n),
{
    let m: Rows = Map::empty();
    lemma_empty_healthy();
    law_lookup_succeeds(m, dir);
}

/// A healthy store is sound: the whole-store walk accepts it.
pub proof fn law_healthy_is_sound(m: Rows)
    requires
        healthy(m),
    ensures
        sound(m),
{
    lemma_healthy_sound(m);
}

// ---------------------------------------------------------------------------
// Writing
// ---------------------------------------------------------------------------

/// Opening a directory changes no directory's content: the opened one exists
/// afterwards under the prefix it was opened with, so do its ancestors, and every
/// other one exists or not as before. Opening it again changes nothing and gives
/// the same prefix.
pub proof fn law_open(m0: Rows, dir: Seq<Seq<u8>>, m1: Rows, p: Seq<u8>, other: Seq<Seq<u8>>)
    requires
        healthy(m0),
        valid_path(dir),
        valid_path(other),
        opens(m0, anchored(dir), m1, p),
        same_data(m0, m1),
    ensures
        healthy(m1),
        lookup(m1, dir) == Ok::<Option<Seq<u8>>, Refusal>(Some(p)),
        is_packed(p),
        layered(m1, p),
        dir_content(m1, other) == dir_content(m0, other),
        lookup(m0, other) matches Ok(Some(q)) ==> lookup(m1, other) == Ok::<
            Option<Seq<u8>>,
            Refusal,
        >(Some(q)),
        forall|m2: Rows, q: Seq<u8>| #[trigger]
            opens(m1, anchored(dir), m2, q) ==> m2 == m1 && q == p,
        dir_found(m1, other) <==> dir_found(m0, other) || extends(dir, other),
{
    let path = anchored(dir);
    lemma_anchored(dir);
    lemma_anchored(other);
    lemma_open_keeps(m0, path, m1, p);
    lemma_walk_healthy(m1, path);
    law_lookup_succeeds(m0, other);
    law_lookup_succeeds(m1, other);
    if lookup(m1, other)->Ok_0 is Some {
        let q = (lookup(m1, other)->Ok_0)->0;
        assert forall|k: Seq<u8>| #[trigger] row_at(m1, q + k) == row_at(m0, q + k) by {
            lemma_starts_with_concat(q, k);
            lemma_data_head(q + k, q);
        }
        lemma_same_content(m0, m1, q);
        if lookup(m0, other)->Ok_0 is Some {
            lemma_walk_grows(m0, m1, anchored(other));
        } else {
            // The directory is new, and so is its prefix.
            lemma_new_prefix(m0, path, m1, p, anchored(other));
            lemma_no_content(m0, q);
        }
    } else if lookup(m0, other)->Ok_0 is Some {
        lemma_walk_grows(m0, m1, anchored(other));
    }
    if extends(dir, other) {
        assert(path.subrange(0, anchored(other).len() as int) =~= anchored(other)) by {
            assert forall|i: int| 0 <= i < anchored(other).len() implies path[i] == anchored(
                other,
            )[i] by {
                if i > 0 {
                    assert(dir.subrange(0, other.len() as int)[i - 1] == dir[i - 1]);
                }
            }
        }
        lemma_walk_passes(m1, path, anchored(other).len() as int);
    }
    if dir_found(m1, other) && !dir_found(m0, other) {
        lemma_new_dir(m0, path, m1, p, anchored(other));
        assert(dir.subrange(0, other.len() as int) =~= other) by {
            assert forall|i: int| 0 <= i < other.len() implies dir[i] == other[i] by {
                assert(path.subrange(0, anchored(other).len() as int)[i + 1] == path[i + 1]);
                assert(anchored(other)[i + 1] == other[i]);
            }
        }
    }
}

/// A path that leads somewhere leads somewhere at each of its segments.
proof fn lemma_walk_passes(m: Rows, path: Seq<Seq<u8>>, n: int)
    requires
        0 <= n <= path.len(),
        walk(m, path) is Found,
    ensures
        walk(m, path.subrange(0, n)) is Found,
    decreases path.len() - n,
{
    if n < path.len() {
        lemma_walk_passes(m, path, n + 1);
        assert(path.subrange(0, n + 1).drop_last() =~= path.subrange(0, n));
    } else {
        assert(path.subrange(0, n) =~= path);
    }
}

/// The last child row on the way to a directory that an opening brings about lies
/// on the opened path.
proof fn lemma_new_link(
    m0: Rows,
    path: Seq<Seq<u8>>,
    m1: Rows,
    p: Seq<u8>,
    other: Seq<Seq<u8>>,
    a: Seq<u8>,
)
    requires
        healthy(m0),
        opens(m0, path, m1, p),
        other.len() > 0,
        walk(m0, other) is Missing,
        walk(m1, other) is Found,
        walk(m1, other.drop_last()) == Walk::Found(a),
    ensures
        healthy(m1),
        on_path(m1, path, a, other.last()),
{
    let s = other.last();
    lemma_new_prefix(m0, path, m1, p, other);
    lemma_open_keeps(m0, path, m1, p);
    lemma_walk_healthy(m1, other.drop_last());
    assert(linked_at(m1, a, s));
    if linked_at(m0, a, s) {
        crate::flatdir::health::lemma_tree_outside_hca(a, s);
        let k = child_row(node(a), s);
        assert(m1.dom().contains(k) && m1[k] == m0[k]);
        assert(layered(m0, m0[k]));
    }
}

/// Where a path goes on behind a directory, the directory's own path goes before.
proof fn lemma_along(m: Rows, path: Seq<Seq<u8>>, before: Seq<Seq<u8>>, a: Seq<u8>, s: Seq<u8>)
    requires
        healthy(m),
        walk(m, before) == Walk::Found(a),
        on_path(m, path, a, s),
    ensures
        extends(path, before.push(s)),
{
    let n = choose|n: int|
        0 <= n < path.len() && #[trigger] path[n] == s && walk(m, path.subrange(0, n))
            == Walk::Found(a);
    law_paths_injective(m, before, path.subrange(0, n));
    assert(path.subrange(0, n + 1) =~= path.subrange(0, n).push(s));
}

/// A directory that an opening brings about lies on the opened path.
proof fn lemma_new_dir(
    m0: Rows,
    path: Seq<Seq<u8>>,
    m1: Rows,
    p: Seq<u8>,
    other: Seq<Seq<u8>>,
)
    requires
        healthy(m0),
        opens(m0, path, m1, p),
        other.len() > 0,
        walk(m0, other) is Missing,
        walk(m1, other) is Found,
    ensures
        extends(path, other),
{
    let before = other.drop_last();
    let a = walk(m1, before)->Found_0;
    assert(walk(m1, before) == Walk::Found(a));
    lemma_new_link(m0, path, m1, p, other, a);
    lemma_along(m1, path, before, a, other.last());
    assert(before.push(other.last()) =~= other);
}

/// Where a path leads that led nowhere before an opening: to a prefix that was
/// not in use.
proof fn lemma_new_prefix(
    m0: Rows,
    path: Seq<Seq<u8>>,
    m1: Rows,
    p: Seq<u8>,
    other: Seq<Seq<u8>>,
)
    requires
        healthy(m0),
        opens(m0, path, m1, p),
        walk(m0, other) is Missing,
        walk(m1, other) is Found,
    ensures
        !layered(m0, walk(m1, other)->Found_0),
    decreases other.len(),
{
    lemma_open_keeps(m0, path, m1, p);
    lemma_walk_healthy(m1, other);
    let q = walk(m1, other)->Found_0;
    lemma_layout_constants();
    if other.len() > 0 && layered(m0, q) {
        let before = other.drop_last();
        let w = walk(m1, before)->Found_0;
        let k = child_row(node(w), other.last());
        lemma_walk_healthy(m1, before);
        assert(linked_at(m1, w, other.last()));
        assert(linked_at(m0, w, other.last()));
        crate::flatdir::health::lemma_tree_outside_hca(w, other.last());
        assert(m1.dom().contains(k) && m1[k] == m0[k]);
        if walk(m0, before) is Found {
            lemma_walk_grows(m0, m1, before);
        } else {
            // The child row says that the directory it belongs to existed.
            assert(walk(m0, before) is Missing) by {
                lemma_step_missing(m0, other);
            }
            lemma_new_prefix(m0, path, m1, p, before);
            if before.len() == 0 {
                assert(false);
            }
            lemma_packed(w);
            assert(w != NODE_PREFIX@);
        }
        assert(false);
    }
}

/// A path that leads nowhere has a beginning that leads somewhere or nowhere.
proof fn lemma_step_missing(m: Rows, path: Seq<Seq<u8>>)
    requires
        path.len() > 0,
        walk(m, path) is Missing,
    ensures
        !(walk(m, path.drop_last()) is Malformed),
{
}

/// Setting a key: the store stays healthy, the directory has the key with the
/// value beside what it had before, and every other directory has the content it
/// had. The directory and its ancestors exist; no other directory appears or
/// goes away.
pub proof fn law_set(
    m0: Rows,
    dir: Seq<Seq<u8>>,
    key: Seq<u8>,
    value: Seq<u8>,
    m1: Rows,
    other: Seq<Seq<u8>>,
)
    requires
        healthy(m0),
        sets(m0, dir, key, value, m1),
        valid_path(other),
        other != dir,
    ensures
        healthy(m1),
        lookup(m1, dir) matches Ok(Some(_)),
        dir_content(m1, dir) == dir_content(m0, dir).insert(key, value),
        dir_content(m1, other) == dir_content(m0, other),
        lookup(m0, other) matches Ok(Some(q)) ==> lookup(m1, other) == Ok::<
            Option<Seq<u8>>,
            Refusal,
        >(Some(q)),
        dir_found(m1, other) <==> dir_found(m0, other) || extends(dir, other),
{
    let (mid, p) = choose|mid: Rows, p: Seq<u8>| #[trigger]
        opens(m0, anchored(dir), mid, p) && crate::flatdir::tuple::int_of_element(p) is Some
            && same_data(m0, mid) && m1 == mid.insert(p + key, value);
    law_open(m0, dir, mid, p, other);
    law_open(m0, dir, mid, p, dir);
    law_put(mid, dir, p, key, value, other);
}

/// Writing a key of an existing directory.
pub proof fn law_put(
    m: Rows,
    dir: Seq<Seq<u8>>,
    p: Seq<u8>,
    key: Seq<u8>,
    value: Seq<u8>,
    other: Seq<Seq<u8>>,
)
    requires
        healthy(m),
        valid_path(dir),
        valid_path(other),
        other != dir,
        lookup(m, dir) == Ok::<Option<Seq<u8>>, Refusal>(Some(p)),
    ensures
        healthy(m.insert(p + key, value)),
        lookup(m.insert(p + key, value), dir) == lookup(m, dir),
        lookup(m.insert(p + key, value), other) == lookup(m, other),
        dir_content(m.insert(p + key, value), dir) == dir_content(m, dir).insert(key, value),
        dir_content(m.insert(p + key, value), other) == dir_content(m, other),
{
    let m1 = m.insert(p + key, value);
    law_lookup_succeeds(m, dir);
    law_lookup_succeeds(m, other);
    lemma_starts_with_concat(p, key);
    lemma_data_written(m, p, p + key, value);
    lemma_same_lookup(m, m1, dir);
    lemma_same_lookup(m, m1, other);
    assert(content(m1, p) =~= content(m, p).insert(key, value)) by {
        assert forall|k: Seq<u8>| p + k == p + key implies k == key by {
            lemma_starts_with_concat(p, k);
        }
    }
    if lookup(m, other)->Ok_0 is Some {
        let q = (lookup(m, other)->Ok_0)->0;
        lemma_apart(m, dir, p, other, q);
        assert forall|k: Seq<u8>| #[trigger] row_at(m1, q + k) == row_at(m, q + k) by {
            if q + k == p + key {
                lemma_starts_with_concat(q, k);
                lemma_data_owner(p + key, p, q);
            }
        }
        lemma_same_content(m, m1, q);
    }
}

/// Writing one data row of an existing directory changes nothing else.
proof fn lemma_data_written(m: Rows, p: Seq<u8>, k: Seq<u8>, value: Seq<u8>)
    requires
        healthy(m),
        is_packed(p),
        layered(m, p),
        starts_with(k, p),
    ensures
        healthy(m.insert(k, value)),
        same_tree(m, m.insert(k, value)),
        version_ok(m.insert(k, value)),
{
    let m1 = m.insert(k, value);
    lemma_data_head(k, p);
    assert forall|j: Seq<u8>| starts_with(j, NODE_PREFIX@) implies #[trigger] row_at(m1, j)
        == row_at(m, j) by {}
    assert forall|j: Seq<u8>|
        !starts_with(j, NODE_PREFIX@) && #[trigger] m1.dom().contains(j) implies is_data(m, j) by {
        if j == k {
            assert(is_packed(p) && layered(m, p) && starts_with(j, p));
        } else {
            lemma_outside_is_data(m, j);
        }
    }
    lemma_data_change_keeps(m, m1);
}

/// A row outside of the node region is a data row.
proof fn lemma_outside_is_data(m: Rows, j: Seq<u8>)
    requires
        healthy(m),
        m.dom().contains(j),
        !starts_with(j, NODE_PREFIX@),
    ensures
        is_data(m, j),
{
    lemma_kinds(m, j);
    lemma_layout_constants();
    if j[0] == 0xFE {
        assert(j.subrange(0, 1) =~= NODE_PREFIX@);
    }
}

/// Taking data rows away changes nothing else.
proof fn lemma_data_removed(m: Rows, m1: Rows)
    requires
        healthy(m),
        sub_rows(m1, m),
        forall|k: Seq<u8>|
            starts_with(k, NODE_PREFIX@) && #[trigger] m.dom().contains(k) ==> m1.dom().contains(
                k,
            ),
    ensures
        healthy(m1),
        same_tree(m, m1),
{
    assert forall|j: Seq<u8>| starts_with(j, NODE_PREFIX@) implies #[trigger] row_at(m1, j)
        == row_at(m, j) by {
        if m.dom().contains(j) {
            assert(m1.dom().contains(j));
        }
        if m1.dom().contains(j) {
            assert(m.dom().contains(j));
        }
    }
    assert forall|j: Seq<u8>|
        !starts_with(j, NODE_PREFIX@) && #[trigger] m1.dom().contains(j) implies is_data(m, j) by {
        lemma_outside_is_data(m, j);
    }
    lemma_data_change_keeps(m, m1);
}

/// The same tree and a good version resolve directories alike.
proof fn lemma_same_lookup(m0: Rows, m1: Rows, dir: Seq<Seq<u8>>)
    requires
        healthy(m0),
        healthy(m1),
        same_tree(m0, m1),
    ensures
        lookup(m1, dir) == lookup(m0, dir),
{
    lemma_walk_same_tree(m0, m1, anchored(dir));
}

/// Deleting a key: the store stays healthy, every directory still exists, the
/// directory lacks the key, and every other directory is as it was.
pub proof fn law_delete(
    m: Rows,
    dir: Seq<Seq<u8>>,
    key: Seq<u8>,
    p: Seq<u8>,
    other: Seq<Seq<u8>>,
)
    requires
        healthy(m),
        valid_path(dir),
        valid_path(other),
        other != dir,
        lookup(m, dir) == Ok::<Option<Seq<u8>>, Refusal>(Some(p)),
    ensures
        healthy(m.remove(p + key)),
        lookup(m.remove(p + key), dir) == lookup(m, dir),
        lookup(m.remove(p + key), other) == lookup(m, other),
        dir_content(m.remove(p + key), dir) == dir_content(m, dir).remove(key),
        dir_content(m.remove(p + key), other) == dir_content(m, other),
{
    let m1 = m.remove(p + key);
    law_lookup_succeeds(m, dir);
    law_lookup_succeeds(m, other);
    lemma_starts_with_concat(p, key);
    lemma_data_head(p + key, p);
    lemma_data_removed(m, m1);
    lemma_same_lookup(m, m1, dir);
    lemma_same_lookup(m, m1, other);
    assert(content(m1, p) =~= content(m, p).remove(key)) by {
        assert forall|k: Seq<u8>| p + k == p + key implies k == key by {
            lemma_starts_with_concat(p, k);
        }
    }
    if lookup(m, other)->Ok_0 is Some {
        let q = (lookup(m, other)->Ok_0)->0;
        lemma_apart(m, dir, p, other, q);
        assert forall|k: Seq<u8>| #[trigger] row_at(m1, q + k) == row_at(m, q + k) by {
            if q + k == p + key {
                lemma_starts_with_concat(q, k);
                lemma_data_owner(p + key, p, q);
            }
        }
        lemma_same_content(m, m1, q);
    }
}

/// Different directories have different prefixes.
proof fn lemma_apart(
    m: Rows,
    dir: Seq<Seq<u8>>,
    p: Seq<u8>,
    other: Seq<Seq<u8>>,
    q: Seq<u8>,
)
    requires
        healthy(m),
        lookup(m, dir) == Ok::<Option<Seq<u8>>, Refusal>(Some(p)),
        lookup(m, other) == Ok::<Option<Seq<u8>>, Refusal>(Some(q)),
        other != dir,
    ensures
        p != q,
{
    if p == q {
        law_paths_injective(m, anchored(dir), anchored(other));
        lemma_anchored_injective(dir, other);
    }
}

/// Clearing a range: the store stays healthy, every directory still exists, the
/// directory lacks exactly the keys of the range, and every other directory is
/// as it was. Clearing deletes what scanning the same range lists.
pub proof fn law_clear_range(
    m: Rows,
    dir: Seq<Seq<u8>>,
    start: Bound<Seq<u8>>,
    end: Bound<Seq<u8>>,
    p: Seq<u8>,
    other: Seq<Seq<u8>>,
)
    requires
        healthy(m),
        valid_path(dir),
        valid_path(other),
        other != dir,
        lookup(m, dir) == Ok::<Option<Seq<u8>>, Refusal>(Some(p)),
    ensures
        healthy(cleared(m, p, start, end)),
        lookup(cleared(m, p, start, end), dir) == lookup(m, dir),
        lookup(cleared(m, p, start, end), other) == lookup(m, other),
        dir_content(cleared(m, p, start, end), dir) == without_range(
            dir_content(m, dir),
            start,
            end,
        ),
        dir_content(cleared(m, p, start, end), other) == dir_content(m, other),
{
    let m1 = cleared(m, p, start, end);
    law_lookup_succeeds(m, dir);
    law_lookup_succeeds(m, other);
    assert forall|k: Seq<u8>| starts_with(k, p) implies !starts_with(k, NODE_PREFIX@) by {
        lemma_data_head(k, p);
    }
    lemma_data_removed(m, m1);
    lemma_same_lookup(m, m1, dir);
    lemma_same_lookup(m, m1, other);
    assert forall|k: Seq<u8>| content(m1, p).dom().contains(k) <==> without_range(
        content(m, p),
        start,
        end,
    ).dom().contains(k) by {
        lemma_starts_with_concat(p, k);
    }
    assert(content(m1, p) =~= without_range(content(m, p), start, end));
    if lookup(m, other)->Ok_0 is Some {
        let q = (lookup(m, other)->Ok_0)->0;
        lemma_apart(m, dir, p, other, q);
        assert forall|k: Seq<u8>| #[trigger] row_at(m1, q + k) == row_at(m, q + k) by {
            lemma_starts_with_concat(q, k);
            if starts_with(q + k, p) {
                lemma_data_owner(q + k, p, q);
            }
        }
        lemma_same_content(m, m1, q);
    }
}

/// On a healthy store with room for the missing directories, no valid write is
/// refused.
pub proof fn law_create_succeeds(m: Rows, dir: Seq<Seq<u8>>, f: Refusal)
    requires
        healthy(m),
        valid_path(dir),
        room(m, dir.len() + 1),
    ensures
        !create_refused(m, dir, f),
{
    lemma_anchored(dir);
    lemma_open_succeeds(m, anchored(dir));
}

/// A write uses up the room of at most one allocation per segment of its path,
/// the anchor's included.
pub proof fn law_room(
    m0: Rows,
    dir: Seq<Seq<u8>>,
    key: Seq<u8>,
    value: Seq<u8>,
    m1: Rows,
    n: nat,
)
    requires
        healthy(m0),
        sets(m0, dir, key, value, m1),
        room(m0, n + dir.len() + 1),
    ensures
        room(m1, n),
{
    let (mid, p) = choose|mid: Rows, p: Seq<u8>| #[trigger]
        opens(m0, anchored(dir), mid, p) && int_of_element(p) is Some && same_data(m0, mid) && m1
            == mid.insert(p + key, value);
    lemma_open_room(m0, anchored(dir), mid, p, n);
    assert forall|s: int| #[trigger] counts(m1, s) implies counts(mid, s) by {
        lemma_key_shapes(NODE_PREFIX@, Seq::empty(), s);
        lemma_packed_shape(p);
    }
}

// ---------------------------------------------------------------------------
// Listing and removing
// ---------------------------------------------------------------------------

/// A listing names exactly the children that exist, and on a healthy store
/// listing never fails.
pub proof fn law_listing(
    m: Rows,
    dir: Seq<Seq<u8>>,
    p: Seq<u8>,
    names: Seq<Seq<u8>>,
    seg: Seq<u8>,
)
    requires
        healthy(m),
        valid_path(dir),
        lookup(m, dir) == Ok::<Option<Seq<u8>>, Refusal>(Some(p)),
        is_dir_listing(m, p, names),
        valid_utf8(seg),
    ensures
        children_named(m, p),
        names.contains(seg) <==> lookup(m, dir.push(seg)) matches Ok(Some(_)),
{
    law_lookup_succeeds(m, dir);
    let longer = dir.push(seg);
    assert forall|i: int| 0 <= i < longer.len() implies valid_utf8(#[trigger] longer[i]) by {
        if i < dir.len() {
            assert(valid_utf8(dir[i]));
        }
    }
    law_lookup_succeeds(m, longer);
    assert(anchored(longer).drop_last() =~= anchored(dir));
    assert(anchored(longer).last() == seg);
    lemma_children_named(m, p);
    let k = child_row(node(p), seg);
    if names.contains(seg) {
        let i = choose|i: int| 0 <= i < names.len() && names[i] == seg;
        assert(m.dom().contains(child_row(node(p), names[i])));
    }
}

/// A child row of a healthy store carries a name.
proof fn lemma_child_key_named(m: Rows, p: Seq<u8>, k: Seq<u8>)
    requires
        healthy(m),
        is_packed(p),
        m.dom().contains(k),
        is_child_key(p, k),
    ensures
        names_child(p, k),
{
    // A store with this row alone has the same kind of row.
    crate::flatdir::prune::lemma_child_key_inside(p, k);
    let seg = crate::flatdir::removal::lemma_child_key_is_link(m, p, k);
    vstd::utf8::decode_utf8_encode_utf8(seg);
    let name = vstd::utf8::decode_utf8(seg);
    assert(k == child_row(node(p), encode_utf8(name)));
}

/// Whether a path begins with another one.
pub open spec fn extends(path: Seq<Seq<u8>>, start: Seq<Seq<u8>>) -> bool {
    start.len() <= path.len() && path.subrange(0, start.len() as int) == start
}

/// What lies below a directory is found behind its path.
proof fn lemma_doomed_extends(
    m: Rows,
    path: Seq<Seq<u8>>,
    p: Seq<u8>,
    other: Seq<Seq<u8>>,
    q: Seq<u8>,
    n: nat,
)
    requires
        healthy(m),
        path.len() > 0,
        walk(m, path) == Walk::Found(p),
        walk(m, other) == Walk::Found(q),
        reaches_in(m, p, q, n),
    ensures
        extends(other, path),
    decreases n,
{
    lemma_walk_healthy(m, path);
    if n == 0 {
        law_paths_injective(m, path, other);
        assert(other.subrange(0, path.len() as int) =~= path);
    } else {
        let w = crate::flatdir::removal::lemma_last_step(m, p, q, n);
        assert(doomed(m, p, w));
        assert(doomed(m, p, q));
        crate::flatdir::removal::lemma_doomed_packed(m, p, w);
        crate::flatdir::removal::lemma_doomed_packed(m, p, q);
        let t = lemma_edge_is_link(m, w, q);
        lemma_layout_constants();
        if other.len() == 0 {
            lemma_packed(q);
        }
        let before = other.drop_last();
        let v = walk(m, before)->Found_0;
        lemma_walk_healthy(m, before);
        assert(linked_at(m, v, other.last()) && linked_at(m, w, t));
        assert(v == w);
        lemma_doomed_extends(m, path, p, before, w, (n - 1) as nat);
        assert(other.subrange(0, path.len() as int) =~= before.subrange(0, path.len() as int));
    }
}

/// A path that does not begin with the removed one leads where it led.
proof fn lemma_walk_left(
    m: Rows,
    path: Seq<Seq<u8>>,
    p: Seq<u8>,
    other: Seq<Seq<u8>>,
)
    requires
        healthy(m),
        path.len() > 0,
        walk(m, path) == Walk::Found(p),
        !extends(other, path),
        valid_path(other),
    ensures
        walk(unlinked(pruned(m, p), path), other) == walk(m, other),
    decreases other.len(),
{
    let m1 = unlinked(pruned(m, p), path);
    if other.len() > 0 {
        let before = other.drop_last();
        assert(!extends(before, path)) by {
            if extends(before, path) {
                assert(other.subrange(0, path.len() as int) =~= before.subrange(
                    0,
                    path.len() as int,
                ));
            }
        }
        assert forall|i: int| 0 <= i < before.len() implies valid_utf8(#[trigger] before[i]) by {
            assert(valid_utf8(other[i]));
        }
        lemma_walk_left(m, path, p, before);
        if let Walk::Found(a) = walk(m, before) {
            lemma_step_left(m, path, p, other, a);
        }
    }
}

/// A child row on a path that does not begin with the removed one stays.
proof fn lemma_step_left(
    m: Rows,
    path: Seq<Seq<u8>>,
    p: Seq<u8>,
    other: Seq<Seq<u8>>,
    a: Seq<u8>,
)
    requires
        healthy(m),
        path.len() > 0,
        other.len() > 0,
        walk(m, path) == Walk::Found(p),
        walk(m, other.drop_last()) == Walk::Found(a),
        !extends(other, path),
        !extends(other.drop_last(), path),
    ensures
        row_at(unlinked(pruned(m, p), path), child_row(node(a), other.last())) == row_at(
            m,
            child_row(node(a), other.last()),
        ),
{
    let before = other.drop_last();
    let parent = crate::flatdir::removal::lemma_hanging(m, path, p);
    lemma_walk_healthy(m, before);
    if doomed(m, p, a) {
        let n = choose|n: nat| reaches_in(m, p, a, n);
        lemma_doomed_extends(m, path, p, before, a, n);
    }
    crate::flatdir::removal::lemma_link_stays(m, p, a, other.last());
    if child_row(node(a), other.last()) == child_row(node(parent), path.last()) {
        lemma_link_key_injective(a, other.last(), parent, path.last());
        law_paths_injective(m, before, path.drop_last());
        assert(other =~= before.push(other.last()));
        assert(path =~= path.drop_last().push(path.last()));
        assert(other.subrange(0, path.len() as int) =~= path);
    }
}

/// Removing a directory: the store stays healthy; the directory and every
/// directory below it is gone, with its content; every other directory exists
/// or not as before, with the content it had. Removal of an existing directory
/// of a healthy store never fails.
pub proof fn law_remove(m: Rows, dir: Seq<Seq<u8>>, p: Seq<u8>, other: Seq<Seq<u8>>)
    requires
        healthy(m),
        valid_path(dir),
        valid_path(other),
        dir.len() > 0,
        lookup(m, dir) == Ok::<Option<Seq<u8>>, Refusal>(Some(p)),
    ensures
        prunable(with_version(m), p),
        healthy(unlinked(pruned(with_version(m), p), anchored(dir))),
        extends(other, dir) ==> {
            &&& lookup(unlinked(pruned(with_version(m), p), anchored(dir)), other) == Ok::<
                Option<Seq<u8>>,
                Refusal,
            >(None)
            &&& dir_content(unlinked(pruned(with_version(m), p), anchored(dir)), other) == Map::<
                Seq<u8>,
                Seq<u8>,
            >::empty()
        },
        !extends(other, dir) ==> {
            &&& lookup(unlinked(pruned(with_version(m), p), anchored(dir)), other) == lookup(
                m,
                other,
            )
            &&& dir_content(unlinked(pruned(with_version(m), p), anchored(dir)), other)
                == dir_content(m, other)
        },
{
    let mv = with_version(m);
    let path = anchored(dir);
    let m1 = unlinked(pruned(mv, p), path);
    lemma_anchored(dir);
    lemma_anchored(other);
    lemma_with_version_keeps(m);
    lemma_walk_same_tree(m, mv, path);
    lemma_walk_same_tree(m, mv, anchored(other));
    lemma_removal_keeps(mv, path, p);
    if extends(other, dir) {
        assert(anchored(other).subrange(0, path.len() as int) =~= path) by {
            assert forall|i: int| 0 <= i < path.len() implies anchored(other)[i] == path[i] by {
                if i > 0 {
                    assert(other.subrange(0, dir.len() as int)[i - 1] == other[i - 1]);
                }
            }
        }
        crate::flatdir::model::lemma_walk_stops(m1, anchored(other), path.len() as int);
    } else {
        assert(!extends(anchored(other), path)) by {
            if extends(anchored(other), path) {
                assert(other.subrange(0, dir.len() as int) =~= dir) by {
                    assert forall|i: int| 0 <= i < dir.len() implies other[i] == dir[i] by {
                        assert(anchored(other).subrange(0, path.len() as int)[i + 1]
                            == anchored(other)[i + 1]);
                        assert(path[i + 1] == dir[i]);
                    }
                }
            }
        }
        lemma_walk_left(mv, path, p, anchored(other));
        law_lookup_succeeds(m, other);
        if lookup(m, other)->Ok_0 is Some {
            let q = (lookup(m, other)->Ok_0)->0;
            if doomed(mv, p, q) {
                let n = choose|n: nat| reaches_in(mv, p, q, n);
                lemma_doomed_extends(mv, path, p, anchored(other), q, n);
            }
            assert forall|k: Seq<u8>| #[trigger] row_at(m1, q + k) == row_at(m, q + k) by {
                lemma_starts_with_concat(q, k);
                lemma_data_head(q + k, q);
                assert(row_at(m1, q + k) == row_at(mv, q + k));
                crate::flatdir::model::lemma_with_version(m);
            }
            lemma_same_content(m, m1, q);
        }
    }
}

/// On a healthy store every child row carries a name, so that listing never
/// fails.
pub proof fn lemma_children_named(m: Rows, p: Seq<u8>)
    requires
        healthy(m),
        is_packed(p),
    ensures
        children_named(m, p),
{
    assert forall|k: Seq<u8>| #[trigger] m.dom().contains(k) && is_child_key(p, k) implies names_child(
        p,
        k,
    ) by {
        lemma_child_key_named(m, p, k);
    }
}

/// Below a directory that does not exist there is none.
pub proof fn law_missing_below(m: Rows, dir: Seq<Seq<u8>>, other: Seq<Seq<u8>>)
    requires
        healthy(m),
        valid_path(other),
        lookup(m, dir) == Ok::<Option<Seq<u8>>, Refusal>(None),
        extends(other, dir),
    ensures
        lookup(m, other) == Ok::<Option<Seq<u8>>, Refusal>(None),
        dir_content(m, other) == Map::<Seq<u8>, Seq<u8>>::empty(),
{
    law_lookup_succeeds(m, other);
    let path = anchored(dir);
    assert(anchored(other).subrange(0, path.len() as int) =~= path) by {
        assert forall|i: int| 0 <= i < path.len() implies anchored(other)[i] == path[i] by {
            if i > 0 {
                assert(other.subrange(0, dir.len() as int)[i - 1] == other[i - 1]);
            }
        }
    }
    crate::flatdir::model::lemma_walk_stops(m, anchored(other), path.len() as int);
}

// ---------------------------------------------------------------------------
// All directories at once
// ---------------------------------------------------------------------------

/// Whether deleting `key` from `dir` takes the rows from `m0` to `m1`.
pub open spec fn deletes(m0: Rows, dir: Seq<Seq<u8>>, key: Seq<u8>, m1: Rows) -> bool {
    match lookup(m0, dir) {
        Ok(Some(p)) => m1 == m0.remove(p + key),
        Ok(None) => m1 == m0,
        Err(_) => false,
    }
}

/// Whether clearing a range of `dir` takes the rows from `m0` to `m1`.
pub open spec fn clears(
    m0: Rows,
    dir: Seq<Seq<u8>>,
    start: Bound<Seq<u8>>,
    end: Bound<Seq<u8>>,
    m1: Rows,
) -> bool {
    match lookup(m0, dir) {
        Ok(Some(p)) => m1 == cleared(m0, p, start, end),
        Ok(None) => m1 == m0,
        Err(_) => false,
    }
}

/// Whether removing `dir` takes the rows from `m0` to `m1`, and whether there
/// was anything to remove.
pub open spec fn removes(m0: Rows, dir: Seq<Seq<u8>>, removed: bool, m1: Rows) -> bool {
    dir.len() > 0 && match lookup(m0, dir) {
        Ok(Some(p)) => {
            &&& removed
            &&& prunable(with_version(m0), p)
            &&& m1 == unlinked(pruned(with_version(m0), p), anchored(dir))
        },
        Ok(None) => !removed && m1 == m0,
        Err(_) => false,
    }
}

/// Why removing `dir` is refused, if it is.
pub open spec fn remove_refused(m: Rows, dir: Seq<Seq<u8>>, f: Refusal) -> bool {
    if dir.len() == 0 {
        f == Refusal::Key(KeyError::RootNotRemovable)
    } else {
        match lookup(m, dir) {
            Ok(Some(p)) => f is Corrupt && !prunable(with_version(m), p),
            Ok(None) => false,
            Err(g) => f == g,
        }
    }
}

/// Whether `names` are what listing `dir` gives: its child segments, and none
/// where there is no such directory.
pub open spec fn lists(m: Rows, dir: Seq<Seq<u8>>, names: Seq<Seq<u8>>) -> bool {
    match lookup(m, dir) {
        Ok(Some(p)) => children_named(m, p) && is_dir_listing(m, p, names),
        Ok(None) => names.len() == 0,
        Err(_) => false,
    }
}

/// Why listing `dir` is refused, if it is.
pub open spec fn listing_refused(m: Rows, dir: Seq<Seq<u8>>, f: Refusal) -> bool {
    match lookup(m, dir) {
        Ok(Some(p)) => f is Corrupt && !children_named(m, p),
        Ok(None) => false,
        Err(g) => f == g,
    }
}

/// Whether a directory exists.
pub open spec fn dir_found(m: Rows, dir: Seq<Seq<u8>>) -> bool {
    lookup(m, dir) matches Ok(Some(_))
}

/// Whether every directory but `dir` has the content it had.
pub open spec fn others_kept(m0: Rows, m1: Rows, dir: Seq<Seq<u8>>) -> bool {
    forall|other: Seq<Seq<u8>>|
        valid_path(other) && other != dir ==> (#[trigger] dir_content(m1, other)) == dir_content(
            m0,
            other,
        )
}

/// Whether the same directories exist.
pub open spec fn same_dirs(m0: Rows, m1: Rows) -> bool {
    forall|other: Seq<Seq<u8>>|
        valid_path(other) ==> (#[trigger] dir_found(m1, other)) == dir_found(m0, other)
}

/// Some valid path other than `path`.
proof fn lemma_other_path(path: Seq<Seq<u8>>) -> (other: Seq<Seq<u8>>)
    requires
        valid_path(path),
    ensures
        valid_path(other),
        other != path,
{
    encode_utf8_valid_utf8(Seq::empty());
    let other = path.push(encode_utf8(Seq::empty()));
    assert forall|i: int| 0 <= i < other.len() implies valid_utf8(#[trigger] other[i]) by {
        if i < path.len() {
            assert(valid_utf8(path[i]));
        }
    }
    assert(other.len() != path.len());
    other
}

/// Setting a key changes the content of its directory alone. The directories that
/// exist afterwards are those that existed before, the directory itself and its
/// ancestors.
pub proof fn law_set_everywhere(
    m0: Rows,
    dir: Seq<Seq<u8>>,
    key: Seq<u8>,
    value: Seq<u8>,
    m1: Rows,
)
    requires
        healthy(m0),
        sets(m0, dir, key, value, m1),
    ensures
        healthy(m1),
        dir_found(m1, dir),
        dir_content(m1, dir) == dir_content(m0, dir).insert(key, value),
        others_kept(m0, m1, dir),
        forall|other: Seq<Seq<u8>>|
            valid_path(other) ==> (#[trigger] dir_found(m1, other) <==> dir_found(m0, other)
                || extends(dir, other)),
{
    let some = lemma_other_path(dir);
    law_set(m0, dir, key, value, m1, some);
    assert forall|other: Seq<Seq<u8>>| valid_path(other) && other != dir implies (
    #[trigger] dir_content(m1, other)) == dir_content(m0, other) by {
        law_set(m0, dir, key, value, m1, other);
    }
    assert(dir.subrange(0, dir.len() as int) =~= dir);
    assert forall|other: Seq<Seq<u8>>| valid_path(other) implies (#[trigger] dir_found(m1, other)
        <==> dir_found(m0, other) || extends(dir, other)) by {
        if other != dir {
            law_set(m0, dir, key, value, m1, other);
        }
    }
}

/// Deleting a key changes the content of its directory alone, and the same
/// directories exist.
pub proof fn law_delete_everywhere(m0: Rows, dir: Seq<Seq<u8>>, key: Seq<u8>, m1: Rows)
    requires
        healthy(m0),
        valid_path(dir),
        deletes(m0, dir, key, m1),
    ensures
        healthy(m1),
        dir_content(m1, dir) == dir_content(m0, dir).remove(key),
        others_kept(m0, m1, dir),
        same_dirs(m0, m1),
{
    if dir_found(m0, dir) {
        let p = (lookup(m0, dir)->Ok_0)->0;
        let some = lemma_other_path(dir);
        law_delete(m0, dir, key, p, some);
        assert forall|other: Seq<Seq<u8>>| valid_path(other) && other != dir implies (
        #[trigger] dir_content(m1, other)) == dir_content(m0, other) by {
            law_delete(m0, dir, key, p, other);
        }
        assert forall|other: Seq<Seq<u8>>| valid_path(other) implies (#[trigger] dir_found(
            m1,
            other,
        )) == dir_found(m0, other) by {
            if other != dir {
                law_delete(m0, dir, key, p, other);
            }
        }
    } else {
        assert(dir_content(m0, dir) =~= dir_content(m0, dir).remove(key));
    }
}

/// Clearing a range changes the content of its directory alone, and the same
/// directories exist.
pub proof fn law_clear_everywhere(
    m0: Rows,
    dir: Seq<Seq<u8>>,
    start: Bound<Seq<u8>>,
    end: Bound<Seq<u8>>,
    m1: Rows,
)
    requires
        healthy(m0),
        valid_path(dir),
        clears(m0, dir, start, end, m1),
    ensures
        healthy(m1),
        dir_content(m1, dir) == without_range(dir_content(m0, dir), start, end),
        others_kept(m0, m1, dir),
        same_dirs(m0, m1),
{
    if dir_found(m0, dir) {
        let p = (lookup(m0, dir)->Ok_0)->0;
        let some = lemma_other_path(dir);
        law_clear_range(m0, dir, start, end, p, some);
        assert forall|other: Seq<Seq<u8>>| valid_path(other) && other != dir implies (
        #[trigger] dir_content(m1, other)) == dir_content(m0, other) by {
            law_clear_range(m0, dir, start, end, p, other);
        }
        assert forall|other: Seq<Seq<u8>>| valid_path(other) implies (#[trigger] dir_found(
            m1,
            other,
        )) == dir_found(m0, other) by {
            if other != dir {
                law_clear_range(m0, dir, start, end, p, other);
            }
        }
    } else {
        assert(dir_content(m0, dir) =~= without_range(dir_content(m0, dir), start, end));
    }
}

/// Removing a directory takes it and everything below it away, and leaves every
/// other directory as it was.
pub proof fn law_remove_everywhere(m0: Rows, dir: Seq<Seq<u8>>, removed: bool, m1: Rows)
    requires
        healthy(m0),
        valid_path(dir),
        removes(m0, dir, removed, m1),
    ensures
        healthy(m1),
        removed == dir_found(m0, dir),
        forall|other: Seq<Seq<u8>>|
            valid_path(other) ==> (#[trigger] dir_found(m1, other)) == (dir_found(m0, other)
                && !extends(other, dir)),
        forall|other: Seq<Seq<u8>>|
            valid_path(other) ==> (#[trigger] dir_content(m1, other)) == if extends(other, dir) {
                Map::empty()
            } else {
                dir_content(m0, other)
            },
{
    if dir_found(m0, dir) {
        let p = (lookup(m0, dir)->Ok_0)->0;
        law_remove(m0, dir, p, dir);
        assert forall|other: Seq<Seq<u8>>| valid_path(other) implies (#[trigger] dir_content(
            m1,
            other,
        )) == if extends(other, dir) {
            Map::empty()
        } else {
            dir_content(m0, other)
        } by {
            law_remove(m0, dir, p, other);
        }
        assert forall|other: Seq<Seq<u8>>| valid_path(other) implies (#[trigger] dir_found(
            m1,
            other,
        )) == (dir_found(m0, other) && !extends(other, dir)) by {
            law_remove(m0, dir, p, other);
        }
    } else {
        law_lookup_succeeds(m0, dir);
        assert forall|other: Seq<Seq<u8>>| valid_path(other) implies (#[trigger] dir_content(
            m1,
            other,
        )) == if extends(other, dir) {
            Map::empty()
        } else {
            dir_content(m0, other)
        } by {
            if extends(other, dir) {
                law_missing_below(m0, dir, other);
            }
        }
        assert forall|other: Seq<Seq<u8>>| valid_path(other) implies (#[trigger] dir_found(
            m1,
            other,
        )) == (dir_found(m0, other) && !extends(other, dir)) by {
            if extends(other, dir) {
                law_missing_below(m0, dir, other);
            }
        }
    }
}

/// On a healthy store the removal of a directory other than the root is never
/// refused.
pub proof fn law_remove_succeeds(m: Rows, dir: Seq<Seq<u8>>, f: Refusal)
    requires
        healthy(m),
        valid_path(dir),
        dir.len() > 0,
    ensures
        !remove_refused(m, dir, f),
{
    law_lookup_succeeds(m, dir);
    if dir_found(m, dir) {
        let p = (lookup(m, dir)->Ok_0)->0;
        law_remove(m, dir, p, dir);
    }
}

/// A listing of a directory of a healthy store names exactly the children that
/// exist.
pub proof fn law_listing_everywhere(
    m: Rows,
    dir: Seq<Seq<u8>>,
    p: Seq<u8>,
    names: Seq<Seq<u8>>,
)
    requires
        healthy(m),
        valid_path(dir),
        lookup(m, dir) == Ok::<Option<Seq<u8>>, Refusal>(Some(p)),
        is_dir_listing(m, p, names),
    ensures
        forall|seg: Seq<u8>|
            valid_utf8(seg) ==> (#[trigger] names.contains(seg) <==> dir_found(m, dir.push(seg))),
{
    assert forall|seg: Seq<u8>| valid_utf8(seg) implies (#[trigger] names.contains(seg)
        <==> dir_found(m, dir.push(seg))) by {
        law_listing(m, dir, p, names, seg);
    }
}

/// On a healthy store listing a directory never fails.
pub proof fn law_listing_succeeds(m: Rows, dir: Seq<Seq<u8>>)
    requires
        healthy(m),
        valid_path(dir),
    ensures
        lookup(m, dir) is Ok,
        lookup(m, dir) matches Ok(Some(p)) ==> children_named(m, p),
{
    law_lookup_succeeds(m, dir);
    if dir_found(m, dir) {
        lemma_children_named(m, (lookup(m, dir)->Ok_0)->0);
    }
}

} // verus!
