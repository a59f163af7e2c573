//! What kinds of rows a flat store holds, and when a store is sound.

use vstd::prelude::*;

use crate::bytes::{le, lemma_lt_asymmetric, lemma_lt_irreflexive, lt, starts_with, tail};
use crate::flatdir::layout::{node, COUNTERS_BASE, LAYER_TAG, NODE_PREFIX, RECENT_BASE, VERSION_KEY};
use crate::flatdir::model::{data_prefix, readable_version};
use crate::flatdir::tuple::{child_tuple, int_element, int_of_element, leading_payload, terminated};
use crate::rawkv::{all_rows, in_key_order, lists_key, Rows};
use crate::stream::KvPair;

verus! {

/// The kinds of rows of the node region.
pub enum RowKind {
    /// Content the layout does not own.
    Foreign,
    /// A malformed row.
    Corrupt,
    /// The version row, a counter row or a recent row.
    Meta,
    /// The layer row of the directory with this prefix.
    Layer(Seq<u8>),
    /// A child row: the prefix of the directory and that of the child.
    Child(Seq<u8>, Seq<u8>),
}

/// Whether some name's tuple fills `s`.
pub open spec fn is_child_tuple(s: Seq<u8>) -> bool {
    exists|name: Seq<char>| s == #[trigger] child_tuple(name)
}

/// The prefix of the node that leads with a payload: the root's own, or a
/// packed integer in its shortest form.
pub open spec fn node_prefix_of(payload: Seq<u8>) -> Option<Seq<u8>> {
    if payload == NODE_PREFIX@ {
        Some(payload)
    } else {
        match int_of_element(payload) {
            Some(v) => Some(int_element(v)),
            None => None,
        }
    }
}

/// The kind of a row of the node region.
pub open spec fn classify(k: Seq<u8>, v: Seq<u8>) -> RowKind {
    if k == VERSION_KEY@ {
        if readable_version(v) {
            RowKind::Meta
        } else {
            RowKind::Foreign
        }
    } else if starts_with(k, COUNTERS_BASE@) {
        if int_of_element(tail(k, COUNTERS_BASE@.len())) is Some && v.len() == 8 {
            RowKind::Meta
        } else {
            RowKind::Corrupt
        }
    } else if starts_with(k, RECENT_BASE@) {
        if int_of_element(tail(k, RECENT_BASE@.len())) is Some && v.len() == 0 {
            RowKind::Meta
        } else {
            RowKind::Corrupt
        }
    } else if !starts_with(k, NODE_PREFIX@) {
        RowKind::Foreign
    } else {
        classify_node_row(k, v)
    }
}

/// The kind of a row whose key begins with the node prefix and that is none of
/// the version, counter and recent rows.
pub open spec fn classify_node_row(k: Seq<u8>, v: Seq<u8>) -> RowKind {
    let rel = tail(k, 1);
    match leading_payload(rel) {
        None => RowKind::Foreign,
        Some(payload) => match node_prefix_of(payload) {
            None => RowKind::Corrupt,
            Some(p) => {
                let row = tail(rel, terminated(payload).len() + 1);
                if !starts_with(k, node(p)) {
                    RowKind::Corrupt
                } else if row == LAYER_TAG@ {
                    if v.len() == 0 {
                        RowKind::Layer(p)
                    } else {
                        RowKind::Corrupt
                    }
                } else if !is_child_tuple(row) {
                    RowKind::Corrupt
                } else {
                    match int_of_element(v) {
                        Some(c) => RowKind::Child(p, int_element(c)),
                        None => RowKind::Corrupt,
                    }
                }
            },
        },
    }
}

/// The first key of the node region.
pub open spec fn region_split() -> Seq<u8> {
    NODE_PREFIX@.push(0)
}

/// Whether `k` lies in the node region or above it.
pub open spec fn in_node_region(k: Seq<u8>) -> bool {
    le(region_split(), k)
}

/// Whether `k` is a row of the node region with a fault.
pub open spec fn faulty(m: Rows, k: Seq<u8>) -> bool {
    &&& m.dom().contains(k)
    &&& in_node_region(k)
    &&& (classify(k, m[k]) is Foreign || classify(k, m[k]) is Corrupt)
}

/// Whether no row of the node region has a fault.
pub open spec fn no_faults(m: Rows) -> bool {
    forall|k: Seq<u8>| !#[trigger] faulty(m, k)
}

/// Whether `p` has a layer row.
pub open spec fn has_layer(m: Rows, p: Seq<u8>) -> bool {
    exists|k: Seq<u8>| #[trigger]
        m.dom().contains(k) && in_node_region(k) && classify(k, m[k]) == RowKind::Layer(p)
}

/// Whether `k` is a child row.
pub open spec fn is_child(m: Rows, k: Seq<u8>) -> bool {
    m.dom().contains(k) && in_node_region(k) && classify(k, m[k]) is Child
}

/// Whether `p` is the child of some directory.
pub open spec fn is_target(m: Rows, p: Seq<u8>) -> bool {
    exists|k: Seq<u8>| #[trigger] is_child(m, k) && classify(k, m[k])->Child_1 == p
}

/// Whether every child has its layer row.
pub open spec fn targets_layered(m: Rows) -> bool {
    forall|p: Seq<u8>| #[trigger] is_target(m, p) ==> has_layer(m, p)
}

/// Whether `p` is a live directory: the child of some directory, with its layer
/// row.
pub open spec fn is_live(m: Rows, p: Seq<u8>) -> bool {
    is_target(m, p) && has_layer(m, p)
}

/// Whether a data key begins with the prefix of a live directory.
pub open spec fn data_ok(m: Rows, k: Seq<u8>) -> bool {
    data_prefix(k) is Some && is_live(m, data_prefix(k)->0)
}

/// Whether every data key begins with the prefix of a live directory.
pub open spec fn data_live(m: Rows) -> bool {
    forall|k: Seq<u8>| #[trigger] m.dom().contains(k) && !in_node_region(k) ==> data_ok(m, k)
}

/// Whether every row is one that the layout has: each node-region row has a
/// kind and well-formed fields, each child has its layer row, each data key
/// resolves to such a live directory.
pub open spec fn sound(m: Rows) -> bool {
    no_faults(m) && targets_layered(m) && data_live(m)
}

/// The keys of the data rows.
pub open spec fn data_keys(m: Rows) -> Set<Seq<u8>> {
    m.dom().filter(|k: Seq<u8>| !in_node_region(k))
}

/// The keys of the child rows.
pub open spec fn child_keys(m: Rows) -> Set<Seq<u8>> {
    m.dom().filter(|k: Seq<u8>| is_child(m, k))
}

/// Whether `k` is the first faulty row of the node region.
pub open spec fn is_first_fault(m: Rows, k: Seq<u8>) -> bool {
    faulty(m, k) && forall|j: Seq<u8>| #[trigger] faulty(m, j) ==> le(k, j)
}

/// Whether `k` is a data key that resolves to no live directory.
pub open spec fn stray(m: Rows, k: Seq<u8>) -> bool {
    m.dom().contains(k) && !in_node_region(k) && !data_ok(m, k)
}

/// Whether `k` is the first data key that resolves to no live directory.
pub open spec fn is_first_stray(m: Rows, k: Seq<u8>) -> bool {
    stray(m, k) && forall|j: Seq<u8>| #[trigger] stray(m, j) ==> le(k, j)
}

/// Whether the first thing wrong with an unsound store is content that the
/// layout does not own. Node rows are looked at first, in key order, then the
/// children's layer rows, then data rows, in key order.
pub open spec fn foreign(m: Rows) -> bool {
    ||| exists|k: Seq<u8>| #[trigger] is_first_fault(m, k) && classify(k, m[k]) is Foreign
    ||| (no_faults(m) && targets_layered(m) && exists|k: Seq<u8>| #[trigger]
        is_first_stray(m, k) && data_prefix(k) is None)
}

// ---------------------------------------------------------------------------
// The first rows of a listing
// ---------------------------------------------------------------------------

/// The kind of a listed row.
pub open spec fn kind_at(list: Seq<KvPair>, j: int) -> RowKind {
    classify(list[j].key@, list[j].value@)
}

/// Whether one of the first `i` rows is the layer row of `p`.
pub open spec fn layer_among(list: Seq<KvPair>, i: int, p: Seq<u8>) -> bool {
    exists|j: int| 0 <= j < i && #[trigger] kind_at(list, j) == RowKind::Layer(p)
}

/// Whether one of the first `i` rows is a child row of the child `p`.
pub open spec fn target_among(list: Seq<KvPair>, i: int, p: Seq<u8>) -> bool {
    exists|j: int|
        0 <= j < i && #[trigger] kind_at(list, j) is Child && kind_at(list, j)->Child_1 == p
}

/// The keys of the child rows among the first `i` rows.
pub open spec fn child_keys_of(list: Seq<KvPair>, i: int) -> Set<Seq<u8>> {
    Set::new(
        |k: Seq<u8>|
            exists|j: int|
                0 <= j < i && #[trigger] kind_at(list, j) is Child && list[j].key@ == k,
    )
}

/// What one more row adds.
pub proof fn lemma_among_next(list: Seq<KvPair>, i: int)
    requires
        0 <= i < list.len(),
        in_key_order(list, true),
        child_keys_of(list, i).finite(),
    ensures
        forall|p: Seq<u8>|
            #[trigger] layer_among(list, i + 1, p) <==> (layer_among(list, i, p) || kind_at(list, i)
                == RowKind::Layer(p)),
        forall|p: Seq<u8>|
            #[trigger] target_among(list, i + 1, p) <==> (target_among(list, i, p) || (kind_at(
                list,
                i,
            ) is Child && kind_at(list, i)->Child_1 == p)),
        child_keys_of(list, i + 1).finite(),
        child_keys_of(list, i + 1).len() == child_keys_of(list, i).len() + if kind_at(
            list,
            i,
        ) is Child {
            1int
        } else {
            0
        },
{
    assert forall|p: Seq<u8>|
        #[trigger] layer_among(list, i + 1, p) <==> (layer_among(list, i, p) || kind_at(list, i)
            == RowKind::Layer(p)) by {
        if layer_among(list, i, p) {
            let j = choose|j: int| 0 <= j < i && #[trigger] kind_at(list, j) == RowKind::Layer(p);
            assert(0 <= j < i + 1 && kind_at(list, j) == RowKind::Layer(p));
        }
    }
    assert forall|p: Seq<u8>|
        #[trigger] target_among(list, i + 1, p) <==> (target_among(list, i, p) || (kind_at(list, i) is Child
            && kind_at(list, i)->Child_1 == p)) by {
        if target_among(list, i, p) {
            let j = choose|j: int|
                0 <= j < i && #[trigger] kind_at(list, j) is Child && kind_at(list, j)->Child_1
                    == p;
            assert(0 <= j < i + 1 && kind_at(list, j) is Child && kind_at(list, j)->Child_1 == p);
        }
    }
    let a = child_keys_of(list, i);
    let b = child_keys_of(list, i + 1);
    let k = list[i].key@;
    assert forall|x: Seq<u8>| a.contains(x) implies b.contains(x) by {
        let j = choose|j: int|
            0 <= j < i && #[trigger] kind_at(list, j) is Child && list[j].key@ == x;
        assert(0 <= j < i + 1 && kind_at(list, j) is Child && list[j].key@ == x);
    }
    if kind_at(list, i) is Child {
        assert(b =~= a.insert(k)) by {
            assert(0 <= i < i + 1 && kind_at(list, i) is Child && list[i].key@ == k);
            assert(b.contains(k));
        }
        if a.contains(k) {
            let j = choose|j: int|
                0 <= j < i && #[trigger] kind_at(list, j) is Child && list[j].key@ == k;
            assert(lt(list[j].key@, list[i].key@));
            lemma_lt_irreflexive(k);
        }
    } else {
        assert(b =~= a);
    }
}

/// The whole listing says what the store says.
pub proof fn lemma_among_all(m: Rows, list: Seq<KvPair>)
    requires
        all_rows(m, list),
        forall|j: int| 0 <= j < list.len() ==> in_node_region((#[trigger] list[j]).key@),
        forall|k: Seq<u8>| #[trigger]
            m.dom().contains(k) && in_node_region(k) ==> lists_key(list, k),
        forall|j: int| 0 <= j < list.len() ==> !faulty(m, (#[trigger] list[j]).key@),
    ensures
        no_faults(m),
        forall|p: Seq<u8>| layer_among(list, list.len() as int, p) <==> has_layer(m, p),
        forall|p: Seq<u8>| target_among(list, list.len() as int, p) <==> is_target(m, p),
        child_keys_of(list, list.len() as int) == child_keys(m),
{
    let n = list.len() as int;
    assert forall|j: int| 0 <= j < n implies m.dom().contains(list[j].key@) && in_node_region(
        list[j].key@,
    ) && #[trigger] kind_at(list, j) == classify(list[j].key@, m[list[j].key@]) by {
        let pair = list[j];
    }
    assert forall|k: Seq<u8>| #[trigger] m.dom().contains(k) && in_node_region(k) implies exists|
        j: int,
    |
        0 <= j < n && #[trigger] kind_at(list, j) == classify(k, m[k]) && list[j].key@ == k by {
        assert(lists_key(list, k));
        let j = choose|j: int| 0 <= j < list.len() && (#[trigger] list[j]).key@ == k;
        assert(kind_at(list, j) == classify(k, m[k]));
    }
    assert forall|k: Seq<u8>| !#[trigger] faulty(m, k) by {
        if faulty(m, k) {
            assert(lists_key(list, k));
            let j = choose|j: int| 0 <= j < list.len() && (#[trigger] list[j]).key@ == k;
            assert(!faulty(m, list[j].key@));
        }
    }
    assert forall|p: Seq<u8>| layer_among(list, n, p) <==> has_layer(m, p) by {
        if layer_among(list, n, p) {
            let j = choose|j: int| 0 <= j < n && #[trigger] kind_at(list, j) == RowKind::Layer(p);
            assert(m.dom().contains(list[j].key@));
        }
        if has_layer(m, p) {
            let k = choose|k: Seq<u8>| #[trigger]
                m.dom().contains(k) && in_node_region(k) && classify(k, m[k]) == RowKind::Layer(
                    p,
                );
            let j = choose|j: int|
                0 <= j < n && #[trigger] kind_at(list, j) == classify(k, m[k]) && list[j].key@
                    == k;
            assert(kind_at(list, j) == RowKind::Layer(p));
        }
    }
    assert forall|p: Seq<u8>| target_among(list, n, p) <==> is_target(m, p) by {
        if target_among(list, n, p) {
            let j = choose|j: int|
                0 <= j < n && #[trigger] kind_at(list, j) is Child && kind_at(list, j)->Child_1
                    == p;
            assert(is_child(m, list[j].key@));
        }
        if is_target(m, p) {
            let k = choose|k: Seq<u8>| #[trigger]
                is_child(m, k) && classify(k, m[k])->Child_1 == p;
            assert(m.dom().contains(k));
            let j = choose|j: int|
                0 <= j < n && #[trigger] kind_at(list, j) == classify(k, m[k]) && list[j].key@
                    == k;
            assert(kind_at(list, j) is Child);
        }
    }
    assert(child_keys_of(list, n) =~= child_keys(m)) by {
        assert forall|k: Seq<u8>| child_keys_of(list, n).contains(k) <==> child_keys(m).contains(
            k,
        ) by {
            if child_keys_of(list, n).contains(k) {
                let j = choose|j: int|
                    0 <= j < n && #[trigger] kind_at(list, j) is Child && list[j].key@ == k;
                assert(is_child(m, k));
            }
            if child_keys(m).contains(k) {
                assert(is_child(m, k));
                let j = choose|j: int|
                    0 <= j < n && #[trigger] kind_at(list, j) == classify(k, m[k]) && list[j].key@
                        == k;
                assert(kind_at(list, j) is Child);
            }
        }
    }
}

/// The first faulty row of a listing is the first faulty row of the store.
pub proof fn lemma_first_fault(m: Rows, list: Seq<KvPair>, i: int)
    requires
        0 <= i < list.len(),
        all_rows(m, list),
        in_key_order(list, true),
        forall|k: Seq<u8>| #[trigger]
            m.dom().contains(k) && in_node_region(k) ==> lists_key(list, k),
        forall|j: int| 0 <= j < i ==> !faulty(m, (#[trigger] list[j]).key@),
        faulty(m, list[i].key@),
    ensures
        !sound(m),
        foreign(m) <==> kind_at(list, i) is Foreign,
{
    let k = list[i].key@;
    assert(!no_faults(m));
    assert forall|j: Seq<u8>| #[trigger] faulty(m, j) implies le(k, j) by {
        assert(lists_key(list, j));
        let n = choose|n: int| 0 <= n < list.len() && (#[trigger] list[n]).key@ == j;
        if n > i {
            assert(lt(list[i].key@, list[n].key@));
        }
    }
    assert(is_first_fault(m, k));
    assert forall|j: Seq<u8>| #[trigger] is_first_fault(m, j) implies j == k by {
        assert(faulty(m, j) && faulty(m, k));
        if j != k {
            lemma_lt_asymmetric(j, k);
        }
    }
}

/// A store without faulty rows has no first faulty row.
pub proof fn lemma_no_first_fault(m: Rows)
    requires
        no_faults(m),
    ensures
        forall|k: Seq<u8>| !#[trigger] is_first_fault(m, k),
{
    assert forall|k: Seq<u8>| !#[trigger] is_first_fault(m, k) by {
        assert(!faulty(m, k));
    }
}

/// The first stray data row of a listing is the first one of the store.
pub proof fn lemma_first_stray(m: Rows, list: Seq<KvPair>, i: int)
    requires
        no_faults(m),
        targets_layered(m),
        0 <= i < list.len(),
        all_rows(m, list),
        in_key_order(list, true),
        forall|k: Seq<u8>| #[trigger]
            m.dom().contains(k) && !in_node_region(k) ==> lists_key(list, k),
        forall|j: int| 0 <= j < i ==> data_ok(m, (#[trigger] list[j]).key@),
        stray(m, list[i].key@),
    ensures
        !sound(m),
        foreign(m) <==> data_prefix(list[i].key@) is None,
{
    let k = list[i].key@;
    lemma_no_first_fault(m);
    assert forall|j: Seq<u8>| #[trigger] stray(m, j) implies le(k, j) by {
        assert(lists_key(list, j));
        let n = choose|n: int| 0 <= n < list.len() && (#[trigger] list[n]).key@ == j;
        if n < i {
            assert(data_ok(m, list[n].key@));
        }
        if n > i {
            assert(lt(list[i].key@, list[n].key@));
        }
    }
    assert(is_first_stray(m, k));
    assert forall|j: Seq<u8>| #[trigger] is_first_stray(m, j) implies j == k by {
        assert(stray(m, j) && stray(m, k));
        if j != k {
            lemma_lt_asymmetric(j, k);
        }
    }
}

} // verus!
