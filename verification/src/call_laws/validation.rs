//! The whole-store walk: which stores it accepts, and what it says of the others.

use vstd::prelude::*;
use vstd::utf8::{encode_utf8, encode_utf8_valid_utf8};

use crate::bytes::{
    le, lemma_lt_asymmetric, lemma_order, lemma_starts_with_concat, lemma_starts_with_split, lt,
    starts_with, tail,
};
use crate::call_laws::directories::{
    layer_there, lemma_child_form, lemma_child_owner, lemma_layer_form, lemma_layer_owner,
    lemma_layer_there,
};
use crate::flatdir::error::FlatError;
use crate::flatdir::health::{
    is_node_prefix, is_packed, lemma_key_shapes, lemma_node_head, lemma_packed, lemma_row_payload,
};
use crate::flatdir::layout::{
    child_row, layer_row, lemma_layout_constants, node, COUNTERS_BASE, LAYER_TAG, NODE_PREFIX,
    RECENT_BASE, VERSION_KEY,
};
use crate::flatdir::model::{data_prefix, is_data_prefix, lemma_data_prefix_unique};
use crate::flatdir::ops::validate;
use crate::flatdir::rows::{
    classify, data_live, data_ok, faulty, has_layer, in_node_region, is_child, is_first_fault,
    is_first_stray, is_target, no_faults, region_split, stray, targets_layered, RowKind,
};
use crate::flatdir::soundness::{lemma_layer_kind, lemma_link_kind};
use crate::flatdir::tuple::{
    element, int_element, int_of_element, law_element_round_trip, law_integer_round_trip,
    leading_payload, lemma_element_range, lemma_leading_payload_sound, not_escape,
};
use crate::rawkv::{RawKv, Rows};

verus! {

/// Whether twelve bytes or more state a version no newer than this layout's, in
/// little-endian numbers.
pub open spec fn states_readable(v: Seq<u8>) -> bool {
    v.len() >= 12 && v[0] <= 1 && v[1] == 0 && v[2] == 0 && v[3] == 0 && v[4] == 0 && v[5] == 0
        && v[6] == 0 && v[7] == 0
}

/// Whether a row of the node region is by itself one of the layout: the version row, a row
/// of the allocator, a layer row or a child row, with a value that fits.
pub open spec fn fits_alone(k: Seq<u8>, v: Seq<u8>) -> bool {
    ||| k == VERSION_KEY@ && states_readable(v)
    ||| exists|t: Seq<u8>|
        k == #[trigger] (COUNTERS_BASE@ + t) && int_of_element(t) is Some && v.len() == 8
    ||| exists|t: Seq<u8>|
        k == #[trigger] (RECENT_BASE@ + t) && int_of_element(t) is Some && v.len() == 0
    ||| exists|p: Seq<u8>|
        is_node_prefix(p) && k == #[trigger] layer_row(node(p)) && v.len() == 0
    ||| exists|p: Seq<u8>, name: Seq<char>|
        is_node_prefix(p) && k == #[trigger] child_row(node(p), encode_utf8(name))
            && int_of_element(v) is Some
}

/// Whether a key goes on with a packed byte or text string behind its first byte.
pub open spec fn leads_with_string(k: Seq<u8>) -> bool {
    exists|code: u8, p: Seq<u8>, t: Seq<u8>|
        (code == 0x01 || code == 0x02) && not_escape(t) && k == #[trigger] (seq![0xFEu8] + element(
            code,
            p,
        ) + t)
}

/// Whether every child row leads to a directory with its layer row.
pub open spec fn children_layered(m: Rows) -> bool {
    forall|p: Seq<u8>, name: Seq<char>|
        is_node_prefix(p) && m.dom().contains(#[trigger] child_row(node(p), encode_utf8(name)))
            && int_of_element(m[child_row(node(p), encode_utf8(name))]) is Some ==> layer_there(
            m,
            int_element(int_of_element(m[child_row(node(p), encode_utf8(name))])->0),
        )
}

/// Whether a data key begins with the packed prefix of a directory that some child row
/// leads to and that has its layer row.
pub open spec fn is_homed(m: Rows, k: Seq<u8>) -> bool {
    exists|p: Seq<u8>, t: Seq<u8>|
        k == #[trigger] (p + t) && is_packed(p) && layer_there(m, p) && child_leads(m, p)
}

/// Whether some child row leads to the directory with a packed prefix.
pub open spec fn child_leads(m: Rows, p: Seq<u8>) -> bool {
    exists|q: Seq<u8>, name: Seq<char>|
        is_node_prefix(q) && m.dom().contains(#[trigger] child_row(node(q), encode_utf8(name)))
            && int_of_element(m[child_row(node(q), encode_utf8(name))]) is Some && int_of_element(
            m[child_row(node(q), encode_utf8(name))],
        ) == int_of_element(p)
}

/// Whether every row of the node region fits.
pub open spec fn all_fit(m: Rows) -> bool {
    forall|k: Seq<u8>| #[trigger]
        m.dom().contains(k) && !lt(k, seq![0xFEu8, 0x00u8]) ==> fits_alone(k, m[k])
}

/// The two ways to say that a key lies in the node region agree.
proof fn lemma_region(k: Seq<u8>)
    ensures
        in_node_region(k) <==> !lt(k, seq![0xFEu8, 0x00u8]),
        in_node_region(k) ==> k.len() > 0 && k[0] >= 0xFE,
{
    lemma_layout_constants();
    assert(region_split() =~= seq![0xFEu8, 0x00u8]);
    lemma_order(region_split(), k, region_split());
    lemma_order(k, region_split(), k);
    if in_node_region(k) && k != region_split() {
        let i = choose|i: int| crate::bytes::parts_at(region_split(), k, i);
        if i > 0 {
            assert(k[0] == region_split()[0]);
        }
    }
}

/// A version is readable in both ways of saying so.
proof fn lemma_readable(v: Seq<u8>)
    ensures
        crate::flatdir::model::readable_version(v) <==> states_readable(v),
{
    if v.len() >= 12 {
        let a = v.subrange(0, 4);
        let b = v.subrange(4, 8);
        lemma_four(a);
        lemma_four(b);
    }
}

/// Four bytes, the least significant first.
proof fn lemma_four(s: Seq<u8>)
    requires
        s.len() == 4,
    ensures
        crate::flatdir::layout::le_value(s) == s[0] + 0x100 * s[1] + 0x1_0000 * s[2] + 0x100_0000
            * s[3],
{
    let a = tail(s, 1);
    let b = tail(a, 1);
    let c = tail(b, 1);
    assert(crate::flatdir::layout::le_value(tail(c, 1)) == 0);
    assert(crate::flatdir::layout::le_value(c) == s[3]);
    assert(crate::flatdir::layout::le_value(b) == s[2] + 256 * crate::flatdir::layout::le_value(c));
    assert(crate::flatdir::layout::le_value(a) == s[1] + 256 * crate::flatdir::layout::le_value(b));
}

/// A row of the node region that fits has a kind, and one that does not has none.
proof fn lemma_fits(k: Seq<u8>, v: Seq<u8>)
    requires
        in_node_region(k),
    ensures
        fits_alone(k, v) <==> !(classify(k, v) is Foreign || classify(k, v) is Corrupt),
{
    lemma_layout_constants();
    lemma_readable(v);
    if k == VERSION_KEY@ {
        lemma_version_alone(v);
    } else if starts_with(k, COUNTERS_BASE@) {
        let t = tail(k, COUNTERS_BASE@.len());
        lemma_starts_with_split(k, COUNTERS_BASE@);
        lemma_counters_alone(k, v);
    } else if starts_with(k, RECENT_BASE@) {
        let t = tail(k, RECENT_BASE@.len());
        lemma_starts_with_split(k, RECENT_BASE@);
        lemma_recent_alone(k, v);
    } else {
        lemma_not_allocator(k);
        match classify(k, v) {
            RowKind::Layer(p) => {
                lemma_layer_form(k, v, p);
                lemma_layer_owner(k, v, p);
            },
            RowKind::Child(p, c) => {
                let name = lemma_child_form(k, v, p, c);
                lemma_child_owner(k, v, p);
            },
            _ => {},
        }
        if exists|p: Seq<u8>|
            is_node_prefix(p) && k == #[trigger] layer_row(node(p)) && v.len() == 0 {
            let p = choose|p: Seq<u8>|
                is_node_prefix(p) && k == #[trigger] layer_row(node(p)) && v.len() == 0;
            lemma_layer_alone(p, v);
        }
        if exists|p: Seq<u8>, name: Seq<char>|
            is_node_prefix(p) && k == #[trigger] child_row(node(p), encode_utf8(name))
                && int_of_element(v) is Some {
            let (p, name) = choose|p: Seq<u8>, name: Seq<char>|
                is_node_prefix(p) && k == #[trigger] child_row(node(p), encode_utf8(name))
                    && int_of_element(v) is Some;
            lemma_child_alone(p, name, v);
        }
    }
}

/// The layer row of a node has its kind.
proof fn lemma_layer_alone(p: Seq<u8>, v: Seq<u8>)
    requires
        is_node_prefix(p),
        v.len() == 0,
    ensures
        classify(layer_row(node(p)), v) == RowKind::Layer(p),
        in_node_region(layer_row(node(p))),
{
    if is_packed(p) {
        lemma_layer_kind(p, v);
    } else {
        let k = layer_row(node(p));
        lemma_layout_constants();
        lemma_key_shapes(p, Seq::empty(), 0);
        lemma_node_head(p);
        lemma_starts_with_concat(node(p), LAYER_TAG@);
        lemma_row_payload(p, k);
        assert(k =~= seq![0xFEu8, 0x01, 0xFE, 0x00, 0x01, 0x6C, 0x61, 0x79, 0x65, 0x72, 0x00]);
        assert(k[5] == 0x6C);
        assert(COUNTERS_BASE@[5] == 0x68);
        assert(RECENT_BASE@[5] == 0x68);
        if starts_with(k, COUNTERS_BASE@) {
            assert(k.subrange(0, 10)[5] == k[5]);
        }
        if starts_with(k, RECENT_BASE@) {
            assert(k.subrange(0, 11)[5] == k[5]);
        }
        assert(k.subrange(0, 1) =~= NODE_PREFIX@);
        assert(region_split() =~= seq![0xFEu8, 0x00u8]);
        assert(crate::bytes::parts_at(region_split(), k, 1));
    }
}

/// The child row of a name has its kind.
proof fn lemma_child_alone(p: Seq<u8>, name: Seq<char>, v: Seq<u8>)
    requires
        is_node_prefix(p),
        int_of_element(v) is Some,
    ensures
        classify(child_row(node(p), encode_utf8(name)), v) == RowKind::Child(
            p,
            int_element(int_of_element(v)->0),
        ),
        in_node_region(child_row(node(p), encode_utf8(name))),
{
    encode_utf8_valid_utf8(name);
    law_integer_round_trip(0);
    assert(is_packed(int_element(0)));
    lemma_link_kind(p, encode_utf8(name), int_element(0));
}

/// A key that is none of the allocator's does not stand behind its bases.
proof fn lemma_not_allocator(k: Seq<u8>)
    requires
        !starts_with(k, COUNTERS_BASE@),
        !starts_with(k, RECENT_BASE@),
    ensures
        forall|t: Seq<u8>| k != #[trigger] (COUNTERS_BASE@ + t),
        forall|t: Seq<u8>| k != #[trigger] (RECENT_BASE@ + t),
{
    assert forall|t: Seq<u8>| k != #[trigger] (COUNTERS_BASE@ + t) by {
        lemma_starts_with_concat(COUNTERS_BASE@, t);
    }
    assert forall|t: Seq<u8>| k != #[trigger] (RECENT_BASE@ + t) by {
        lemma_starts_with_concat(RECENT_BASE@, t);
    }
}

/// The version row is no other row.
proof fn lemma_version_alone(v: Seq<u8>)
    ensures
        fits_alone(VERSION_KEY@, v) <==> states_readable(v),
{
    let k = VERSION_KEY@;
    lemma_layout_constants();
    assert(k[5] == 0x76);
    assert(COUNTERS_BASE@[5] == 0x68);
    assert(RECENT_BASE@[5] == 0x68);
    assert forall|t: Seq<u8>| k != #[trigger] (COUNTERS_BASE@ + t) by {
        assert((COUNTERS_BASE@ + t)[5] == 0x68);
    }
    assert forall|t: Seq<u8>| k != #[trigger] (RECENT_BASE@ + t) by {
        assert((RECENT_BASE@ + t)[5] == 0x68);
    }
    lemma_no_tree_row(k, v);
}

/// A row that stands behind the counters' base is no other row.
proof fn lemma_counters_alone(k: Seq<u8>, v: Seq<u8>)
    requires
        starts_with(k, COUNTERS_BASE@),
        k != VERSION_KEY@,
    ensures
        fits_alone(k, v) <==> int_of_element(tail(k, COUNTERS_BASE@.len())) is Some && v.len() == 8,
{
    lemma_layout_constants();
    lemma_starts_with_split(k, COUNTERS_BASE@);
    assert(k.subrange(0, 10)[9] == k[9]);
    assert(COUNTERS_BASE@[9] == 0x14);
    assert(RECENT_BASE@[9] == 0x15);
    assert forall|t: Seq<u8>| k != #[trigger] (RECENT_BASE@ + t) by {
        assert((RECENT_BASE@ + t)[9] == 0x15);
    }
    assert forall|t: Seq<u8>| k == #[trigger] (COUNTERS_BASE@ + t) implies t == tail(
        k,
        COUNTERS_BASE@.len(),
    ) by {
        lemma_starts_with_concat(COUNTERS_BASE@, t);
    }
    lemma_no_tree_row(k, v);
}

/// A row that stands behind the base of the claims is no other row.
proof fn lemma_recent_alone(k: Seq<u8>, v: Seq<u8>)
    requires
        starts_with(k, RECENT_BASE@),
        !starts_with(k, COUNTERS_BASE@),
        k != VERSION_KEY@,
    ensures
        fits_alone(k, v) <==> int_of_element(tail(k, RECENT_BASE@.len())) is Some && v.len() == 0,
{
    lemma_layout_constants();
    lemma_starts_with_split(k, RECENT_BASE@);
    assert forall|t: Seq<u8>| k != #[trigger] (COUNTERS_BASE@ + t) by {
        lemma_starts_with_concat(COUNTERS_BASE@, t);
    }
    assert forall|t: Seq<u8>| k == #[trigger] (RECENT_BASE@ + t) implies t == tail(
        k,
        RECENT_BASE@.len(),
    ) by {
        lemma_starts_with_concat(RECENT_BASE@, t);
    }
    lemma_no_tree_row(k, v);
}

/// Neither the version row nor a row of the allocator is a layer row or a child row.
proof fn lemma_no_tree_row(k: Seq<u8>, v: Seq<u8>)
    requires
        k == VERSION_KEY@ || starts_with(k, COUNTERS_BASE@) || starts_with(k, RECENT_BASE@),
    ensures
        forall|p: Seq<u8>| is_node_prefix(p) ==> k != #[trigger] layer_row(node(p)),
        forall|p: Seq<u8>, name: Seq<char>|
            is_node_prefix(p) ==> k != #[trigger] child_row(node(p), encode_utf8(name)),
{
    assert forall|p: Seq<u8>| is_node_prefix(p) implies k != #[trigger] layer_row(node(p)) by {
        lemma_layer_alone(p, Seq::empty());
    }
    assert forall|p: Seq<u8>, name: Seq<char>| is_node_prefix(p) implies k != #[trigger] child_row(
        node(p),
        encode_utf8(name),
    ) by {
        law_integer_round_trip(0);
        lemma_child_alone(p, name, int_element(0));
    }
}

/// A row of the node region that does not fit is foreign where it is a version row, or
/// does not lead with a node.
proof fn lemma_foreign(k: Seq<u8>, v: Seq<u8>)
    requires
        in_node_region(k),
        !fits_alone(k, v),
    ensures
        classify(k, v) is Foreign <==> k == VERSION_KEY@ || !leads_with_string(k),
{
    lemma_fits(k, v);
    lemma_layout_constants();
    lemma_region(k);
    let rel = tail(k, 1);
    if k[0] == 0xFE {
        assert(k.subrange(0, 1) =~= NODE_PREFIX@);
        if leading_payload(rel) is Some {
            lemma_leading_payload_sound(rel);
            let p = leading_payload(rel)->0;
            let e = element(rel[0], p);
            lemma_starts_with_split(rel, e);
            assert(k =~= seq![0xFEu8] + e + tail(rel, e.len()));
        }
        if leads_with_string(k) {
            let (code, p, t) = choose|code: u8, p: Seq<u8>, t: Seq<u8>|
                (code == 0x01 || code == 0x02) && not_escape(t) && k == #[trigger] (seq![0xFEu8]
                    + element(code, p) + t);
            assert(rel =~= element(code, p) + t);
            law_element_round_trip(code, p, t);
        }
    } else {
        if starts_with(k, NODE_PREFIX@) {
            assert(k.subrange(0, 1)[0] == k[0]);
        }
        if starts_with(k, COUNTERS_BASE@) {
            assert(k.subrange(0, 10)[0] == k[0]);
        }
        if starts_with(k, RECENT_BASE@) {
            assert(k.subrange(0, 11)[0] == k[0]);
        }
    }
    if starts_with(k, COUNTERS_BASE@) || starts_with(k, RECENT_BASE@) {
        lemma_allocator_leads(k);
    }
}

/// The keys of the allocator lead with the root node.
proof fn lemma_allocator_leads(k: Seq<u8>)
    requires
        starts_with(k, COUNTERS_BASE@) || starts_with(k, RECENT_BASE@),
    ensures
        leads_with_string(k),
{
    lemma_layout_constants();
    let base = if starts_with(k, COUNTERS_BASE@) {
        COUNTERS_BASE@
    } else {
        RECENT_BASE@
    };
    lemma_starts_with_split(k, base);
    let t = base.subrange(4, base.len() as int) + tail(k, base.len());
    assert(t[0] == 0x01);
    assert(node(NODE_PREFIX@) =~= seq![0xFEu8] + element(0x01, seq![0xFEu8]));
    assert(k =~= seq![0xFEu8] + element(0x01, seq![0xFEu8]) + t) by {
        assert(crate::flatdir::layout::ROOT_NODE@ =~= seq![0xFEu8, 0x01, 0xFE, 0x00]);
    }
}

/// A store without faults is one whose node rows all fit.
proof fn lemma_all_fit(m: Rows)
    ensures
        no_faults(m) <==> all_fit(m),
{
    assert forall|k: Seq<u8>| m.dom().contains(k) && in_node_region(k) implies (faulty(m, k)
        <==> !#[trigger] fits_alone(k, m[k])) by {
        lemma_fits(k, m[k]);
    }
    if no_faults(m) {
        assert forall|k: Seq<u8>| #[trigger]
            m.dom().contains(k) && !lt(k, seq![0xFEu8, 0x00u8]) implies fits_alone(k, m[k]) by {
            lemma_region(k);
            assert(!faulty(m, k));
        }
    }
    if all_fit(m) {
        assert forall|k: Seq<u8>| !#[trigger] faulty(m, k) by {
            lemma_region(k);
            if faulty(m, k) {
                assert(fits_alone(k, m[k]));
            }
        }
    }
}

/// A directory has its layer row in both ways of saying so.
proof fn lemma_layered(m: Rows, p: Seq<u8>)
    requires
        is_node_prefix(p),
    ensures
        has_layer(m, p) <==> layer_there(m, p),
{
    if has_layer(m, p) {
        lemma_layer_there(m, p);
    }
    if layer_there(m, p) {
        let k = layer_row(node(p));
        lemma_layer_alone(p, m[k]);
        assert(m.dom().contains(k) && in_node_region(k));
    }
}

/// The children of a store whose rows fit have their layer rows in both ways of saying so.
proof fn lemma_children(m: Rows)
    requires
        no_faults(m),
    ensures
        targets_layered(m) <==> children_layered(m),
{
    if targets_layered(m) {
        assert forall|p: Seq<u8>, name: Seq<char>|
            is_node_prefix(p) && m.dom().contains(#[trigger] child_row(node(p), encode_utf8(name)))
                && int_of_element(m[child_row(node(p), encode_utf8(name))]) is Some implies layer_there(
            m,
            int_element(int_of_element(m[child_row(node(p), encode_utf8(name))])->0),
        ) by {
            let k = child_row(node(p), encode_utf8(name));
            lemma_child_alone(p, name, m[k]);
            assert(is_child(m, k));
            assert(is_target(m, int_element(int_of_element(m[k])->0)));
            lemma_layer_there(m, int_element(int_of_element(m[k])->0));
        }
    }
    if children_layered(m) {
        assert forall|p: Seq<u8>| #[trigger] is_target(m, p) implies has_layer(m, p) by {
            let k = choose|k: Seq<u8>| #[trigger] is_child(m, k) && classify(k, m[k])->Child_1 == p;
            let q = classify(k, m[k])->Child_0;
            let name = lemma_child_form(k, m[k], q, p);
            lemma_child_owner(k, m[k], q);
            assert(m.dom().contains(child_row(node(q), encode_utf8(name))));
            lemma_element_range(m[k]);
            assert(is_packed(p));
            lemma_layered(m, p);
        }
    }
}

/// A data key is at home in both ways of saying so.
proof fn lemma_homed(m: Rows, k: Seq<u8>)
    ensures
        data_ok(m, k) <==> is_homed(m, k),
        data_prefix(k) is None <==> forall|p: Seq<u8>, t: Seq<u8>|
            k == #[trigger] (p + t) ==> int_of_element(p) is None,
{
    if data_ok(m, k) {
        let p = data_prefix(k)->0;
        assert(is_data_prefix(k, p));
        lemma_starts_with_split(k, p);
        let link = choose|j: Seq<u8>| #[trigger] is_child(m, j) && classify(j, m[j])->Child_1 == p;
        let q = classify(link, m[link])->Child_0;
        let name = lemma_child_form(link, m[link], q, p);
        lemma_child_owner(link, m[link], q);
        lemma_element_range(m[link]);
        law_integer_round_trip(int_of_element(m[link])->0);
        assert(m.dom().contains(child_row(node(q), encode_utf8(name))));
        assert(is_packed(p));
        assert(child_leads(m, p));
        lemma_layered(m, p);
        assert(k == p + tail(k, p.len()));
    }
    if is_homed(m, k) {
        let (p, t) = choose|p: Seq<u8>, t: Seq<u8>|
            k == #[trigger] (p + t) && is_packed(p) && layer_there(m, p) && child_leads(m, p);
        lemma_packed(p);
        lemma_starts_with_concat(p, t);
        assert(is_data_prefix(k, p));
        lemma_data_prefix_unique(k, p);
        let (q, name) = choose|q: Seq<u8>, name: Seq<char>|
            is_node_prefix(q) && m.dom().contains(#[trigger] child_row(node(q), encode_utf8(name)))
                && int_of_element(m[child_row(node(q), encode_utf8(name))]) is Some
                && int_of_element(m[child_row(node(q), encode_utf8(name))]) == int_of_element(p);
        let j = child_row(node(q), encode_utf8(name));
        lemma_child_alone(q, name, m[j]);
        assert(is_child(m, j));
        assert(is_target(m, p));
        lemma_layered(m, p);
    }
    if data_prefix(k) is None {
        assert forall|p: Seq<u8>, t: Seq<u8>| k == #[trigger] (p + t) implies int_of_element(
            p,
        ) is None by {
            lemma_starts_with_concat(p, t);
            if int_of_element(p) is Some {
                assert(is_data_prefix(k, p));
            }
        }
    } else {
        let p = data_prefix(k)->0;
        assert(is_data_prefix(k, p));
        lemma_starts_with_split(k, p);
        assert(k == p + tail(k, p.len()));
    }
}

/// A store passes exactly if every row of the node region fits, every child has its layer
/// row, and every data row is at home.
pub proof fn law_validate_exact<R: RawKv>(
    raw: R,
    r: Result<(usize, usize), FlatError<R::Error>>,
)
    requires
        raw.wf(),
        raw.terms().readable,
        call_ensures(validate::<R>, (&raw,), r),
    ensures
        r is Ok <==> all_fit(raw.rows()) && children_layered(raw.rows()) && forall|k: Seq<u8>|
            #[trigger] raw.rows().dom().contains(k) && lt(k, seq![0xFEu8, 0x00u8]) ==> is_homed(
                raw.rows(),
                k,
            ),
        r is Err ==> r->Err_0 is Foreign || r->Err_0 is Corrupt,
{
    let m = raw.rows();
    lemma_all_fit(m);
    if no_faults(m) {
        lemma_children(m);
        assert forall|k: Seq<u8>| data_ok(m, k) <==> is_homed(m, k) by {
            lemma_homed(m, k);
        }
        assert forall|k: Seq<u8>| in_node_region(k) <==> !lt(k, seq![0xFEu8, 0x00u8]) by {
            lemma_region(k);
        }
        if data_live(m) {
            assert forall|k: Seq<u8>| #[trigger]
                m.dom().contains(k) && lt(k, seq![0xFEu8, 0x00u8]) implies is_homed(m, k) by {
                assert(data_ok(m, k));
            }
        }
    }
}

/// The first row of the node region that does not fit decides: the store is foreign where
/// that is the version row, or does not lead with a node, and otherwise malformed.
pub proof fn law_validate_first_fault<R: RawKv>(
    raw: R,
    r: Result<(usize, usize), FlatError<R::Error>>,
    k: Seq<u8>,
)
    requires
        raw.wf(),
        raw.terms().readable,
        call_ensures(validate::<R>, (&raw,), r),
        raw.rows().dom().contains(k),
        !lt(k, seq![0xFEu8, 0x00u8]),
        !fits_alone(k, raw.rows()[k]),
        forall|j: Seq<u8>| #[trigger]
            raw.rows().dom().contains(j) && !lt(j, seq![0xFEu8, 0x00u8]) && lt(j, k) ==> fits_alone(
                j,
                raw.rows()[j],
            ),
    ensures
        r is Err,
        r->Err_0 is Foreign <==> k == VERSION_KEY@ || !leads_with_string(k),
        r->Err_0 is Corrupt <==> !(k == VERSION_KEY@ || !leads_with_string(k)),
{
    let m = raw.rows();
    lemma_region(k);
    lemma_fits(k, m[k]);
    lemma_foreign(k, m[k]);
    assert(faulty(m, k));
    assert forall|j: Seq<u8>| #[trigger] faulty(m, j) implies le(k, j) by {
        lemma_region(j);
        lemma_fits(j, m[j]);
        lemma_order(k, j, k);
    }
    assert(is_first_fault(m, k));
    assert forall|j: Seq<u8>| #[trigger] is_first_fault(m, j) implies j == k by {
        if j != k {
            lemma_lt_asymmetric(j, k);
        }
    }
}

/// Where every row of the node region fits but some child has no layer row, the store is
/// malformed.
pub proof fn law_validate_unlayered<R: RawKv>(
    raw: R,
    r: Result<(usize, usize), FlatError<R::Error>>,
)
    requires
        raw.wf(),
        raw.terms().readable,
        call_ensures(validate::<R>, (&raw,), r),
        all_fit(raw.rows()),
        !children_layered(raw.rows()),
    ensures
        r matches Err(FlatError::Corrupt),
{
    let m = raw.rows();
    lemma_all_fit(m);
    lemma_children(m);
}

/// Where only data rows are wrong, the first that is not at home decides: the store is
/// foreign where no packed number begins the key, and otherwise malformed.
pub proof fn law_validate_first_stray<R: RawKv>(
    raw: R,
    r: Result<(usize, usize), FlatError<R::Error>>,
    k: Seq<u8>,
)
    requires
        raw.wf(),
        raw.terms().readable,
        call_ensures(validate::<R>, (&raw,), r),
        all_fit(raw.rows()),
        children_layered(raw.rows()),
        raw.rows().dom().contains(k),
        lt(k, seq![0xFEu8, 0x00u8]),
        !is_homed(raw.rows(), k),
        forall|j: Seq<u8>| #[trigger]
            raw.rows().dom().contains(j) && lt(j, k) ==> is_homed(raw.rows(), j),
    ensures
        r is Err,
        r->Err_0 is Foreign <==> forall|p: Seq<u8>, t: Seq<u8>|
            k == #[trigger] (p + t) ==> int_of_element(p) is None,
        r->Err_0 is Corrupt <==> exists|p: Seq<u8>, t: Seq<u8>|
            k == #[trigger] (p + t) && int_of_element(p) is Some,
{
    let m = raw.rows();
    lemma_all_fit(m);
    lemma_children(m);
    lemma_region(k);
    lemma_homed(m, k);
    assert(stray(m, k));
    assert forall|j: Seq<u8>| #[trigger] stray(m, j) implies le(k, j) by {
        lemma_homed(m, j);
        lemma_order(k, j, k);
    }
    assert(is_first_stray(m, k));
    assert forall|j: Seq<u8>| #[trigger] is_first_stray(m, j) implies j == k by {
        if j != k {
            lemma_lt_asymmetric(j, k);
        }
    }
}

} // verus!
