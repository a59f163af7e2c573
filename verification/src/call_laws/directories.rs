//! The flat directory layout: versions, paths, allocation, and the whole-store walk.


use vstd::prelude::*;
use vstd::utf8::{encode_utf8, valid_utf8};

use crate::bytes::{
    lemma_order, lemma_starts_with_concat, lemma_starts_with_split, lt, starts_with, tail,
};
use crate::call_laws::encoding::{lemma_stands_behind, stands_behind};
use crate::call_laws::order::law_prefix;
use crate::flatdir::error::FlatError;
use crate::flatdir::hca::{
    allocate, claim_candidate, last_window_start, window_size, CandidateSource,
};
use crate::flatdir::health::{
    all_known, hca_ok, healthy, is_node_prefix, is_packed, law_allocation, law_allocation_claims,
    law_prefix_free, lemma_open_keeps, lemma_walk_grows,
};
use crate::flatdir::layout::{
    child_row, inside, layer_row, lemma_layout_constants, node, parse_version, recent_row,
    COUNTERS_BASE, HCA_SUBSPACE, LAYER_TAG, LAYOUT_VERSION, NODE_PREFIX, RECENT_BASE, VERSION_KEY,
};
use crate::flatdir::model::{
    data_prefix, is_child_key, is_data_prefix, names_child, occupied, version_ok,
};
use crate::flatdir::ops::{
    check_version, check_version_read, create_or_open, data_key_prefix, find, is_prefix_free,
    list_children, prefix_data_region_occupied, texts, validate,
};
use crate::flatdir::rows::{
    child_keys, classify, data_keys, data_ok, faulty, has_layer, in_node_region, is_child,
    is_target, region_split, RowKind,
};
use crate::flatdir::soundness::lemma_healthy_sound;
use crate::flatdir::tuple::{
    child_tuple, int_element, int_of_element, is_i64, law_integer_round_trip, leading_payload,
    terminated, unpack_i64_full, CODE_BYTES,
};
use crate::flatengine::FlatEngine;
use crate::key::path_of;
use crate::rawkv::{row_at, RawKv, Rows};

verus! {

// ---------------------------------------------------------------------------
// Versions
// ---------------------------------------------------------------------------

/// A store is read exactly if it has no version row, or one that states a version no
/// newer than this layout's.
pub proof fn law_version<R: RawKv>(
    raw: R,
    value: &[u8],
    parsed: Option<(u32, u32, u32)>,
    r: Result<(), FlatError<R::Error>>,
)
    requires
        raw.wf(),
        call_ensures(check_version_read::<R>, (&raw,), r),
        call_ensures(parse_version, (value,), parsed),
        raw.rows().dom().contains(VERSION_KEY@) ==> raw.rows()[VERSION_KEY@] == value@,
        !(r matches Err(FlatError::Engine(_))),
    ensures
        if !raw.rows().dom().contains(VERSION_KEY@) || (parsed matches Some((major, minor, _))
            && major <= 1 && minor == 0) {
            r is Ok
        } else {
            r matches Err(FlatError::Foreign)
        },
{
}

/// Checking the version for a write gives a fresh store its version row, and changes
/// nothing else; checking it for a read changes nothing.
pub proof fn law_version_written<R: RawKv>(
    before: R,
    after: R,
    allow: bool,
    k: Seq<u8>,
)
    requires
        before.wf(),
        exists|s: &mut R|
            *s == before && *final(s) == after && #[trigger] call_ensures(
                check_version::<R>,
                (s, allow),
                Ok::<(), FlatError<R::Error>>(()),
            ),
    ensures
        row_at(after.rows(), k) == if allow && k == VERSION_KEY@ && !before.rows().dom().contains(
            VERSION_KEY@,
        ) {
            Some(seq![1u8, 0u8, 0u8, 0u8, 0u8, 0u8, 0u8, 0u8, 0u8, 0u8, 0u8, 0u8])
        } else {
            row_at(before.rows(), k)
        },
{
    assert(LAYOUT_VERSION@ =~= seq![
        1u8, 0u8, 0u8, 0u8, 0u8, 0u8, 0u8, 0u8, 0u8, 0u8, 0u8, 0u8,
    ]);
}

/// A store that validates is one that every read and write accepts.
pub proof fn law_validate_version<R: RawKv>(
    raw: R,
    counts: (usize, usize),
    version: Result<(), FlatError<R::Error>>,
    value: &[u8],
    parsed: Option<(u32, u32, u32)>,
)
    requires
        raw.wf(),
        call_ensures(
            validate::<R>,
            (&raw,),
            Ok::<(usize, usize), FlatError<R::Error>>(counts),
        ),
        call_ensures(check_version_read::<R>, (&raw,), version),
        call_ensures(parse_version, (value,), parsed),
        raw.rows().dom().contains(VERSION_KEY@) ==> raw.rows()[VERSION_KEY@] == value@,
    ensures
        !(version matches Err(FlatError::Foreign)),
        version_ok(raw.rows()),
        raw.rows().dom().contains(VERSION_KEY@) ==> (parsed matches Some((major, minor, _)) && major
            <= 1 && minor == 0),
{
    let m = raw.rows();
    if m.dom().contains(VERSION_KEY@) {
        lemma_version_in_region();
        assert(!faulty(m, VERSION_KEY@));
    }
}

/// The version row lies in the node region.
proof fn lemma_version_in_region()
    ensures
        in_node_region(VERSION_KEY@),
{
    lemma_layout_constants();
    assert(region_split() =~= seq![0xFEu8, 0x00u8]);
    assert(VERSION_KEY@[0] == 0xFE && VERSION_KEY@[1] == 0x01);
    assert(crate::bytes::parts_at(region_split(), VERSION_KEY@, 1));
}

/// A store of a version that this layout does not read is refused, and left as it is.
pub proof fn law_foreign_refused<R: RawKv>(
    before: FlatEngine<R>,
    after: FlatEngine<R>,
    dir: &[&[u8]],
    key: &[u8],
    value: &[u8],
    version: &[u8],
    parsed: Option<(u32, u32, u32)>,
    read: Result<Option<Vec<u8>>, FlatError<R::Error>>,
    wrote: Result<(), FlatError<R::Error>>,
)
    requires
        before.wf(),
        before.rows().dom().contains(VERSION_KEY@),
        before.rows()[VERSION_KEY@] == version@,
        call_ensures(parse_version, (version,), parsed),
        !(parsed matches Some((major, minor, _)) && major <= 1 && minor == 0),
        call_ensures(FlatEngine::<R>::get, (&before, dir, key), read),
        exists|s: &mut FlatEngine<R>|
            *s == before && *final(s) == after && #[trigger] call_ensures(
                FlatEngine::<R>::set,
                (s, dir, key, value),
                wrote,
            ),
    ensures
        read is Err,
        read->Err_0 is Foreign || read->Err_0 is Key || read->Err_0 is Engine,
        wrote is Err,
        wrote->Err_0 is Foreign || wrote->Err_0 is Key || wrote->Err_0 is Engine,
        !(wrote->Err_0 is Engine) ==> after.rows() == before.rows(),
{
}

// ---------------------------------------------------------------------------
// Paths and rows
// ---------------------------------------------------------------------------

/// A path is found segment by segment: behind a directory that is found, the child row of
/// the next segment tells where the path goes on.
pub proof fn law_find<R: RawKv>(
    raw: R,
    path: &[&[u8]],
    longer: &[&[u8]],
    seg: Seq<u8>,
    here: Result<Option<Vec<u8>>, FlatError<R::Error>>,
    there: Result<Option<Vec<u8>>, FlatError<R::Error>>,
    value: &[u8],
    number: Option<i64>,
)
    requires
        raw.wf(),
        raw.terms().readable,
        path_of(longer@) == path_of(path@).push(seg),
        call_ensures(find::<R>, (&raw, path), here),
        call_ensures(find::<R>, (&raw, longer), there),
        call_ensures(unpack_i64_full, (value,), number),
        here matches Ok(Some(p)) ==> (raw.rows().dom().contains(child_row(node(p@), seg))
            ==> raw.rows()[child_row(node(p@), seg)] == value@),
    ensures
        path@.len() == 0 ==> (here matches Ok(Some(p)) && p@ == seq![0xFEu8]),
        match here {
            Ok(Some(p)) => if !valid_utf8(seg) {
                there matches Err(FlatError::Corrupt)
            } else if !raw.rows().dom().contains(child_row(node(p@), seg)) {
                there matches Ok(None)
            } else if number is Some {
                there matches Ok(Some(q)) && q@ == value@
            } else {
                there matches Err(FlatError::Corrupt)
            },
            Ok(None) => there matches Ok(None),
            Err(_) => there matches Err(FlatError::Corrupt),
        },
{
    let a = path_of(path@);
    let b = path_of(longer@);
    assert(b.drop_last() =~= a);
    assert(b.last() == seg);
    if path@.len() == 0 {
        assert(a.len() == 0);
        assert(NODE_PREFIX@ =~= seq![0xFEu8]);
    }
}

/// The children of a directory are the names that have a child row, each once, in the
/// order of their bytes.
pub proof fn law_list_children<R: RawKv>(
    raw: R,
    prefix: &[u8],
    names: Vec<String>,
    name: Seq<char>,
)
    requires
        raw.wf(),
        call_ensures(
            list_children::<R>,
            (&raw, prefix),
            Ok::<Vec<String>, FlatError<R::Error>>(names),
        ),
    ensures
        forall|i: int, j: int|
            #![trigger names@[i], names@[j]]
            0 <= i < j < names@.len() ==> lt(encode_utf8(names@[i]@), encode_utf8(names@[j]@)),
        raw.rows().dom().contains(child_row(node(prefix@), encode_utf8(name))) <==> exists|i: int|
            0 <= i < names@.len() && (#[trigger] names@[i])@ == name,
{
    let list = texts(names@);
    assert forall|i: int, j: int|
        #![trigger names@[i], names@[j]]
        0 <= i < j < names@.len() implies lt(encode_utf8(names@[i]@), encode_utf8(names@[j]@)) by {
        assert(lt(encode_utf8(list[i]), encode_utf8(list[j])));
    }
    if raw.rows().dom().contains(child_row(node(prefix@), encode_utf8(name))) {
        assert(list.contains(name));
        let i = choose|i: int| 0 <= i < list.len() && list[i] == name;
        assert(names@[i]@ == name);
    }
    if exists|i: int| 0 <= i < names@.len() && (#[trigger] names@[i])@ == name {
        let i = choose|i: int| 0 <= i < names@.len() && (#[trigger] names@[i])@ == name;
        assert(list[i] == name);
    }
}

/// Children are listed exactly if every row in their place is the child row of a name;
/// otherwise the store is malformed.
pub proof fn law_list_refused<R: RawKv>(
    raw: R,
    prefix: &[u8],
    r: Result<Vec<String>, FlatError<R::Error>>,
)
    requires
        raw.wf(),
        raw.terms().readable,
        call_ensures(list_children::<R>, (&raw, prefix), r),
    ensures
        r is Ok <==> forall|k: Seq<u8>| #[trigger]
            raw.rows().dom().contains(k) && stands_behind(node(prefix@) + seq![0x14u8], k)
                ==> exists|name: Seq<char>|
                k == #[trigger] child_row(node(prefix@), encode_utf8(name)),
        r is Err ==> r->Err_0 is Corrupt,
{
    let m = raw.rows();
    assert(int_element(0) =~= seq![0x14u8]);
    assert forall|k: Seq<u8>| stands_behind(node(prefix@) + seq![0x14u8], k) <==> is_child_key(
        prefix@,
        k,
    ) by {
        lemma_stands_behind(node(prefix@) + seq![0x14u8], k);
    }
    if r is Ok {
        assert forall|k: Seq<u8>| #[trigger]
            m.dom().contains(k) && stands_behind(node(prefix@) + seq![0x14u8], k) implies exists|
            name: Seq<char>,
        | k == #[trigger] child_row(node(prefix@), encode_utf8(name)) by {
            assert(is_child_key(prefix@, k));
            assert(names_child(prefix@, k));
        }
    }
}

/// A data key belongs to the packed integer that it begins with, if it begins with one.
pub proof fn law_data_key_prefix(key: &[u8], r: Option<&[u8]>, p: &[u8], number: Option<i64>)
    requires
        call_ensures(data_key_prefix, (key,), r),
        call_ensures(unpack_i64_full, (p,), number),
    ensures
        r matches Some(q) ==> exists|t: Seq<u8>| key@ == #[trigger] (q@ + t),
        (r is Some && (r->0)@ == p@) <==> number is Some && exists|t: Seq<u8>|
            key@ == #[trigger] (p@ + t),
{
    law_prefix(key@, p@);
    if r is Some {
        law_prefix(key@, (r->0)@);
    }
    if number is Some && starts_with(key@, p@) {
        assert(is_data_prefix(key@, p@));
        crate::flatdir::model::lemma_data_prefix_unique(key@, p@);
    }
}

/// A prefix's data region is occupied exactly if some key goes on behind the prefix, one
/// that goes on with more than a lone `0xFF` aside.
pub proof fn law_occupied<R: RawKv>(raw: R, prefix: &[u8], r: bool)
    requires
        raw.wf(),
        call_ensures(
            prefix_data_region_occupied::<R>,
            (&raw, prefix),
            Ok::<bool, FlatError<R::Error>>(r),
        ),
    ensures
        r <==> exists|k: Seq<u8>| #[trigger]
            raw.rows().dom().contains(k) && prefix@.len() < k.len() && k.subrange(
                0,
                prefix@.len() as int,
            ) == prefix@ && (k[prefix@.len() as int] != 0xFF || k.len() == prefix@.len() + 1),
{
    let m = raw.rows();
    let p = prefix@;
    if occupied(m, p) {
        let k = choose|k: Seq<u8>| #[trigger] m.dom().contains(k) && inside(p, k);
        assert(m.dom().contains(k) && p.len() < k.len() && k.subrange(0, p.len() as int) == p);
    }
    if exists|k: Seq<u8>| #[trigger]
        m.dom().contains(k) && p.len() < k.len() && k.subrange(0, p.len() as int) == p && (
        k[p.len() as int] != 0xFF || k.len() == p.len() + 1) {
        let k = choose|k: Seq<u8>| #[trigger]
            m.dom().contains(k) && p.len() < k.len() && k.subrange(0, p.len() as int) == p && (
            k[p.len() as int] != 0xFF || k.len() == p.len() + 1);
        assert(m.dom().contains(k) && inside(p, k));
    }
}

/// Over rows of the layout, a packed prefix is free exactly if no key begins with its
/// node.
pub proof fn law_free<R: RawKv>(raw: R, v: i64, prefix: &[u8], r: bool)
    requires
        raw.wf(),
        all_known(raw.rows()),
        prefix@ == int_element(v as int),
        call_ensures(is_prefix_free::<R>, (&raw, prefix), Ok::<bool, FlatError<R::Error>>(r)),
    ensures
        r <==> forall|k: Seq<u8>| #[trigger]
            raw.rows().dom().contains(k) ==> !starts_with(k, node(prefix@)),
{
    assert(is_packed(prefix@));
    law_prefix_free(raw.rows(), prefix@);
}

/// A directory that is created in a store in order is found under the prefix it was
/// created with, every path that led somewhere leads there still, and every row stays but
/// for the allocator's. Opening what is there, or without creating, changes nothing.
pub proof fn law_create<R: RawKv, S: CandidateSource>(
    before: R,
    after: R,
    s0: S,
    s1: S,
    path: &[&[u8]],
    allow: bool,
    r: Result<Option<Vec<u8>>, FlatError<R::Error>>,
    other: &[&[u8]],
    was: Result<Option<Vec<u8>>, FlatError<R::Error>>,
    found: Result<Option<Vec<u8>>, FlatError<R::Error>>,
    then: Result<Option<Vec<u8>>, FlatError<R::Error>>,
    now: Result<Option<Vec<u8>>, FlatError<R::Error>>,
)
    requires
        before.wf(),
        before.terms().readable,
        before.terms().writable,
        healthy(before.rows()),
        exists|x: &mut R, y: &mut S|
            *x == before && *final(x) == after && *y == s0 && *final(y) == s1
                && #[trigger] call_ensures(create_or_open::<R, S>, (x, path, allow, y), r),
        call_ensures(find::<R>, (&before, path), was),
        call_ensures(find::<R>, (&after, path), found),
        call_ensures(find::<R>, (&before, other), then),
        call_ensures(find::<R>, (&after, other), now),
    ensures
        r is Ok ==> healthy(after.rows()),
        (was matches Ok(Some(_))) || !allow ==> after == before && s1 == s0,
        was matches Ok(Some(p)) ==> (r matches Ok(Some(q)) && q@ == p@),
        (was matches Ok(None)) && !allow ==> (r matches Ok(None)),
        r matches Ok(Some(q)) ==> (found matches Ok(Some(p)) && p@ == q@),
        allow && r is Ok ==> (r matches Ok(Some(_))),
        r is Ok && (then matches Ok(Some(_))) ==> (now matches Ok(Some(b)) && b@ == (
        then->Ok_0->0)@),
        r is Ok ==> forall|k: Seq<u8>| #[trigger]
            before.rows().dom().contains(k) && !starts_with(k, HCA_SUBSPACE@)
                ==> after.rows().dom().contains(k) && after.rows()[k] == before.rows()[k],
{
    let m0 = before.rows();
    let m1 = after.rows();
    if r matches Ok(Some(_)) {
        let p = (r->Ok_0)->0;
        lemma_open_keeps(m0, path_of(path@), m1, p@);
        if then matches Ok(Some(_)) {
            lemma_walk_grows(m0, m1, path_of(other@));
        }
    }
}

// ---------------------------------------------------------------------------
// Allocation
// ---------------------------------------------------------------------------

/// An allocated value was not claimed and is claimed afterwards, and no row outside of the
/// allocator's subspace changes. It lies in a window that begins no lower than the last
/// one did and is as large as a window there is.
pub proof fn law_allocate<R: RawKv, S: CandidateSource>(
    before: R,
    after: R,
    source: S,
    c: i64,
    last: i64,
)
    requires
        before.wf(),
        exists|x: &mut R, y: &mut S|
            *x == before && *final(x) == after && *y == source && #[trigger] call_ensures(
                allocate::<R, S>,
                (x, y),
                Ok::<i64, FlatError<R::Error>>(c),
            ),
        call_ensures(
            last_window_start::<R>,
            (&before,),
            Ok::<i64, FlatError<R::Error>>(last),
        ),
    ensures
        !before.rows().dom().contains(recent_row(c as int)),
        after.rows().dom().contains(recent_row(c as int)),
        after.rows()[recent_row(c as int)].len() == 0,
        last <= c,
        forall|k: Seq<u8>|
            !starts_with(k, HCA_SUBSPACE@) ==> #[trigger] row_at(after.rows(), k) == row_at(
                before.rows(),
                k,
            ),
{
    law_allocation_claims(before.rows(), after.rows(), c as int);
}

/// Where the allocator's rows come from allocations, two allocations, one after the other,
/// give two values, and leave one counter row, of the window of the last one.
pub proof fn law_allocate_twice<R: RawKv, S: CandidateSource, T: CandidateSource>(
    first: R,
    second: R,
    third: R,
    s: S,
    t: T,
    a: i64,
    b: i64,
    window: i64,
    size: i64,
)
    requires
        first.wf(),
        hca_ok(first.rows()),
        exists|x: &mut R, y: &mut S|
            *x == first && *final(x) == second && *y == s && #[trigger] call_ensures(
                allocate::<R, S>,
                (x, y),
                Ok::<i64, FlatError<R::Error>>(a),
            ),
        exists|x: &mut R, y: &mut T|
            *x == second && *final(x) == third && *y == t && #[trigger] call_ensures(
                allocate::<R, T>,
                (x, y),
                Ok::<i64, FlatError<R::Error>>(b),
            ),
        call_ensures(
            last_window_start::<R>,
            (&third,),
            Ok::<i64, FlatError<R::Error>>(window),
        ),
        call_ensures(window_size, (window,), size),
    ensures
        a != b,
        hca_ok(third.rows()),
        window <= b < window + size,
{
    law_allocation(first.rows(), second.rows(), a as int);
    law_allocation(second.rows(), third.rows(), b as int);
    crate::flatdir::health::lemma_latest_start(third.rows());
    let w = window as int;
    let o = (crate::flatdir::hca::open_window(second.rows())->0).1;
    assert(crate::flatdir::health::counts(third.rows(), o));
}

/// Windows grow with where they begin.
pub proof fn law_window_size(start: i64, r: i64)
    requires
        call_ensures(window_size, (start,), r),
    ensures
        r == if start < 255 {
            64int
        } else if start < 65535 {
            1024int
        } else {
            8192int
        },
{
}

/// A candidate is free exactly if nobody claimed it, and claimed afterwards; no other row
/// changes.
pub proof fn law_claim<R: RawKv>(before: R, after: R, c: i64, free: bool, k: Seq<u8>)
    requires
        before.wf(),
        exists|x: &mut R|
            *x == before && *final(x) == after && #[trigger] call_ensures(
                claim_candidate::<R>,
                (x, c),
                Ok::<bool, FlatError<R::Error>>(free),
            ),
    ensures
        free <==> !before.rows().dom().contains(recent_row(c as int)),
        row_at(after.rows(), k) == if k == recent_row(c as int) {
            Some(Seq::<u8>::empty())
        } else {
            row_at(before.rows(), k)
        },
{
}

// ---------------------------------------------------------------------------
// The whole-store walk
// ---------------------------------------------------------------------------

/// Whether the directory with a packed prefix has its layer row, which is empty.
pub open spec fn layer_there(m: Rows, p: Seq<u8>) -> bool {
    m.dom().contains(layer_row(node(p))) && m[layer_row(node(p))].len() == 0
}

/// Whether some child row leads to a packed prefix.
pub open spec fn child_there(m: Rows, p: Seq<u8>) -> bool {
    exists|q: Seq<u8>, name: Seq<char>|
        m.dom().contains(#[trigger] child_row(node(q), encode_utf8(name))) && int_of_element(
            m[child_row(node(q), encode_utf8(name))],
        ) is Some && int_of_element(m[child_row(node(q), encode_utf8(name))]) == int_of_element(p)
}

/// Whether a key is one of the layout's, with a value that fits: the version row, a row of
/// the allocator, the layer row of a directory, a child row that leads to a directory with
/// its layer row, or a data row of a directory that is a child and has its layer row.
pub open spec fn is_layout_row(m: Rows, k: Seq<u8>) -> bool {
    ||| k == VERSION_KEY@
    ||| exists|t: Seq<u8>|
        k == #[trigger] (COUNTERS_BASE@ + t) && int_of_element(t) is Some && m[k].len() == 8
    ||| exists|t: Seq<u8>|
        k == #[trigger] (RECENT_BASE@ + t) && int_of_element(t) is Some && m[k].len() == 0
    ||| exists|p: Seq<u8>| k == #[trigger] layer_row(node(p)) && m[k].len() == 0
    ||| exists|p: Seq<u8>, name: Seq<char>|
        k == #[trigger] child_row(node(p), encode_utf8(name)) && int_of_element(m[k]) is Some
            && layer_there(m, int_element(int_of_element(m[k])->0))
    ||| lt(k, seq![0xFEu8, 0x00u8]) && exists|p: Seq<u8>, t: Seq<u8>|
        k == #[trigger] (p + t) && int_of_element(p) is Some && layer_there(m, p) && child_there(
            m,
            p,
        )
}

/// A store that validates holds only rows of the layout.
pub proof fn law_validate_rows<R: RawKv>(raw: R, counts: (usize, usize), k: Seq<u8>)
    requires
        raw.wf(),
        call_ensures(
            validate::<R>,
            (&raw,),
            Ok::<(usize, usize), FlatError<R::Error>>(counts),
        ),
        raw.rows().dom().contains(k),
    ensures
        is_layout_row(raw.rows(), k),
{
    let m = raw.rows();
    lemma_layout_constants();
    assert(region_split() =~= seq![0xFEu8, 0x00u8]);
    if in_node_region(k) {
        assert(!faulty(m, k));
        match classify(k, m[k]) {
            RowKind::Meta => {
                if starts_with(k, COUNTERS_BASE@) {
                    lemma_starts_with_split(k, COUNTERS_BASE@);
                } else if starts_with(k, RECENT_BASE@) {
                    lemma_starts_with_split(k, RECENT_BASE@);
                }
            },
            RowKind::Layer(p) => {
                lemma_layer_form(k, m[k], p);
            },
            RowKind::Child(p, c) => {
                let name = lemma_child_form(k, m[k], p, c);
                assert(is_child(m, k));
                assert(is_target(m, c));
                lemma_layer_there(m, c);
                assert(k == child_row(node(p), encode_utf8(name)));
            },
            _ => {},
        }
    } else {
        lemma_order(region_split(), k, region_split());
        assert(data_ok(m, k));
        let p = data_prefix(k)->0;
        assert(is_data_prefix(k, p));
        lemma_starts_with_split(k, p);
        lemma_layer_there(m, p);
        let link = choose|j: Seq<u8>| #[trigger] is_child(m, j) && classify(j, m[j])->Child_1 == p;
        let q = classify(link, m[link])->Child_0;
        let name = lemma_child_form(link, m[link], q, p);
        let v = int_of_element(m[link])->0;
        lemma_range_of(m[link]);
        law_integer_round_trip(v);
        assert(m.dom().contains(child_row(node(q), encode_utf8(name))));
        assert(child_there(m, p));
        assert(k == p + tail(k, p.len()));
    }
}

/// A packed integer is one of machine range.
proof fn lemma_range_of(s: Seq<u8>)
    requires
        int_of_element(s) is Some,
    ensures
        is_i64(int_of_element(s)->0),
{
    crate::flatdir::tuple::lemma_element_range(s);
}

/// A directory that shows a layer row has it.
pub proof fn lemma_layer_there(m: Rows, p: Seq<u8>)
    requires
        has_layer(m, p),
    ensures
        layer_there(m, p),
{
    let k = choose|k: Seq<u8>| #[trigger]
        m.dom().contains(k) && in_node_region(k) && classify(k, m[k]) == RowKind::Layer(p);
    lemma_layer_form(k, m[k], p);
}

/// The key of a layer row.
pub proof fn lemma_layer_form(k: Seq<u8>, v: Seq<u8>, p: Seq<u8>)
    requires
        classify(k, v) == RowKind::Layer(p),
    ensures
        k == layer_row(node(p)),
        v.len() == 0,
{
    lemma_node_form(k, v, p);
}

/// The key of a child row.
pub proof fn lemma_child_form(k: Seq<u8>, v: Seq<u8>, p: Seq<u8>, c: Seq<u8>) -> (name: Seq<char>)
    requires
        classify(k, v) == RowKind::Child(p, c),
    ensures
        k == child_row(node(p), encode_utf8(name)),
        int_of_element(v) is Some,
        c == int_element(int_of_element(v)->0),
{
    lemma_node_form(k, v, p);
    let row = tail(k, node(p).len());
    let name = choose|name: Seq<char>| row == #[trigger] child_tuple(name);
    assert(k =~= child_row(node(p), encode_utf8(name)));
    name
}

/// A row of a node is what stands behind the node.
proof fn lemma_node_form(k: Seq<u8>, v: Seq<u8>, p: Seq<u8>)
    requires
        classify(k, v) is Layer || classify(k, v) is Child,
        p == match classify(k, v) {
            RowKind::Layer(q) => q,
            RowKind::Child(q, _) => q,
            _ => Seq::empty(),
        },
    ensures
        k == node(p) + tail(k, node(p).len()),
        classify(k, v) is Layer ==> tail(k, node(p).len()) == LAYER_TAG@,
        classify(k, v) is Child ==> crate::flatdir::rows::is_child_tuple(tail(k, node(p).len())),
{
    lemma_layout_constants();
    let rel = tail(k, 1);
    let payload = leading_payload(rel)->0;
    lemma_starts_with_split(k, node(p));
    crate::flatdir::tuple::lemma_leading_payload_sound(rel);
    assert(node(p)[1] == CODE_BYTES);
    assert(k.subrange(0, node(p).len() as int)[1] == k[1]);
    assert(rel[0] == CODE_BYTES);
    let e = crate::flatdir::tuple::element(CODE_BYTES, payload);
    lemma_starts_with_split(rel, e);
    // The key begins with the nodes of `payload` and of `p`; they are the same.
    assert(starts_with(k, node(payload))) by {
        assert(k.subrange(0, 1) =~= NODE_PREFIX@) by {
            assert(k.subrange(0, node(p).len() as int)[0] == k[0]);
        }
        assert(k =~= NODE_PREFIX@ + rel);
        assert(node(payload) =~= NODE_PREFIX@ + e);
        assert(k =~= node(payload) + tail(rel, e.len()));
        lemma_starts_with_concat(node(payload), tail(rel, e.len()));
    }
    if payload != p {
        lemma_range_of(payload);
        law_integer_round_trip(int_of_element(payload)->0);
        lemma_same_node(k, payload, p);
    }
    assert(tail(k, node(p).len()) =~= tail(rel, terminated(payload).len() + 1));
}

/// A key begins with the node of one packed integer only, in whatever form.
proof fn lemma_same_node(k: Seq<u8>, payload: Seq<u8>, p: Seq<u8>)
    requires
        starts_with(k, node(payload)),
        starts_with(k, node(p)),
        int_of_element(payload) is Some,
        int_of_element(p) is Some,
    ensures
        payload == p,
{
    let a = terminated(payload);
    let b = terminated(p);
    assert(node(payload) =~= NODE_PREFIX@ + seq![CODE_BYTES] + a);
    assert(node(p) =~= NODE_PREFIX@ + seq![CODE_BYTES] + b);
    if a.len() <= b.len() {
        assert(starts_with(b, a)) by {
            assert(b.subrange(0, a.len() as int) =~= a) by {
                assert forall|i: int| 0 <= i < a.len() implies a[i] == b[i] by {
                    assert(k.subrange(0, node(payload).len() as int)[i + 2] == k[i + 2]);
                    assert(k.subrange(0, node(p).len() as int)[i + 2] == k[i + 2]);
                    assert(node(payload)[i + 2] == a[i]);
                    assert(node(p)[i + 2] == b[i]);
                }
            }
        }
        crate::flatdir::prune::lemma_terminated_begins(payload, p);
        crate::flatdir::model::lemma_packed_prefix_free(p, payload);
    } else {
        assert(starts_with(a, b)) by {
            assert(a.subrange(0, b.len() as int) =~= b) by {
                assert forall|i: int| 0 <= i < b.len() implies a[i] == b[i] by {
                    assert(k.subrange(0, node(payload).len() as int)[i + 2] == k[i + 2]);
                    assert(k.subrange(0, node(p).len() as int)[i + 2] == k[i + 2]);
                    assert(node(payload)[i + 2] == a[i]);
                    assert(node(p)[i + 2] == b[i]);
                }
            }
        }
        crate::flatdir::prune::lemma_terminated_begins(p, payload);
        crate::flatdir::model::lemma_packed_prefix_free(payload, p);
    }
}

/// A validated store's counts are those of its data rows, before the node region, and of
/// the rest that is neither a version row, nor the allocator's, nor a layer row.
pub proof fn law_validate_counts<R: RawKv>(raw: R, counts: (usize, usize))
    requires
        raw.wf(),
        call_ensures(
            validate::<R>,
            (&raw,),
            Ok::<(usize, usize), FlatError<R::Error>>(counts),
        ),
    ensures
        counts.0 == raw.rows().dom().filter(|k: Seq<u8>| lt(k, seq![0xFEu8, 0x00u8])).len(),
        counts.1 == raw.rows().dom().filter(
            |k: Seq<u8>|
                exists|p: Seq<u8>, name: Seq<char>|
                    is_node_prefix(p) && k == #[trigger] child_row(node(p), encode_utf8(name)),
        ).len(),
{
    let m = raw.rows();
    lemma_layout_constants();
    assert(region_split() =~= seq![0xFEu8, 0x00u8]);
    let data = m.dom().filter(|k: Seq<u8>| lt(k, seq![0xFEu8, 0x00u8]));
    let links = m.dom().filter(
        |k: Seq<u8>|
            exists|p: Seq<u8>, name: Seq<char>|
                is_node_prefix(p) && k == #[trigger] child_row(node(p), encode_utf8(name)),
    );
    assert(data =~= data_keys(m)) by {
        assert forall|k: Seq<u8>| data.contains(k) <==> data_keys(m).contains(k) by {
            lemma_order(region_split(), k, region_split());
            lemma_order(k, region_split(), k);
        }
    }
    assert(links =~= child_keys(m)) by {
        assert forall|k: Seq<u8>| links.contains(k) <==> child_keys(m).contains(k) by {
            if child_keys(m).contains(k) {
                let p = classify(k, m[k])->Child_0;
                let c = classify(k, m[k])->Child_1;
                let name = lemma_child_form(k, m[k], p, c);
                lemma_child_owner(k, m[k], p);
            }
            if links.contains(k) {
                let (p, name) = choose|p: Seq<u8>, name: Seq<char>|
                    is_node_prefix(p) && k == #[trigger] child_row(node(p), encode_utf8(name));
                assert(m.dom().contains(k));
                lemma_link_is_child(m, p, name);
            }
        }
    }
}

/// The owner of a child row is the root or a packed integer.
pub proof fn lemma_child_owner(k: Seq<u8>, v: Seq<u8>, p: Seq<u8>)
    requires
        classify(k, v) is Child,
        p == classify(k, v)->Child_0,
    ensures
        is_node_prefix(p),
{
    let payload = leading_payload(tail(k, 1))->0;
    if payload != NODE_PREFIX@ {
        lemma_range_of(payload);
        let c = int_of_element(payload)->0;
        assert(p == int_element(c));
    }
}

/// The owner of a layer row is the root or a packed integer.
pub proof fn lemma_layer_owner(k: Seq<u8>, v: Seq<u8>, p: Seq<u8>)
    requires
        classify(k, v) == RowKind::Layer(p),
    ensures
        is_node_prefix(p),
{
    let payload = leading_payload(tail(k, 1))->0;
    if payload != NODE_PREFIX@ {
        lemma_range_of(payload);
        let c = int_of_element(payload)->0;
        assert(p == int_element(c));
    }
}

/// In a store without faults, the child row of a name is taken for one.
proof fn lemma_link_is_child(m: Rows, p: Seq<u8>, name: Seq<char>)
    requires
        crate::flatdir::rows::no_faults(m),
        is_node_prefix(p),
        m.dom().contains(child_row(node(p), encode_utf8(name))),
    ensures
        is_child(m, child_row(node(p), encode_utf8(name))),
{
    let k = child_row(node(p), encode_utf8(name));
    vstd::utf8::encode_utf8_valid_utf8(name);
    law_integer_round_trip(0);
    assert(is_packed(int_element(0)));
    crate::flatdir::soundness::lemma_link_kind(p, encode_utf8(name), int_element(0));
    assert(!faulty(m, k));
}

/// A store that reads and writes have kept in order validates.
pub proof fn law_validate_accepts<R: RawKv>(
    raw: R,
    r: Result<(usize, usize), FlatError<R::Error>>,
)
    requires
        raw.wf(),
        raw.terms().readable,
        healthy(raw.rows()),
        call_ensures(validate::<R>, (&raw,), r),
    ensures
        r is Ok,
{
    lemma_healthy_sound(raw.rows());
}

} // verus!
