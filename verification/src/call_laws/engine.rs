//! The directory engine over a raw view.

use core::ops::Bound;

use vstd::prelude::*;
use vstd::utf8::{encode_utf8, valid_utf8};

use crate::bytes::{lt, starts_with, tail};
use crate::call_laws::cluster::{is_key_between, law_lies_between, lies_between};
use crate::call_laws::encoding::{lemma_stands_behind, stands_behind};
use crate::call_laws::maps::law_scanned;
use crate::call_laws::order::{law_path, law_prefix};
use crate::call_laws::stores::is_text_path;
use crate::directory_laws::{law_open, law_paths_injective, law_set_everywhere};
use crate::flatdir::error::FlatError;
use crate::flatdir::health::healthy;
use crate::flatdir::layout::{child_row, node, ROOT_PATH_SEGMENT};
use crate::flatdir::model::{is_child_key, names_child, version_ok};
use crate::flatdir::ops::find;
use crate::flatdir::tuple::int_element;
use crate::flatengine::{
    anchored, in_dir_range, lemma_passed_is_empty, lemma_raw_range_exact, map_bounds,
    raw_range_empty, DataBounds, FlatEngine,
};
use crate::key::{path_of, valid_path};
use crate::keyspace::{bound_of, in_range, next_prefix, owned_bound_of};
use crate::rawkv::{row_at, RawKv};
use crate::stream::KvPair;

verus! {

/// A raw key is one of a directory's keys between bounds in both ways of saying so.
proof fn lemma_key_between(prefix: Seq<u8>, start: Bound<&[u8]>, end: Bound<&[u8]>, k: Seq<u8>)
    ensures
        is_key_between(prefix, start, end, k) <==> in_dir_range(
            prefix,
            bound_of(start),
            bound_of(end),
            k,
        ),
{
    law_prefix(k, prefix);
    if in_dir_range(prefix, bound_of(start), bound_of(end), k) {
        let t = tail(k, prefix.len());
        law_lies_between(t, start, end);
        assert(k == prefix + t);
    }
    if is_key_between(prefix, start, end, k) {
        let t = choose|t: Seq<u8>| k == #[trigger] (prefix + t) && lies_between(t, start, end);
        law_lies_between(t, start, end);
        crate::bytes::lemma_starts_with_concat(prefix, t);
    }
}

/// The prefix of a directory is what its path, behind the anchor, leads to.
pub proof fn law_prefix_of<R: RawKv>(
    e: FlatEngine<R>,
    dir: &[&[u8]],
    r: Result<Option<Vec<u8>>, FlatError<R::Error>>,
    path: &[&[u8]],
    found: Result<Option<Vec<u8>>, FlatError<R::Error>>,
    there: Result<bool, FlatError<R::Error>>,
)
    requires
        e.wf(),
        e.terms().readable,
        version_ok(e.rows()),
        is_text_path(dir),
        path_of(path@) == seq![encode_utf8(ROOT_PATH_SEGMENT@)] + path_of(dir@),
        call_ensures(FlatEngine::<R>::prefix_of, (&e, dir), r),
        call_ensures(FlatEngine::<R>::dir_exists, (&e, dir), there),
        exists|raw: &R| *raw == e.view_of() && #[trigger] call_ensures(find::<R>, (raw, path), found),
    ensures
        match found {
            Ok(Some(p)) => (r matches Ok(Some(q)) && q@ == p@) && there matches Ok(true),
            Ok(None) => (r matches Ok(None)) && there matches Ok(false),
            Err(_) => (r matches Err(FlatError::Corrupt)) && there matches Err(FlatError::Corrupt),
        },
{
    law_path(dir);
    assert(path_of(path@) == anchored(path_of(dir@)));
}

/// A read of a directory's key is a read of the raw key behind the directory's prefix.
pub proof fn law_get<R: RawKv>(
    e: FlatEngine<R>,
    dir: &[&[u8]],
    key: &[u8],
    p: Option<Vec<u8>>,
    v: Option<Vec<u8>>,
)
    requires
        e.wf(),
        call_ensures(
            FlatEngine::<R>::prefix_of,
            (&e, dir),
            Ok::<Option<Vec<u8>>, FlatError<R::Error>>(p),
        ),
        call_ensures(
            FlatEngine::<R>::get,
            (&e, dir, key),
            Ok::<Option<Vec<u8>>, FlatError<R::Error>>(v),
        ),
    ensures
        p is None ==> v is None,
        p matches Some(q) ==> match v {
            Some(w) => e.rows().dom().contains(q@ + key@) && e.rows()[q@ + key@] == w@,
            None => !e.rows().dom().contains(q@ + key@),
        },
{
    if p is Some {
        crate::bytes::lemma_starts_with_concat((p->0)@, key@);
    }
}

/// A scan of a directory lists exactly the keys between the bounds that reads find.
pub proof fn law_scan<R: RawKv>(
    e: FlatEngine<R>,
    dir: &[&[u8]],
    start: Bound<&[u8]>,
    end: Bound<&[u8]>,
    forward: bool,
    list: Vec<KvPair>,
    key: &[u8],
    v: Option<Vec<u8>>,
)
    requires
        e.wf(),
        call_ensures(
            FlatEngine::<R>::scan,
            (&e, dir, start, end, forward),
            Ok::<Vec<KvPair>, FlatError<R::Error>>(list),
        ),
        call_ensures(
            FlatEngine::<R>::get,
            (&e, dir, key),
            Ok::<Option<Vec<u8>>, FlatError<R::Error>>(v),
        ),
    ensures
        forall|i: int, j: int|
            #![trigger list@[i], list@[j]]
            0 <= i < j < list@.len() ==> if forward {
                lt(list@[i].key@, list@[j].key@)
            } else {
                lt(list@[j].key@, list@[i].key@)
            },
        forall|i: int|
            0 <= i < list@.len() && (#[trigger] list@[i]).key@ == key@ ==> (v matches Some(w) && w@
                == list@[i].value@),
        v is Some && lies_between(key@, start, end) <==> exists|i: int|
            0 <= i < list@.len() && (#[trigger] list@[i]).key@ == key@,
{
    law_scanned(
        crate::flatengine::dir_content(e.rows(), path_of(dir@)),
        start,
        end,
        forward,
        list@,
    );
}

/// The raw range of a directory's data between bounds holds exactly the raw keys made of
/// its prefix and a key between them; without a range there is no such key.
pub proof fn law_data_bounds<R: RawKv>(
    e: FlatEngine<R>,
    dir: &[&[u8]],
    start: Bound<&[u8]>,
    end: Bound<&[u8]>,
    p: Option<Vec<u8>>,
    b: Option<DataBounds>,
    k: Seq<u8>,
)
    requires
        e.wf(),
        call_ensures(
            FlatEngine::<R>::prefix_of,
            (&e, dir),
            Ok::<Option<Vec<u8>>, FlatError<R::Error>>(p),
        ),
        call_ensures(
            FlatEngine::<R>::data_bounds,
            (&e, dir, start, end),
            Ok::<Option<DataBounds>, FlatError<R::Error>>(b),
        ),
    ensures
        match b {
            Some(bounds) => {
                &&& p matches Some(q) && q@ == bounds.prefix@
                &&& in_range(k, owned_bound_of(bounds.start), owned_bound_of(bounds.end))
                    <==> is_key_between(bounds.prefix@, start, end, k)
            },
            None => p matches Some(q) ==> !is_key_between(q@, start, end, k),
        },
{
    match b {
        Some(bounds) => {
            lemma_key_between(bounds.prefix@, start, end, k);
            assert(in_dir_range(bounds.prefix@, bound_of(start), bound_of(end), k) <==> in_range(
                k,
                owned_bound_of(bounds.start),
                owned_bound_of(bounds.end),
            ));
        },
        None => {
            if p is Some {
                let q = (p->0)@;
                lemma_key_between(q, start, end, k);
                crate::flatdir::model::lemma_packed_successor(q);
                lemma_raw_range_exact(q, bound_of(start), bound_of(end), k);
                if crate::keyspace::crossed(bound_of(start), bound_of(end)) {
                    crate::keyspace::law_crossed_is_empty(
                        bound_of(start),
                        bound_of(end),
                        tail(k, q.len()),
                    );
                } else {
                    lemma_passed_is_empty(
                        crate::flatengine::raw_start(q, bound_of(start)),
                        crate::flatengine::raw_end(q, bound_of(end)),
                        k,
                    );
                }
            }
        },
    }
}

/// Mapped bounds hold exactly the raw keys made of the prefix and a key between the
/// bounds, and are empty only where there is none.
pub proof fn law_map_bounds(
    prefix: &[u8],
    start: Bound<&[u8]>,
    end: Bound<&[u8]>,
    r: (Bound<Vec<u8>>, Bound<Vec<u8>>),
    next: Vec<u8>,
    empty: bool,
    k: Seq<u8>,
)
    requires
        call_ensures(next_prefix, (prefix,), Some(next)),
        call_ensures(map_bounds, (prefix, start, end), r),
        call_ensures(raw_range_empty, (&r.0, &r.1), empty),
    ensures
        in_range(k, owned_bound_of(r.0), owned_bound_of(r.1)) <==> is_key_between(
            prefix@,
            start,
            end,
            k,
        ),
        empty ==> !is_key_between(prefix@, start, end, k),
        !(r.1 is Included),
{
    lemma_key_between(prefix@, start, end, k);
    lemma_raw_range_exact(prefix@, bound_of(start), bound_of(end), k);
    if empty {
        lemma_passed_is_empty(owned_bound_of(r.0), owned_bound_of(r.1), k);
    }
}

/// In a store in order, a directory that was allocated is found under its prefix.
pub proof fn law_allocate_dir<R: RawKv>(
    before: FlatEngine<R>,
    opened: FlatEngine<R>,
    dir: &[&[u8]],
    p: Vec<u8>,
    q: Option<Vec<u8>>,
)
    requires
        before.wf(),
        healthy(before.rows()),
        exists|s: &mut FlatEngine<R>|
            *s == before && *final(s) == opened && #[trigger] call_ensures(
                FlatEngine::<R>::allocate_dir,
                (s, dir),
                Ok::<Vec<u8>, FlatError<R::Error>>(p),
            ),
        call_ensures(
            FlatEngine::<R>::prefix_of,
            (&opened, dir),
            Ok::<Option<Vec<u8>>, FlatError<R::Error>>(q),
        ),
    ensures
        healthy(opened.rows()),
        q matches Some(x) && x@ == p@,
{
    let path = path_of(dir@);
    law_open(before.rows(), path, opened.rows(), p@, path);
}

/// In a store in order, a value that was set stands behind the prefix of its directory.
pub proof fn law_set_raw<R: RawKv>(
    before: FlatEngine<R>,
    set: FlatEngine<R>,
    dir: &[&[u8]],
    key: &[u8],
    value: &[u8],
    w: Option<Vec<u8>>,
)
    requires
        before.wf(),
        healthy(before.rows()),
        exists|s: &mut FlatEngine<R>|
            *s == before && *final(s) == set && #[trigger] call_ensures(
                FlatEngine::<R>::set,
                (s, dir, key, value),
                Ok::<(), FlatError<R::Error>>(()),
            ),
        call_ensures(
            FlatEngine::<R>::prefix_of,
            (&set, dir),
            Ok::<Option<Vec<u8>>, FlatError<R::Error>>(w),
        ),
    ensures
        healthy(set.rows()),
        w matches Some(x) && set.rows().dom().contains(x@ + key@) && set.rows()[x@ + key@]
            == value@,
{
    let path = path_of(dir@);
    let m = set.rows();
    assert(valid_path(path));
    assert(crate::flatengine::sets(before.rows(), path, key@, value@, m));
    law_set_everywhere(before.rows(), path, key@, value@, m);
    lemma_content_row(m, path, (w->0)@, key@);
}

/// What a directory holds under a key stands behind its prefix.
proof fn lemma_content_row(
    m: crate::rawkv::Rows,
    path: Seq<Seq<u8>>,
    p: Seq<u8>,
    key: Seq<u8>,
)
    requires
        crate::flatengine::lookup(m, path) == Ok::<Option<Seq<u8>>, crate::flatengine::Refusal>(
            Some(p),
        ),
        crate::flatengine::dir_content(m, path).dom().contains(key),
    ensures
        m.dom().contains(p + key),
        m[p + key] == crate::flatengine::dir_content(m, path)[key],
{
}

/// In a store in order, different directories have prefixes of which none begins the
/// other: no raw key belongs to both.
pub proof fn law_prefixes_apart<R: RawKv>(
    e: FlatEngine<R>,
    a: &[&[u8]],
    b: &[&[u8]],
    p: Vec<u8>,
    q: Vec<u8>,
    k: Seq<u8>,
)
    requires
        e.wf(),
        healthy(e.rows()),
        call_ensures(
            FlatEngine::<R>::prefix_of,
            (&e, a),
            Ok::<Option<Vec<u8>>, FlatError<R::Error>>(Some(p)),
        ),
        call_ensures(
            FlatEngine::<R>::prefix_of,
            (&e, b),
            Ok::<Option<Vec<u8>>, FlatError<R::Error>>(Some(q)),
        ),
        path_of(a@) != path_of(b@),
    ensures
        !((exists|t: Seq<u8>| k == #[trigger] (p@ + t)) && (exists|t: Seq<u8>|
            k == #[trigger] (q@ + t))),
{
    let x = anchored(path_of(a@));
    let y = anchored(path_of(b@));
    if x == y {
        assert(x.subrange(1, x.len() as int) =~= path_of(a@));
        assert(y.subrange(1, y.len() as int) =~= path_of(b@));
    }
    law_prefix(k, p@);
    law_prefix(k, q@);
    if starts_with(k, p@) && starts_with(k, q@) {
        if p@.len() <= q@.len() {
            crate::bytes::lemma_prefixes_nest(k, p@, q@);
            crate::flatdir::model::lemma_packed_prefix_free(q@, p@);
        } else {
            crate::bytes::lemma_prefixes_nest(k, q@, p@);
            crate::flatdir::model::lemma_packed_prefix_free(p@, q@);
        }
        law_paths_injective(e.rows(), x, y);
    }
}

/// A change of a directory that is found touches the raw keys behind its prefix only: a
/// write puts one row, a delete takes one, a clear takes those between its bounds. Where
/// there is no such directory a delete and a clear change nothing.
pub proof fn law_raw_changes<R: RawKv>(
    before: FlatEngine<R>,
    set: FlatEngine<R>,
    deleted: FlatEngine<R>,
    cleared: FlatEngine<R>,
    dir: &[&[u8]],
    key: &[u8],
    value: &[u8],
    start: Bound<&[u8]>,
    end: Bound<&[u8]>,
    p: Option<Vec<u8>>,
    k: Seq<u8>,
)
    requires
        before.wf(),
        call_ensures(
            FlatEngine::<R>::prefix_of,
            (&before, dir),
            Ok::<Option<Vec<u8>>, FlatError<R::Error>>(p),
        ),
        exists|s: &mut FlatEngine<R>|
            *s == before && *final(s) == set && #[trigger] call_ensures(
                FlatEngine::<R>::set,
                (s, dir, key, value),
                Ok::<(), FlatError<R::Error>>(()),
            ),
        exists|s: &mut FlatEngine<R>|
            *s == before && *final(s) == deleted && #[trigger] call_ensures(
                FlatEngine::<R>::delete,
                (s, dir, key),
                Ok::<(), FlatError<R::Error>>(()),
            ),
        exists|s: &mut FlatEngine<R>|
            *s == before && *final(s) == cleared && #[trigger] call_ensures(
                FlatEngine::<R>::clear_range,
                (s, dir, start, end),
                Ok::<(), FlatError<R::Error>>(()),
            ),
    ensures
        match p {
            Some(q) => {
                &&& row_at(set.rows(), k) == if k == q@ + key@ {
                    Some(value@)
                } else {
                    row_at(before.rows(), k)
                }
                &&& row_at(deleted.rows(), k) == if k == q@ + key@ {
                    None
                } else {
                    row_at(before.rows(), k)
                }
                &&& row_at(cleared.rows(), k) == if is_key_between(q@, start, end, k) {
                    None
                } else {
                    row_at(before.rows(), k)
                }
            },
            None => {
                &&& row_at(deleted.rows(), k) == row_at(before.rows(), k)
                &&& row_at(cleared.rows(), k) == row_at(before.rows(), k)
            },
        },
{
    if let Some(q) = p {
        lemma_key_between(q@, start, end, k);
        let m = before.rows();
        let path = anchored(path_of(dir@));
        let (mid, w) = choose|mid: crate::rawkv::Rows, w: Seq<u8>| #[trigger]
            crate::flatdir::model::opens(m, path, mid, w) && set.rows() == mid.insert(
                w + key@,
                value@,
            );
        assert(mid == m && w == q@);
    }
}

/// A listing of a directory that is found names exactly the texts that have a child row
/// in its node, in ascending order.
pub proof fn law_raw_listing<R: RawKv>(
    e: FlatEngine<R>,
    dir: &[&[u8]],
    p: Option<Vec<u8>>,
    names: Vec<Vec<u8>>,
    seg: Seq<u8>,
    k: Seq<u8>,
)
    requires
        e.wf(),
        call_ensures(
            FlatEngine::<R>::prefix_of,
            (&e, dir),
            Ok::<Option<Vec<u8>>, FlatError<R::Error>>(p),
        ),
        call_ensures(
            FlatEngine::<R>::list_dirs,
            (&e, dir),
            Ok::<Vec<Vec<u8>>, FlatError<R::Error>>(names),
        ),
    ensures
        p is None ==> names@.len() == 0,
        p matches Some(q) ==> ((exists|i: int|
            0 <= i < names@.len() && (#[trigger] names@[i])@ == seg) <==> valid_utf8(seg)
            && e.rows().dom().contains(child_row(node(q@), seg))),
        p matches Some(q) ==> (e.rows().dom().contains(k) && stands_behind(
            node(q@) + seq![0x14u8],
            k,
        ) ==> exists|name: Seq<char>| k == #[trigger] child_row(node(q@), encode_utf8(name))),
        forall|i: int, j: int|
            #![trigger names@[i], names@[j]]
            0 <= i < j < names@.len() ==> lt(names@[i]@, names@[j]@),
{
    let list = crate::flatengine::byte_strings(names@);
    assert forall|i: int, j: int|
        #![trigger names@[i], names@[j]]
        0 <= i < j < names@.len() implies lt(names@[i]@, names@[j]@) by {
        assert(lt(list[i], list[j]));
    }
    if let Some(q) = p {
        assert(int_element(0) =~= seq![0x14u8]);
        lemma_stands_behind(node(q@) + seq![0x14u8], k);
        if e.rows().dom().contains(k) && stands_behind(node(q@) + seq![0x14u8], k) {
            assert(is_child_key(q@, k));
            assert(names_child(q@, k));
        }
        if exists|i: int| 0 <= i < names@.len() && (#[trigger] names@[i])@ == seg {
            let i = choose|i: int| 0 <= i < names@.len() && (#[trigger] names@[i])@ == seg;
            assert(list[i] == seg);
        }
        if valid_utf8(seg) && e.rows().dom().contains(child_row(node(q@), seg)) {
            assert(list.contains(seg));
            let i = choose|i: int| 0 <= i < list.len() && list[i] == seg;
            assert(names@[i]@ == seg);
        }
    }
}

} // verus!
