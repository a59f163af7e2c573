//! Rows, ordered maps, overlays and streams.

use core::ops::Bound;

use vstd::prelude::*;

use crate::btreemap::{key_in_range, stream_from_pairs, BTreeMapError};
use crate::bytemap::ByteMap;
use crate::bytes::{lemma_lt_irreflexive, lemma_order, lt};
use crate::call_laws::cluster::{law_lies_between, lies_between};
use crate::keyspace::{bound_of, in_range};
use crate::overlay::{
    law_overlay_reads, merged_clear, merged_get, merged_scan, overlay, rows_of, Pending,
};
use crate::rawkv::{is_scan, lists_key, row_at, value_of, without_range, Rows};
use crate::stream::{KvPair, KvStream};

verus! {

// ---------------------------------------------------------------------------
// Rows
// ---------------------------------------------------------------------------

/// What a key holds.
pub proof fn law_row(m: Rows, k: Seq<u8>, v: Option<Vec<u8>>, held: Map<Seq<u8>, Vec<u8>>)
    ensures
        row_at(m, k) == if m.dom().contains(k) {
            Some(m[k])
        } else {
            None
        },
        value_of(v) == match v {
            Some(bytes) => Some(bytes@),
            None => None,
        },
        rows_of(held).dom().contains(k) <==> held.dom().contains(k),
        held.dom().contains(k) ==> rows_of(held)[k] == held[k]@,
{
}

/// A pending write hides the row beneath, a pending delete takes it away, and where
/// nothing is pending the row shows.
pub proof fn law_overlaid(base: Rows, pending: Pending, k: Seq<u8>)
    ensures
        pending.dom().contains(k) ==> (pending[k] matches Some(v) ==> overlay(
            base,
            pending,
        ).dom().contains(k) && overlay(base, pending)[k] == v@),
        pending.dom().contains(k) && pending[k] is None ==> !overlay(base, pending).dom().contains(
            k,
        ),
        !pending.dom().contains(k) ==> (overlay(base, pending).dom().contains(k)
            <==> base.dom().contains(k)),
        !pending.dom().contains(k) && base.dom().contains(k) ==> overlay(base, pending)[k]
            == base[k],
{
    law_overlay_reads(base, pending, k);
}

/// A scan lists exactly the rows between its bounds, each once, in order.
pub proof fn law_scanned(
    m: Rows,
    start: Bound<&[u8]>,
    end: Bound<&[u8]>,
    forward: bool,
    list: Seq<KvPair>,
)
    ensures
        is_scan(m, bound_of(start), bound_of(end), forward, list) <==> {
            &&& forall|i: int|
                0 <= i < list.len() ==> m.dom().contains((#[trigger] list[i]).key@)
                    && m[list[i].key@] == list[i].value@ && lies_between(list[i].key@, start, end)
            &&& forall|i: int, j: int|
                #![trigger list[i], list[j]]
                0 <= i < j < list.len() ==> if forward {
                    lt(list[i].key@, list[j].key@)
                } else {
                    lt(list[j].key@, list[i].key@)
                }
            &&& forall|k: Seq<u8>| #[trigger]
                m.dom().contains(k) && lies_between(k, start, end) ==> exists|i: int|
                    0 <= i < list.len() && (#[trigger] list[i]).key@ == k
        },
{
    assert forall|k: Seq<u8>| #[trigger] lies_between(k, start, end) <==> in_range(
        k,
        bound_of(start),
        bound_of(end),
    ) by {
        law_lies_between(k, start, end);
    }
    if is_scan(m, bound_of(start), bound_of(end), forward, list) {
        assert forall|i: int| 0 <= i < list.len() implies m.dom().contains(
            (#[trigger] list[i]).key@,
        ) && m[list[i].key@] == list[i].value@ && lies_between(list[i].key@, start, end) by {
            assert(in_range(list[i].key@, bound_of(start), bound_of(end)));
        }
        assert forall|k: Seq<u8>| #[trigger]
            m.dom().contains(k) && lies_between(k, start, end) implies exists|i: int|
            0 <= i < list.len() && (#[trigger] list[i]).key@ == k by {
            assert(lists_key(list, k));
        }
    } else {
        if (forall|i: int|
            0 <= i < list.len() ==> m.dom().contains((#[trigger] list[i]).key@) && m[list[i].key@]
                == list[i].value@ && lies_between(list[i].key@, start, end)) && (forall|
            k: Seq<u8>,
        | #[trigger]
            m.dom().contains(k) && lies_between(k, start, end) ==> exists|i: int|
                0 <= i < list.len() && (#[trigger] list[i]).key@ == k) && (forall|i: int, j: int|
            #![trigger list[i], list[j]]
            0 <= i < j < list.len() ==> if forward {
                lt(list[i].key@, list[j].key@)
            } else {
                lt(list[j].key@, list[i].key@)
            }) {
            assert forall|k: Seq<u8>| #[trigger]
                m.dom().contains(k) && in_range(k, bound_of(start), bound_of(end)) implies lists_key(
                list,
                k,
            ) by {
                assert(lies_between(k, start, end));
            }
            assert(crate::rawkv::all_rows(m, list));
            assert(crate::rawkv::in_key_order(list, forward));
            assert(false);
        }
    }
}

/// Clearing a range takes exactly the rows between the bounds.
pub proof fn law_without_range(m: Rows, start: Bound<&[u8]>, end: Bound<&[u8]>, k: Seq<u8>)
    ensures
        row_at(without_range(m, bound_of(start), bound_of(end)), k) == if lies_between(
            k,
            start,
            end,
        ) {
            None
        } else {
            row_at(m, k)
        },
{
    law_lies_between(k, start, end);
}

// ---------------------------------------------------------------------------
// Ordered maps
// ---------------------------------------------------------------------------

/// A new map is empty.
pub proof fn law_map_new<V>(map: ByteMap<V>, k: &[u8], got: Option<&V>, n: usize)
    requires
        call_ensures(ByteMap::<V>::new, (), map),
        call_ensures(ByteMap::<V>::get, (&map, k), got),
        call_ensures(ByteMap::<V>::len, (&map,), n),
    ensures
        got is None,
        n == 0,
{
    assert(Map::<Seq<u8>, V>::empty().len() == 0);
}

/// What is put in under a key is found under it, and nothing else changes.
pub proof fn law_map_insert<V>(
    before: ByteMap<V>,
    after: ByteMap<V>,
    k: &[u8],
    v: V,
    q: &[u8],
    had: Option<&V>,
    got: Option<&V>,
    m: usize,
    n: usize,
    there: bool,
)
    requires
        before.wf(),
        exists|s: &mut ByteMap<V>|
            *s == before && *final(s) == after && #[trigger] call_ensures(
                ByteMap::<V>::insert,
                (s, k, v),
                (),
            ),
        call_ensures(ByteMap::<V>::get, (&before, q), had),
        call_ensures(ByteMap::<V>::get, (&after, q), got),
        call_ensures(ByteMap::<V>::contains, (&before, k), there),
        call_ensures(ByteMap::<V>::len, (&before,), m),
        call_ensures(ByteMap::<V>::len, (&after,), n),
    ensures
        after.wf(),
        if q@ == k@ {
            got is Some && *(got->0) == v
        } else {
            match (had, got) {
                (Some(a), Some(b)) => *a == *b,
                (None, None) => true,
                _ => false,
            }
        },
        n == if there {
            m as int
        } else {
            m + 1
        },
{
    before.lemma_finite();
    if there {
        assert(before@.dom().insert(k@) =~= before@.dom());
    }
}

/// What is taken out is gone, and nothing else changes.
pub proof fn law_map_remove<V>(
    before: ByteMap<V>,
    after: ByteMap<V>,
    k: &[u8],
    q: &[u8],
    had: Option<&V>,
    got: Option<&V>,
    there: bool,
    m: usize,
    n: usize,
)
    requires
        before.wf(),
        exists|s: &mut ByteMap<V>|
            *s == before && *final(s) == after && #[trigger] call_ensures(
                ByteMap::<V>::remove,
                (s, k),
                (),
            ),
        call_ensures(ByteMap::<V>::get, (&before, q), had),
        call_ensures(ByteMap::<V>::get, (&after, q), got),
        call_ensures(ByteMap::<V>::contains, (&before, k), there),
        call_ensures(ByteMap::<V>::len, (&before,), m),
        call_ensures(ByteMap::<V>::len, (&after,), n),
    ensures
        after.wf(),
        q@ == k@ ==> got is None,
        q@ != k@ ==> match (had, got) {
            (Some(a), Some(b)) => *a == *b,
            (None, None) => true,
            _ => false,
        },
        n == if there {
            m - 1
        } else {
            m as int
        },
{
    before.lemma_finite();
    if !there {
        assert(before@.remove(k@) =~= before@);
    }
}

/// The entries of a map by position: in key order, each found under its key, and every
/// key that is found has a position.
pub proof fn law_map_positions<V>(
    map: ByteMap<V>,
    n: usize,
    i: usize,
    j: usize,
    a: &[u8],
    b: &[u8],
    v: &V,
    got: Option<&V>,
    q: &[u8],
    at: Option<usize>,
    has: bool,
)
    requires
        map.wf(),
        call_ensures(ByteMap::<V>::len, (&map,), n),
        i < j < n,
        call_ensures(ByteMap::<V>::key_at, (&map, i), a),
        call_ensures(ByteMap::<V>::key_at, (&map, j), b),
        call_ensures(ByteMap::<V>::value_at, (&map, i), v),
        call_ensures(ByteMap::<V>::get, (&map, a), got),
        call_ensures(ByteMap::<V>::find, (&map, q), at),
        call_ensures(ByteMap::<V>::contains, (&map, q), has),
    ensures
        lt(a@, b@),
        got matches Some(w) && *w == *v,
        has <==> at is Some,
        q@ == a@ ==> at == Some(i),
        at matches Some(x) ==> x < n,
{
    map.lemma_at(i as int);
    if q@ == a@ {
        assert(map.at(q@, i as int));
        if at is Some {
            let x = at->0;
            lemma_lt_irreflexive(q@);
            assert(map.key_seq()[x as int] == map.key_seq()[i as int]);
        }
    }
}

/// A range of a map is the run of positions whose keys lie between the bounds; the lower
/// bound of a key is the number of keys before it.
pub proof fn law_map_range<V>(
    map: ByteMap<V>,
    n: usize,
    i: usize,
    a: &[u8],
    start: Bound<&[u8]>,
    end: Bound<&[u8]>,
    r: (usize, usize),
    k: &[u8],
    below: usize,
)
    requires
        map.wf(),
        call_ensures(ByteMap::<V>::len, (&map,), n),
        i < n,
        call_ensures(ByteMap::<V>::key_at, (&map, i), a),
        call_ensures(ByteMap::<V>::range, (&map, &start, &end), r),
        call_ensures(ByteMap::<V>::lower_bound, (&map, k), below),
    ensures
        r.0 <= r.1 <= n,
        r.0 <= i < r.1 <==> lies_between(a@, start, end),
        i < below <==> lt(a@, k@),
        below <= n,
{
    law_lies_between(a@, start, end);
    lemma_order(a@, k@, a@);
    lemma_order(k@, a@, k@);
    assert(map.key_seq()[i as int] == a@);
}

// ---------------------------------------------------------------------------
// Overlays
// ---------------------------------------------------------------------------

/// A merged read is the buffered write where there is one, and the committed value
/// elsewhere.
pub proof fn law_merged_get(
    base: ByteMap<Vec<u8>>,
    buffer: ByteMap<Option<Vec<u8>>>,
    key: &[u8],
    below: Option<&Vec<u8>>,
    above: Option<&Option<Vec<u8>>>,
    r: Option<Vec<u8>>,
)
    requires
        base.wf(),
        buffer.wf(),
        call_ensures(ByteMap::<Vec<u8>>::get, (&base, key), below),
        call_ensures(ByteMap::<Option<Vec<u8>>>::get, (&buffer, key), above),
        call_ensures(merged_get, (&base, &buffer, key), r),
    ensures
        match (above, below) {
            (Some(Some(v)), _) => r matches Some(w) && w@ == v@,
            (Some(None), _) => r is None,
            (None, Some(v)) => r matches Some(w) && w@ == v@,
            (None, None) => r is None,
        },
{
    law_overlay_reads(rows_of(base@), buffer@, key@);
}

/// A merged scan lists exactly the keys between its bounds that a merged read finds, with
/// the value that it finds, in ascending order.
pub proof fn law_merged_scan(
    base: ByteMap<Vec<u8>>,
    buffer: ByteMap<Option<Vec<u8>>>,
    start: Bound<&[u8]>,
    end: Bound<&[u8]>,
    list: Vec<KvPair>,
    key: &[u8],
    r: Option<Vec<u8>>,
)
    requires
        base.wf(),
        buffer.wf(),
        call_ensures(merged_scan, (&base, &buffer, start, end), list),
        call_ensures(merged_get, (&base, &buffer, key), r),
    ensures
        forall|i: int, j: int|
            #![trigger list@[i], list@[j]]
            0 <= i < j < list@.len() ==> lt(list@[i].key@, list@[j].key@),
        forall|i: int|
            0 <= i < list@.len() ==> lies_between((#[trigger] list@[i]).key@, start, end),
        forall|i: int|
            0 <= i < list@.len() && (#[trigger] list@[i]).key@ == key@ ==> (r matches Some(v)
                && list@[i].value@ == v@),
        r is Some && lies_between(key@, start, end) ==> exists|i: int|
            0 <= i < list@.len() && (#[trigger] list@[i]).key@ == key@,
{
    let m = overlay(rows_of(base@), buffer@);
    law_scanned(m, start, end, true, list@);
}

/// After a merged clear no key between the bounds is found, and every other key as before.
pub proof fn law_merged_clear(
    base: ByteMap<Vec<u8>>,
    before: ByteMap<Option<Vec<u8>>>,
    after: ByteMap<Option<Vec<u8>>>,
    start: Bound<&[u8]>,
    end: Bound<&[u8]>,
    key: &[u8],
    had: Option<Vec<u8>>,
    got: Option<Vec<u8>>,
    below: Option<&Vec<u8>>,
    was: Option<&Option<Vec<u8>>>,
    is: Option<&Option<Vec<u8>>>,
)
    requires
        base.wf(),
        before.wf(),
        exists|s: &mut ByteMap<Option<Vec<u8>>>|
            *s == before && *final(s) == after && #[trigger] call_ensures(
                merged_clear,
                (&base, s, start, end),
                (),
            ),
        call_ensures(merged_get, (&base, &before, key), had),
        call_ensures(merged_get, (&base, &after, key), got),
        call_ensures(ByteMap::<Vec<u8>>::get, (&base, key), below),
        call_ensures(ByteMap::<Option<Vec<u8>>>::get, (&before, key), was),
        call_ensures(ByteMap::<Option<Vec<u8>>>::get, (&after, key), is),
    ensures
        if lies_between(key@, start, end) {
            &&& got is None
            &&& is is Some <==> below is Some || was is Some
            &&& is matches Some(v) ==> *v is None
        } else {
            &&& match (had, got) {
                (Some(a), Some(b)) => a@ == b@,
                (None, None) => true,
                _ => false,
            }
            &&& match (was, is) {
                (Some(a), Some(b)) => *a == *b,
                (None, None) => true,
                _ => false,
            }
        },
{
    law_lies_between(key@, start, end);
}

/// A key is found in a range exactly if it lies between the bounds.
pub proof fn law_key_in_range(key: &[u8], start: Bound<&[u8]>, end: Bound<&[u8]>, r: bool)
    requires
        call_ensures(key_in_range, (key, start, end), r),
    ensures
        r <==> lies_between(key@, start, end),
{
    law_lies_between(key@, start, end);
}

// ---------------------------------------------------------------------------
// Streams
// ---------------------------------------------------------------------------

/// A stream over pairs collects to the pairs, in order or backwards.
pub proof fn law_stream_collects<E>(
    pairs: Vec<KvPair>,
    reverse: bool,
    s: KvStream<E>,
    r: Result<Vec<KvPair>, E>,
    in_memory: KvStream<BTreeMapError>,
    t: Result<Vec<KvPair>, BTreeMapError>,
)
    requires
        call_ensures(KvStream::<E>::from_pairs, (pairs, reverse), s),
        call_ensures(KvStream::<E>::collect, (s,), r),
        call_ensures(stream_from_pairs, (pairs, reverse), in_memory),
        call_ensures(KvStream::<BTreeMapError>::collect, (in_memory,), t),
    ensures
        r matches Ok(list) && list@.len() == pairs@.len() && forall|i: int|
            0 <= i < pairs@.len() ==> #[trigger] list@[i] == if reverse {
                pairs@[pairs@.len() - 1 - i]
            } else {
                pairs@[i]
            },
        t matches Ok(list) && list@.len() == pairs@.len() && forall|i: int|
            0 <= i < pairs@.len() ==> #[trigger] list@[i] == if reverse {
                pairs@[pairs@.len() - 1 - i]
            } else {
                pairs@[i]
            },
{
}

/// Taking is collecting and stopping: the first pairs, as many as asked for or as there
/// are. A failure shows only where the pairs before it do not suffice.
pub proof fn law_stream_takes<E>(
    s: KvStream<E>,
    all: Result<Vec<KvPair>, E>,
    limit: usize,
    r: Result<Vec<KvPair>, E>,
)
    requires
        call_ensures(KvStream::<E>::collect, (s,), all),
        call_ensures(KvStream::<E>::take, (s, limit), r),
    ensures
        match all {
            Ok(list) => r matches Ok(taken) && taken@.len() == (if limit <= list@.len() {
                limit as int
            } else {
                list@.len() as int
            }) && forall|i: int| 0 <= i < taken@.len() ==> #[trigger] taken@[i] == list@[i],
            Err(e) => match r {
                Ok(taken) => taken@.len() == limit,
                Err(f) => f == e,
            },
        },
{
}

/// Putting a pair in front of a stream and taking the next one gives both back; so it is
/// with the end and with a failure.
pub proof fn law_stream_cons<E>(
    head: Result<Option<(KvPair, KvStream<E>)>, E>,
    s: KvStream<E>,
    r: Result<Option<(KvPair, KvStream<E>)>, E>,
    all: Result<Vec<KvPair>, E>,
    rest: Result<Vec<KvPair>, E>,
)
    requires
        call_ensures(KvStream::<E>::new, (head,), s),
        call_ensures(KvStream::<E>::next, (s,), r),
        call_ensures(KvStream::<E>::collect, (s,), all),
        head matches Ok(Some((_, tail))) ==> call_ensures(
            KvStream::<E>::collect,
            (tail,),
            rest,
        ),
    ensures
        match head {
            Ok(Some((pair, _))) => {
                &&& r matches Ok(Some((p, _))) && p == pair
                &&& all is Ok <==> rest is Ok
                &&& all is Ok ==> (all->Ok_0)@ == seq![pair] + (rest->Ok_0)@
                &&& all is Err ==> all->Err_0 == rest->Err_0
            },
            Ok(None) => (r matches Ok(None)) && (all matches Ok(list) && list@.len() == 0),
            Err(e) => (r matches Err(f) && f == e) && (all matches Err(g) && g == e),
        },
{
    if let Ok(Some((pair, tail))) = head {
        if let Ok(Some((p, t))) = r {
            assert((seq![pair] + tail.items())[0] == pair);
            assert((seq![p] + t.items())[0] == p);
        } else {
            assert((seq![pair] + tail.items()).len() > 0);
        }
    }
}

/// The next pair is the first of the collected ones, and the rest are the others.
pub proof fn law_stream_next<E>(
    s: KvStream<E>,
    r: Result<Option<(KvPair, KvStream<E>)>, E>,
    all: Result<Vec<KvPair>, E>,
    rest: Result<Vec<KvPair>, E>,
)
    requires
        call_ensures(KvStream::<E>::next, (s,), r),
        call_ensures(KvStream::<E>::collect, (s,), all),
        r matches Ok(Some((_, tail))) ==> call_ensures(KvStream::<E>::collect, (tail,), rest),
    ensures
        match r {
            Ok(Some((pair, _))) => {
                &&& all is Ok <==> rest is Ok
                &&& all is Ok ==> (all->Ok_0)@ == seq![pair] + (rest->Ok_0)@
                &&& all is Err ==> all->Err_0 == rest->Err_0
            },
            Ok(None) => all matches Ok(list) && list@.len() == 0,
            Err(e) => all matches Err(f) && f == e,
        },
{
    if r matches Ok(None) && all is Ok {
        assert((all->Ok_0)@.len() == 0);
    }
}

/// An empty stream has no pairs, and a failed one its failure alone.
pub proof fn law_stream_ends<E>(
    empty: KvStream<E>,
    none: Result<Vec<KvPair>, E>,
    err: E,
    failed: KvStream<E>,
    failure: Result<Option<(KvPair, KvStream<E>)>, E>,
    pairs: Vec<KvPair>,
    then: KvStream<E>,
    n: usize,
    taken: Result<Vec<KvPair>, E>,
    all: Result<Vec<KvPair>, E>,
)
    requires
        call_ensures(KvStream::<E>::empty, (), empty),
        call_ensures(KvStream::<E>::collect, (empty,), none),
        call_ensures(KvStream::<E>::failed, (err,), failed),
        call_ensures(KvStream::<E>::next, (failed,), failure),
        call_ensures(KvStream::<E>::from_pairs_then, (pairs, err), then),
        n == pairs@.len(),
        call_ensures(KvStream::<E>::take, (then, n), taken),
        call_ensures(KvStream::<E>::collect, (then,), all),
    ensures
        none matches Ok(list) && list@.len() == 0,
        failure matches Err(e) && e == err,
        taken matches Ok(list) && list@ == pairs@,
        all matches Err(e) && e == err,
{
    assert(pairs@.subrange(0, n as int) =~= pairs@);
}

/// A visitor is shown what a stream collects, in order, and the failure if there is one.
pub proof fn law_stream_for_each<E>(
    s: KvStream<E>,
    all: Result<Vec<KvPair>, E>,
    before: Vec<KvPair>,
    after: Vec<KvPair>,
    r: Result<(), E>,
)
    requires
        call_ensures(KvStream::<E>::collect, (s,), all),
        exists|v: &mut Vec<KvPair>|
            *v == before && *final(v) == after && #[trigger] call_ensures(
                KvStream::<E>::for_each::<Vec<KvPair>>,
                (s, v),
                r,
            ),
    ensures
        match all {
            Ok(list) => r is Ok && after@ == before@ + list@,
            Err(e) => r matches Err(f) && f == e,
        },
{
}

} // verus!
