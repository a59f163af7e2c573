//! Pending writes over committed rows.
//!
//! A session buffers its writes in an ordered map from keys to values or
//! tombstones. What it reads is the committed map with the buffer laid over it:
//! a buffered value wins over the committed one, a tombstone suppresses it.

use core::ops::Bound;

use vstd::prelude::*;

use crate::bytemap::ByteMap;
use crate::bytes::{
    bytes_eq, bytes_lt, copy_bytes, lemma_lt_irreflexive, lemma_lt_total, lemma_order, lt,
};
use crate::keyspace::{bound_of, in_range};
use crate::rawkv::{in_key_order, is_scan, lists_key, row_at, value_of, without_range, Rows};
use crate::stream::KvPair;

verus! {

/// The rows of an ordered map of values.
pub open spec fn rows_of(m: Map<Seq<u8>, Vec<u8>>) -> Rows {
    Map::new(|k: Seq<u8>| m.dom().contains(k), |k: Seq<u8>| m[k]@)
}

/// Pending writes: a value to set, or `None` to delete.
pub type Pending = Map<Seq<u8>, Option<Vec<u8>>>;

/// What a read finds once the pending writes are laid over the rows.
pub open spec fn overlaid_at(base: Rows, pending: Pending, k: Seq<u8>) -> Option<Seq<u8>> {
    if pending.dom().contains(k) {
        value_of(pending[k])
    } else {
        row_at(base, k)
    }
}

/// The rows with the pending writes laid over them.
pub open spec fn overlay(base: Rows, pending: Pending) -> Rows {
    Map::new(
        |k: Seq<u8>| overlaid_at(base, pending, k) is Some,
        |k: Seq<u8>| overlaid_at(base, pending, k)->0,
    )
}

/// Reading the overlaid rows is reading the pending writes first.
pub proof fn law_overlay_reads(base: Rows, pending: Pending, k: Seq<u8>)
    ensures
        row_at(overlay(base, pending), k) == overlaid_at(base, pending, k),
{
}

/// Without pending writes a session sees the committed rows.
pub proof fn law_overlay_empty(base: Rows)
    ensures
        overlay(base, Map::empty()) == base,
{
    assert(overlay(base, Map::empty()) =~= base);
}

/// A buffered set is a set of the rows that the session sees.
pub proof fn law_overlay_set(base: Rows, pending: Pending, k: Seq<u8>, v: Vec<u8>)
    ensures
        overlay(base, pending.insert(k, Some(v))) == overlay(base, pending).insert(k, v@),
{
    assert(overlay(base, pending.insert(k, Some(v))) =~= overlay(base, pending).insert(k, v@));
}

/// A tombstone is a deletion from the rows that the session sees.
pub proof fn law_overlay_delete(base: Rows, pending: Pending, k: Seq<u8>)
    ensures
        overlay(base, pending.insert(k, None)) == overlay(base, pending).remove(k),
{
    assert(overlay(base, pending.insert(k, None)) =~= overlay(base, pending).remove(k));
}

/// An owned copy of an optional value.
pub(crate) fn copy_value(v: &Option<Vec<u8>>) -> (r: Option<Vec<u8>>)
    ensures
        value_of(r) == value_of(*v),
{
    match v {
        Some(b) => Some(copy_bytes(b.as_slice())),
        None => None,
    }
}

/// Read one raw key: the buffer wins over the base (a buffered set or a
/// tombstone suppresses the base value).
pub fn merged_get(base: &ByteMap<Vec<u8>>, buffer: &ByteMap<Option<Vec<u8>>>, key: &[u8]) -> (r:
    Option<Vec<u8>>)
    requires
        base.wf(),
        buffer.wf(),
    ensures
        value_of(r) == row_at(overlay(rows_of(base@), buffer@), key@),
{
    if let Some(value) = buffer.get(key) {
        return copy_value(value);
    }
    match base.get(key) {
        Some(value) => Some(copy_bytes(value.as_slice())),
        None => None,
    }
}

/// Whether every row in the range is listed or stands at or behind one of the
/// two positions.
spec fn all_ahead(
    base: ByteMap<Vec<u8>>,
    buffer: ByteMap<Option<Vec<u8>>>,
    start: Bound<Seq<u8>>,
    end: Bound<Seq<u8>>,
    list: Seq<KvPair>,
    i: int,
    hi: int,
    j: int,
    hj: int,
) -> bool {
    forall|k: Seq<u8>|
        #![trigger overlaid_at(rows_of(base@), buffer@, k)]
        overlaid_at(rows_of(base@), buffer@, k) is Some && in_range(k, start, end) ==> {
            ||| lists_key(list, k)
            ||| exists|a: int| i <= a < hi && #[trigger] base.at(k, a)
            ||| exists|b: int| j <= b < hj && #[trigger] buffer.at(k, b)
        }
}

/// A listed key stays listed when the list grows.
proof fn lemma_lists_key_push(list: Seq<KvPair>, pair: KvPair, k: Seq<u8>)
    ensures
        lists_key(list.push(pair), k) <==> lists_key(list, k) || pair.key@ == k,
{
    let longer = list.push(pair);
    if lists_key(list, k) {
        let i = choose|i: int| 0 <= i < list.len() && (#[trigger] list[i]).key@ == k;
        assert(longer[i].key@ == k);
    }
    if pair.key@ == k {
        assert(longer[list.len() as int].key@ == k);
    }
    if lists_key(longer, k) && pair.key@ != k {
        let i = choose|i: int| 0 <= i < longer.len() && (#[trigger] longer[i]).key@ == k;
        assert(list[i].key@ == k);
    }
}

/// Scan raw rows in `start..end`, merging the committed map and the buffer: a
/// buffered value wins, a tombstone suppresses, ascending.
pub fn merged_scan(
    base: &ByteMap<Vec<u8>>,
    buffer: &ByteMap<Option<Vec<u8>>>,
    start: Bound<&[u8]>,
    end: Bound<&[u8]>,
) -> (r: Vec<KvPair>)
    requires
        base.wf(),
        buffer.wf(),
    ensures
        is_scan(overlay(rows_of(base@), buffer@), bound_of(start), bound_of(end), true, r@),
{
    let ghost rows = rows_of(base@);
    let ghost m = overlay(rows, buffer@);
    let ghost from = bound_of(start);
    let ghost to = bound_of(end);
    let ghost bk = base.key_seq();
    let ghost uk = buffer.key_seq();
    let (lo1, hi) = base.range(&start, &end);
    let (lo2, hj) = buffer.range(&start, &end);
    let mut i: usize = lo1;
    let mut j: usize = lo2;
    let mut list: Vec<KvPair> = Vec::new();
    proof {
        assert forall|k: Seq<u8>|
            #![trigger overlaid_at(rows, buffer@, k)]
            overlaid_at(rows, buffer@, k) is Some && in_range(k, from, to) implies {
            ||| lists_key(list@, k)
            ||| exists|a: int| i <= a < hi && #[trigger] base.at(k, a)
            ||| exists|b: int| j <= b < hj && #[trigger] buffer.at(k, b)
        } by {
            if buffer@.dom().contains(k) {
                buffer.lemma_position(k);
                let b = buffer.position(k);
                assert(uk[b] == k);
                assert(j <= b < hj && buffer.at(k, b));
            } else {
                base.lemma_position(k);
                let a = base.position(k);
                assert(bk[a] == k);
                assert(i <= a < hi && base.at(k, a));
            }
        }
    }
    while i < hi || j < hj
        invariant
            base.wf(),
            buffer.wf(),
            rows == rows_of(base@),
            m == overlay(rows, buffer@),
            from == bound_of(start),
            to == bound_of(end),
            bk == base.key_seq(),
            uk == buffer.key_seq(),
            lo1 <= i <= hi <= bk.len(),
            lo2 <= j <= hj <= uk.len(),
            forall|a: int|
                0 <= a < bk.len() ==> (lo1 <= a < hi <==> in_range(#[trigger] bk[a], from, to)),
            forall|b: int|
                0 <= b < uk.len() ==> (lo2 <= b < hj <==> in_range(#[trigger] uk[b], from, to)),
            crate::rawkv::all_rows(m, list@),
            in_key_order(list@, true),
            forall|n: int| 0 <= n < list@.len() ==> in_range((#[trigger] list@[n]).key@, from, to),
            forall|n: int|
                0 <= n < list@.len() && i < hi ==> lt((#[trigger] list@[n]).key@, bk[i as int]),
            forall|n: int|
                0 <= n < list@.len() && j < hj ==> lt((#[trigger] list@[n]).key@, uk[j as int]),
            forall|b: int| lo2 <= b < j && i < hi ==> lt(#[trigger] uk[b], bk[i as int]),
            forall|a: int| lo1 <= a < i && j < hj ==> lt(#[trigger] bk[a], uk[j as int]),
            all_ahead(*base, *buffer, from, to, list@, i as int, hi as int, j as int, hj as int),
        decreases (hi - i) + (hj - j),
    {
        let ghost before = list@;
        let ghost i0 = i as int;
        let ghost j0 = j as int;
        let take_base = i < hi && (j >= hj || bytes_lt(base.key_at(i), buffer.key_at(j)));
        if take_base {
            let key = base.key_at(i);
            let ghost k = bk[i0];
            proof {
                base.lemma_at(i0);
                if buffer@.dom().contains(k) {
                    buffer.lemma_position(k);
                    let b = buffer.position(k);
                    assert(uk[b] == k);
                    assert(lo2 <= b < hj);
                    lemma_lt_irreflexive(k);
                    if b >= j0 {
                        if b > j0 {
                            assert(lt(uk[j0], uk[b]));
                        }
                        lemma_order(k, uk[j0], k);
                    }
                    assert(false);
                }
                assert(overlaid_at(rows, buffer@, k) == Some(base@[k]@));
                assert(m.dom().contains(k));
                assert(in_range(bk[i0], from, to));
            }
            let pair = KvPair {
                key: copy_bytes(key),
                value: copy_bytes(base.value_at(i).as_slice()),
            };
            list.push(pair);
            i = i + 1;
            proof {
                assert forall|n: int| 0 <= n < list@.len() && i < hi implies lt(
                    (#[trigger] list@[n]).key@,
                    bk[i as int],
                ) by {
                    lemma_order(list@[n].key@, k, bk[i as int]);
                    assert(lt(bk[i0], bk[i as int]));
                }
                assert forall|b: int| lo2 <= b < j && i < hi implies lt(
                    #[trigger] uk[b],
                    bk[i as int],
                ) by {
                    assert(lt(bk[i0], bk[i as int]));
                    lemma_order(uk[b], bk[i0], bk[i as int]);
                }
            }
        } else {
            let both = i < hi && bytes_eq(base.key_at(i), buffer.key_at(j));
            let key = buffer.key_at(j);
            let ghost k = uk[j0];
            proof {
                buffer.lemma_at(j0);
                assert(in_range(uk[j0], from, to));
                if i0 < hi {
                    lemma_lt_total(bk[i0], uk[j0]);
                }
            }
            match buffer.value_at(j) {
                Some(value) => {
                    proof {
                        assert(overlaid_at(rows, buffer@, k) == Some(value@));
                        assert(m.dom().contains(k));
                    }
                    let pair = KvPair {
                        key: copy_bytes(key),
                        value: copy_bytes(value.as_slice()),
                    };
                    list.push(pair);
                },
                None => {
                    assert(overlaid_at(rows, buffer@, k) is None);
                },
            }
            if both {
                i = i + 1;
            }
            j = j + 1;
            proof {
                assert forall|n: int| 0 <= n < list@.len() && i < hi implies lt(
                    (#[trigger] list@[n]).key@,
                    bk[i as int],
                ) by {
                    if both {
                        assert(lt(bk[i0], bk[i as int]));
                    }
                    lemma_order(list@[n].key@, k, bk[i as int]);
                }
                assert forall|n: int| 0 <= n < list@.len() && j < hj implies lt(
                    (#[trigger] list@[n]).key@,
                    uk[j as int],
                ) by {
                    assert(lt(uk[j0], uk[j as int]));
                    lemma_order(list@[n].key@, k, uk[j as int]);
                }
                assert forall|b: int| lo2 <= b < j && i < hi implies lt(
                    #[trigger] uk[b],
                    bk[i as int],
                ) by {
                    if both {
                        assert(lt(bk[i0], bk[i as int]));
                        if b < j0 {
                            lemma_order(uk[b], bk[i0], bk[i as int]);
                        }
                    }
                }
                assert forall|a: int| lo1 <= a < i && j < hj implies lt(
                    #[trigger] bk[a],
                    uk[j as int],
                ) by {
                    assert(lt(uk[j0], uk[j as int]));
                    if a < i0 {
                        lemma_order(bk[a], uk[j0], uk[j as int]);
                    }
                }
            }
        }
        proof {
            assert forall|k: Seq<u8>|
                #![trigger overlaid_at(rows, buffer@, k)]
                overlaid_at(rows, buffer@, k) is Some && in_range(k, from, to) implies {
                ||| lists_key(list@, k)
                ||| exists|a: int| i <= a < hi && #[trigger] base.at(k, a)
                ||| exists|b: int| j <= b < hj && #[trigger] buffer.at(k, b)
            } by {
                if list@.len() > before.len() {
                    lemma_lists_key_push(before, list@.last(), k);
                    assert(list@ =~= before.push(list@.last()));
                }
                if !lists_key(list@, k) {
                    if exists|a: int| i0 <= a < hi && #[trigger] base.at(k, a) {
                        let a = choose|a: int| i0 <= a < hi && #[trigger] base.at(k, a);
                        if a >= i {
                            assert(base.at(k, a));
                        } else {
                            // The key at the position passed is listed, or a
                            // tombstone hides it.
                            assert(bk[i0] == k);
                        }
                    } else {
                        let b = choose|b: int| j0 <= b < hj && #[trigger] buffer.at(k, b);
                        if b >= j {
                            assert(buffer.at(k, b));
                        } else {
                            assert(uk[j0] == k);
                        }
                    }
                }
            }
        }
    }
    proof {
        assert forall|k: Seq<u8>| #[trigger]
            m.dom().contains(k) && in_range(k, from, to) implies lists_key(list@, k) by {
            assert(overlaid_at(rows, buffer@, k) is Some);
        }
    }
    list
}

/// The keys at the positions `lo..hi`.
pub(crate) fn keys_between<V>(map: &ByteMap<V>, lo: usize, hi: usize) -> (r: Vec<Vec<u8>>)
    requires
        map.wf(),
        lo <= hi <= map.key_seq().len(),
    ensures
        r@.len() == hi - lo,
        forall|i: int| 0 <= i < r@.len() ==> (#[trigger] r@[i])@ == map.key_seq()[lo + i],
{
    let mut keys: Vec<Vec<u8>> = Vec::new();
    let mut i: usize = lo;
    while i < hi
        invariant
            map.wf(),
            lo <= i <= hi <= map.key_seq().len(),
            keys@.len() == i - lo,
            forall|n: int| 0 <= n < keys@.len() ==> (#[trigger] keys@[n])@ == map.key_seq()[lo + n],
        decreases hi - i,
    {
        keys.push(copy_bytes(map.key_at(i)));
        i = i + 1;
    }
    keys
}

/// Whether one of the keys is `k`.
pub open spec fn among(keys: Seq<Vec<u8>>, n: int, k: Seq<u8>) -> bool {
    exists|i: int| 0 <= i < n && (#[trigger] keys[i])@ == k
}

/// Puts a tombstone under each of the keys.
fn bury(buffer: &mut ByteMap<Option<Vec<u8>>>, keys: &Vec<Vec<u8>>)
    requires
        old(buffer).wf(),
    ensures
        final(buffer).wf(),
        forall|k: Seq<u8>|
            #![trigger final(buffer)@.dom().contains(k)]
            final(buffer)@.dom().contains(k) <==> (old(buffer)@.dom().contains(k) || among(
                keys@,
                keys@.len() as int,
                k,
            )),
        forall|k: Seq<u8>|
            #![trigger final(buffer)@[k]]
            final(buffer)@.dom().contains(k) ==> final(buffer)@[k] == if among(
                keys@,
                keys@.len() as int,
                k,
            ) {
                None
            } else {
                old(buffer)@[k]
            },
{
    let ghost old_map = buffer@;
    let mut i: usize = 0;
    while i < keys.len()
        invariant
            i <= keys@.len(),
            buffer.wf(),
            forall|k: Seq<u8>|
                #![trigger buffer@.dom().contains(k)]
                buffer@.dom().contains(k) <==> (old_map.dom().contains(k) || among(
                    keys@,
                    i as int,
                    k,
                )),
            forall|k: Seq<u8>|
                #![trigger buffer@[k]]
                buffer@.dom().contains(k) ==> buffer@[k] == if among(keys@, i as int, k) {
                    None
                } else {
                    old_map[k]
                },
        decreases keys.len() - i,
    {
        let ghost before = buffer@;
        let ghost here = keys@[i as int]@;
        buffer.insert(keys[i].as_slice(), None);
        proof {
            assert forall|k: Seq<u8>| among(keys@, i + 1, k) <==> (among(keys@, i as int, k) || k
                == here) by {
                if among(keys@, i as int, k) {
                    let n = choose|n: int| 0 <= n < i && (#[trigger] keys@[n])@ == k;
                    assert(0 <= n < i + 1 && keys@[n]@ == k);
                }
                if k == here {
                    assert(keys@[i as int]@ == k);
                }
            }
            assert forall|k: Seq<u8>|
                #![trigger buffer@.dom().contains(k)]
                buffer@.dom().contains(k) <==> (old_map.dom().contains(k) || among(
                    keys@,
                    i + 1,
                    k,
                )) by {
                assert(before.dom().contains(k) || !before.dom().contains(k));
            }
            assert forall|k: Seq<u8>|
                #![trigger buffer@[k]]
                buffer@.dom().contains(k) implies buffer@[k] == if among(keys@, i + 1, k) {
                None
            } else {
                old_map[k]
            } by {
                assert(before.dom().contains(k) || !before.dom().contains(k));
                if k != here {
                    assert(buffer@[k] == before[k]);
                }
            }
        }
        i = i + 1;
    }
}

/// Whether a buffer was cleared between two bounds: within them, each key that the
/// base or the buffer held is a tombstone and no other key is there; outside of
/// them the buffer is as it was.
pub open spec fn is_buried<V>(
    base: Map<Seq<u8>, V>,
    before: Pending,
    after: Pending,
    start: Bound<Seq<u8>>,
    end: Bound<Seq<u8>>,
) -> bool {
    &&& forall|k: Seq<u8>|
        in_range(k, start, end) ==> (#[trigger] after.dom().contains(k) <==> base.dom().contains(k)
            || before.dom().contains(k))
    &&& forall|k: Seq<u8>| #[trigger]
        after.dom().contains(k) && in_range(k, start, end) ==> after[k] is None
    &&& forall|k: Seq<u8>|
        !in_range(k, start, end) ==> (#[trigger] after.dom().contains(k) <==> before.dom().contains(
            k,
        ))
    &&& forall|k: Seq<u8>| #[trigger]
        after.dom().contains(k) && !in_range(k, start, end) ==> after[k] == before[k]
}

/// Tombstone every base-plus-buffered key in `start..end` into `buffer`.
pub fn merged_clear(
    base: &ByteMap<Vec<u8>>,
    buffer: &mut ByteMap<Option<Vec<u8>>>,
    start: Bound<&[u8]>,
    end: Bound<&[u8]>,
)
    requires
        base.wf(),
        old(buffer).wf(),
    ensures
        final(buffer).wf(),
        is_buried(base@, old(buffer)@, final(buffer)@, bound_of(start), bound_of(end)),
        overlay(rows_of(base@), final(buffer)@) == without_range(
            overlay(rows_of(base@), old(buffer)@),
            bound_of(start),
            bound_of(end),
        ),
{
    let ghost rows = rows_of(base@);
    let ghost from = bound_of(start);
    let ghost to = bound_of(end);
    let ghost b0 = *buffer;
    let (lo1, hi1) = base.range(&start, &end);
    let committed = keys_between(base, lo1, hi1);
    bury(buffer, &committed);
    let ghost b1 = *buffer;
    let (lo2, hi2) = buffer.range(&start, &end);
    let buffered = keys_between(buffer, lo2, hi2);
    bury(buffer, &buffered);
    proof {
        let n1 = committed@.len() as int;
        let n2 = buffered@.len() as int;
        assert forall|k: Seq<u8>| among(committed@, n1, k) <==> (base@.dom().contains(k) && in_range(
            k,
            from,
            to,
        )) by {
            lemma_among_range(*base, lo1 as int, hi1 as int, from, to, committed@, k);
        }
        assert forall|k: Seq<u8>| among(buffered@, n2, k) <==> (b1@.dom().contains(k) && in_range(
            k,
            from,
            to,
        )) by {
            lemma_among_range(b1, lo2 as int, hi2 as int, from, to, buffered@, k);
        }
        assert forall|k: Seq<u8>|
            (#[trigger] buffer@.dom().contains(k) <==> b0@.dom().contains(k) || (in_range(
                k,
                from,
                to,
            ) && base@.dom().contains(k))) && (buffer@.dom().contains(k) ==> buffer@[k] == if in_range(
                k,
                from,
                to,
            ) {
                None
            } else {
                b0@[k]
            }) by {
            assert(buffer@.dom().contains(k) <==> (b1@.dom().contains(k) || among(
                buffered@,
                n2,
                k,
            )));
            assert(b1@.dom().contains(k) <==> (b0@.dom().contains(k) || among(committed@, n1, k)));
            if buffer@.dom().contains(k) {
                assert(buffer@[k] == if among(buffered@, n2, k) {
                    None
                } else {
                    b1@[k]
                });
            }
            if b1@.dom().contains(k) {
                assert(b1@[k] == if among(committed@, n1, k) {
                    None
                } else {
                    b0@[k]
                });
            }
        }
        let a = overlay(rows, buffer@);
        let b = without_range(overlay(rows, b0@), from, to);
        assert forall|k: Seq<u8>| row_at(a, k) == row_at(b, k) by {
            assert(buffer@.dom().contains(k) <==> (b1@.dom().contains(k) || among(
                buffered@,
                n2,
                k,
            )));
            assert(b1@.dom().contains(k) <==> (b0@.dom().contains(k) || among(committed@, n1, k)));
            if buffer@.dom().contains(k) {
                assert(buffer@[k] == if among(buffered@, n2, k) {
                    None
                } else {
                    b1@[k]
                });
            }
            if b1@.dom().contains(k) {
                assert(b1@[k] == if among(committed@, n1, k) {
                    None
                } else {
                    b0@[k]
                });
            }
            law_overlay_reads(rows, buffer@, k);
            law_overlay_reads(rows, b0@, k);
        }
        assert forall|k: Seq<u8>| a.dom().contains(k) <==> b.dom().contains(k) by {
            assert(row_at(a, k) == row_at(b, k));
        }
        assert forall|k: Seq<u8>| a.dom().contains(k) implies a[k] == b[k] by {
            assert(row_at(a, k) == row_at(b, k));
        }
        assert(a =~= b);
    }
}

/// The keys at the positions of a range are the keys in the range.
pub proof fn lemma_among_range<V>(
    map: ByteMap<V>,
    lo: int,
    hi: int,
    from: Bound<Seq<u8>>,
    to: Bound<Seq<u8>>,
    keys: Seq<Vec<u8>>,
    k: Seq<u8>,
)
    requires
        map.wf(),
        0 <= lo <= hi <= map.key_seq().len(),
        forall|i: int|
            0 <= i < map.key_seq().len() ==> (lo <= i < hi <==> in_range(
                #[trigger] map.key_seq()[i],
                from,
                to,
            )),
        keys.len() == hi - lo,
        forall|i: int| 0 <= i < keys.len() ==> (#[trigger] keys[i])@ == map.key_seq()[lo + i],
    ensures
        among(keys, keys.len() as int, k) <==> (map@.dom().contains(k) && in_range(k, from, to)),
{
    if among(keys, keys.len() as int, k) {
        let i = choose|i: int| 0 <= i < keys.len() && (#[trigger] keys[i])@ == k;
        map.lemma_at(lo + i);
        assert(in_range(map.key_seq()[lo + i], from, to));
    }
    if map@.dom().contains(k) && in_range(k, from, to) {
        map.lemma_position(k);
        let p = map.position(k);
        assert(map.key_seq()[p] == k);
        assert(keys[p - lo]@ == k);
    }
}

/// The overlaid rows of two ordered maps are finitely many.
pub proof fn lemma_overlay_finite(base: ByteMap<Vec<u8>>, buffer: ByteMap<Option<Vec<u8>>>)
    ensures
        overlay(rows_of(base@), buffer@).dom().finite(),
{
    base.lemma_finite();
    buffer.lemma_finite();
    let all = base@.dom().union(buffer@.dom());
    assert(overlay(rows_of(base@), buffer@).dom().subset_of(all));
    vstd::set_lib::lemma_len_subset(overlay(rows_of(base@), buffer@).dom(), all);
}

} // verus!
