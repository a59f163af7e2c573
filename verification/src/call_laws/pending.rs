//! What counts as pending: every change that a session makes is handed over at its commit,
//! and counts once.

use core::ops::Bound;

use vstd::prelude::*;
use vstd::utf8::{encode_utf8, encode_utf8_valid_utf8};

use crate::btreemap::{BTreeMapError, BTreeMapTransaction};
use crate::directory_laws::{clears, law_delete};
use crate::flatdir::model::opens;
use crate::flatdir::touch::only_adds;
use crate::flatengine::{anchored, dir_content, lookup};
use crate::indexeddb::error::IndexedDbError;
use crate::indexeddb::session::IndexedDbTransaction;
use crate::key::path_of;
use crate::keyspace::bound_of;
use crate::nav::KvDirNav;
use crate::rawkv::{is_scan, lists_key, row_at, Rows};
use crate::store::KvStore;
use crate::stream::{KvPair, KvStream};

verus! {

/// A set that grew has as many members at least, and one at least where a member is known.
proof fn lemma_at_least_one(a: Set<Seq<u8>>, b: Set<Seq<u8>>)
    requires
        b.finite(),
        a.subset_of(b),
    ensures
        a.len() <= b.len(),
        (exists|k: Seq<u8>| b.contains(k)) ==> b.len() >= 1,
{
    vstd::set_lib::lemma_len_subset(a, b);
    if exists|k: Seq<u8>| b.contains(k) {
        let k = choose|k: Seq<u8>| b.contains(k);
        if b.len() == 0 {
            assert(b =~= Set::empty());
        }
    }
}

/// Rows that read the same under every key are the same.
proof fn lemma_same_rows(a: Rows, b: Rows)
    requires
        forall|k: Seq<u8>| row_at(a, k) == row_at(b, k),
    ensures
        a == b,
{
    assert forall|k: Seq<u8>| a.dom().contains(k) <==> b.dom().contains(k) by {
        assert(row_at(a, k) == row_at(b, k));
    }
    assert forall|k: Seq<u8>| a.dom().contains(k) implies a[k] == b[k] by {
        assert(row_at(a, k) == row_at(b, k));
    }
    assert(a =~= b);
}

/// The rows that a clear takes are as many as a scan of the range lists.
proof fn lemma_cleared_rows(
    m0: Rows,
    dir: Seq<Seq<u8>>,
    start: Bound<Seq<u8>>,
    end: Bound<Seq<u8>>,
    m1: Rows,
    list: Seq<KvPair>,
)
    requires
        clears(m0, dir, start, end, m1),
        is_scan(dir_content(m0, dir), start, end, true, list),
    ensures
        m0.dom().difference(m1.dom()).finite(),
        m0.dom().difference(m1.dom()).len() <= list.len(),
        list.len() > 0 ==> exists|k: Seq<u8>| m0.dom().difference(m1.dom()).contains(k),
{
    let gone = m0.dom().difference(m1.dom());
    match lookup(m0, dir) {
        Ok(Some(p)) => {
            let keys = Seq::new(list.len(), |i: int| p + list[i].key@);
            assert forall|k: Seq<u8>| gone.contains(k) implies keys.to_set().contains(k) by {
                let t = crate::bytes::tail(k, p.len());
                crate::bytes::lemma_starts_with_split(k, p);
                assert(dir_content(m0, dir).dom().contains(t));
                assert(lists_key(list, t));
                let i = choose|i: int| 0 <= i < list.len() && (#[trigger] list[i]).key@ == t;
                assert(keys[i] == k);
            }
            keys.lemma_cardinality_of_set();
            vstd::set_lib::lemma_len_subset(gone, keys.to_set());
            if list.len() > 0 {
                let t = list[0].key@;
                crate::bytes::lemma_starts_with_concat(p, t);
                assert(dir_content(m0, dir).dom().contains(t));
                assert(gone.contains(p + t));
            }
        },
        _ => {
            assert(gone =~= Set::empty());
            if list.len() > 0 {
                assert(dir_content(m0, dir).dom().contains(list[0].key@));
            }
        },
    }
}

/// A write is pending once it is made, and counts once: the first one into a directory
/// adds what the directory needs, a write into one that exists at most its own key.
pub proof fn law_map_pending_set<'s>(
    before: BTreeMapTransaction<'s>,
    after: BTreeMapTransaction<'s>,
    dir: &[&[u8]],
    key: &[u8],
    value: &[u8],
    there: bool,
    m: usize,
    n: usize,
)
    requires
        before.wf(),
        exists|s: &mut BTreeMapTransaction<'s>|
            *s == before && *final(s) == after && #[trigger] call_ensures(
                BTreeMapTransaction::set,
                (s, dir, key, value),
                Ok::<(), BTreeMapError>(()),
            ),
        call_ensures(
            BTreeMapTransaction::dir_exists,
            (&before, dir),
            Ok::<bool, BTreeMapError>(there),
        ),
        call_ensures(BTreeMapTransaction::pending_len, (&before,), m),
        call_ensures(BTreeMapTransaction::pending_len, (&after,), n),
    ensures
        n >= 1,
        n >= m,
        there ==> n <= m + 1,
{
    before.lemma_pending_finite();
    after.lemma_pending_finite();
    let t0 = before.pending().dom();
    let t1 = after.pending().dom();
    let path = path_of(dir@);
    if there {
        let p = (lookup(before.rows(), path)->Ok_0)->0;
        assert(t1 == t0.insert(p + key@));
        assert(t1.contains(p + key@));
    } else {
        let m0 = before.rows();
        let (mid, p, created) = choose|mid: Rows, p: Seq<u8>, created: Set<Seq<u8>>|
            #![trigger opens(m0, anchored(path), mid, p), only_adds(m0, mid, t0, created)]
            opens(m0, anchored(path), mid, p) && only_adds(m0, mid, t0, created) && t1
                == created.insert(p + key@);
        assert(t1.contains(p + key@));
        assert(t0.subset_of(t1));
    }
    lemma_at_least_one(t0, t1);
}

/// A delete is pending once it is made, whether or not there was such a key, and counts
/// once; in a directory that does not exist there is nothing to delete.
pub proof fn law_map_pending_delete<'s>(
    before: BTreeMapTransaction<'s>,
    after: BTreeMapTransaction<'s>,
    again: BTreeMapTransaction<'s>,
    dir: &[&[u8]],
    key: &[u8],
    there: bool,
    m: usize,
    n: usize,
    o: usize,
)
    requires
        before.wf(),
        before.in_order(),
        exists|s: &mut BTreeMapTransaction<'s>|
            *s == before && *final(s) == after && #[trigger] call_ensures(
                BTreeMapTransaction::delete,
                (s, dir, key),
                Ok::<(), BTreeMapError>(()),
            ),
        exists|s: &mut BTreeMapTransaction<'s>|
            *s == after && *final(s) == again && #[trigger] call_ensures(
                BTreeMapTransaction::delete,
                (s, dir, key),
                Ok::<(), BTreeMapError>(()),
            ),
        call_ensures(
            BTreeMapTransaction::dir_exists,
            (&before, dir),
            Ok::<bool, BTreeMapError>(there),
        ),
        call_ensures(BTreeMapTransaction::pending_len, (&before,), m),
        call_ensures(BTreeMapTransaction::pending_len, (&after,), n),
        call_ensures(BTreeMapTransaction::pending_len, (&again,), o),
    ensures
        there ==> 1 <= n && m <= n <= m + 1,
        !there ==> n == m,
        o == n,
{
    before.lemma_pending_finite();
    after.lemma_pending_finite();
    again.lemma_pending_finite();
    let t0 = before.pending().dom();
    let path = path_of(dir@);
    if there {
        let p = (lookup(before.rows(), path)->Ok_0)->0;
        let t1 = t0.insert(p + key@);
        let below = path.push(encode_utf8(Seq::<char>::empty()));
        encode_utf8_valid_utf8(Seq::<char>::empty());
        assert(t1.contains(p + key@));
        lemma_at_least_one(t0, t1);
        law_delete(before.rows(), path, key@, p, below);
        assert(t1.insert(p + key@) =~= t1);
    }
}

/// A clear leaves a delete pending for each key that it takes, and none where there is
/// nothing to take.
pub proof fn law_map_pending_clear<'s>(
    before: BTreeMapTransaction<'s>,
    after: BTreeMapTransaction<'s>,
    dir: &[&[u8]],
    start: Bound<&[u8]>,
    end: Bound<&[u8]>,
    stream: KvStream<BTreeMapError>,
    list: Vec<KvPair>,
    m: usize,
    n: usize,
)
    requires
        before.wf(),
        before.in_order(),
        exists|s: &mut BTreeMapTransaction<'s>|
            *s == before && *final(s) == after && #[trigger] call_ensures(
                BTreeMapTransaction::clear_range,
                (s, dir, start, end),
                Ok::<(), BTreeMapError>(()),
            ),
        call_ensures(BTreeMapTransaction::range, (&before, dir, start, end, false), stream),
        call_ensures(
            KvStream::<BTreeMapError>::collect,
            (stream,),
            Ok::<Vec<KvPair>, BTreeMapError>(list),
        ),
        call_ensures(BTreeMapTransaction::pending_len, (&before,), m),
        call_ensures(BTreeMapTransaction::pending_len, (&after,), n),
    ensures
        m <= n <= m + list@.len(),
        list@.len() > 0 ==> n >= 1,
{
    before.lemma_pending_finite();
    after.lemma_pending_finite();
    let t0 = before.pending().dom();
    let t1 = after.pending().dom();
    let path = path_of(dir@);
    lemma_cleared_rows(before.rows(), path, bound_of(start), bound_of(end), after.rows(), list@);
    let gone = before.rows().dom().difference(after.rows().dom());
    assert(t1 == t0.union(gone));
    lemma_at_least_one(t0, t1);
    vstd::set_lib::lemma_len_union(t0, gone);
    if list@.len() > 0 {
        let k = choose|k: Seq<u8>| gone.contains(k);
        assert(t1.contains(k));
    }
}

/// A removal leaves deletes pending exactly if there was such a directory.
pub proof fn law_map_pending_remove<'s>(
    before: BTreeMapTransaction<'s>,
    after: BTreeMapTransaction<'s>,
    dir: &[&[u8]],
    removed: bool,
    m: usize,
    n: usize,
)
    requires
        before.wf(),
        before.in_order(),
        exists|s: &mut BTreeMapTransaction<'s>|
            *s == before && *final(s) == after && #[trigger] call_ensures(
                BTreeMapTransaction::remove_dir,
                (s, dir),
                Ok::<bool, BTreeMapError>(removed),
            ),
        call_ensures(BTreeMapTransaction::pending_len, (&before,), m),
        call_ensures(BTreeMapTransaction::pending_len, (&after,), n),
    ensures
        n >= m,
        removed ==> n >= 1,
        !removed ==> n == m,
{
    before.lemma_pending_finite();
    after.lemma_pending_finite();
    let t0 = before.pending().dom();
    let t1 = after.pending().dom();
    let m0 = before.rows();
    let path = path_of(dir@);
    let m1 = after.rows();
    lemma_at_least_one(t0, t1);
    if removed && !(exists|k: Seq<u8>| t1.contains(k)) {
        assert(path.subrange(0, path.len() as int) =~= path);
        assert(crate::directory_laws::extends(path, path));
        assert(!after.dir_there(path));
        assert(before.dir_there(path));
        assert forall|k: Seq<u8>| row_at(m1, k) == row_at(m0, k) by {
            assert(!t1.contains(k));
        }
        lemma_same_rows(m0, m1);
    }
}

/// A write is pending once it is made, and counts once: the first one into a directory
/// adds what the directory needs, a write into one that exists at most its own key.
pub proof fn law_session_pending_set(
    before: IndexedDbTransaction,
    after: IndexedDbTransaction,
    dir: &[&[u8]],
    key: &[u8],
    value: &[u8],
    there: bool,
    m: usize,
    n: usize,
)
    requires
        before.wf(),
        exists|s: &mut IndexedDbTransaction|
            *s == before && *final(s) == after && #[trigger] call_ensures(
                IndexedDbTransaction::set,
                (s, dir, key, value),
                Ok::<(), IndexedDbError>(()),
            ),
        call_ensures(
            IndexedDbTransaction::dir_exists,
            (&before, dir),
            Ok::<bool, IndexedDbError>(there),
        ),
        call_ensures(IndexedDbTransaction::pending_len, (&before,), m),
        call_ensures(IndexedDbTransaction::pending_len, (&after,), n),
    ensures
        n >= 1,
        n >= m,
        there ==> n <= m + 1,
{
    before.lemma_pending_finite();
    after.lemma_pending_finite();
    let t0 = before.pending().dom();
    let t1 = after.pending().dom();
    let path = path_of(dir@);
    if there {
        let p = (lookup(before.rows(), path)->Ok_0)->0;
        assert(t1 == t0.insert(p + key@));
        assert(t1.contains(p + key@));
    } else {
        let m0 = before.rows();
        let (mid, p, created) = choose|mid: Rows, p: Seq<u8>, created: Set<Seq<u8>>|
            #![trigger opens(m0, anchored(path), mid, p), only_adds(m0, mid, t0, created)]
            opens(m0, anchored(path), mid, p) && only_adds(m0, mid, t0, created) && t1
                == created.insert(p + key@);
        assert(t1.contains(p + key@));
        assert(t0.subset_of(t1));
    }
    lemma_at_least_one(t0, t1);
}

/// A delete is pending once it is made, whether or not there was such a key, and counts
/// once; in a directory that does not exist there is nothing to delete.
pub proof fn law_session_pending_delete(
    before: IndexedDbTransaction,
    after: IndexedDbTransaction,
    again: IndexedDbTransaction,
    dir: &[&[u8]],
    key: &[u8],
    there: bool,
    m: usize,
    n: usize,
    o: usize,
)
    requires
        before.wf(),
        before.in_order(),
        exists|s: &mut IndexedDbTransaction|
            *s == before && *final(s) == after && #[trigger] call_ensures(
                IndexedDbTransaction::delete,
                (s, dir, key),
                Ok::<(), IndexedDbError>(()),
            ),
        exists|s: &mut IndexedDbTransaction|
            *s == after && *final(s) == again && #[trigger] call_ensures(
                IndexedDbTransaction::delete,
                (s, dir, key),
                Ok::<(), IndexedDbError>(()),
            ),
        call_ensures(
            IndexedDbTransaction::dir_exists,
            (&before, dir),
            Ok::<bool, IndexedDbError>(there),
        ),
        call_ensures(IndexedDbTransaction::pending_len, (&before,), m),
        call_ensures(IndexedDbTransaction::pending_len, (&after,), n),
        call_ensures(IndexedDbTransaction::pending_len, (&again,), o),
    ensures
        there ==> 1 <= n && m <= n <= m + 1,
        !there ==> n == m,
        o == n,
{
    before.lemma_pending_finite();
    after.lemma_pending_finite();
    again.lemma_pending_finite();
    let t0 = before.pending().dom();
    let path = path_of(dir@);
    if there {
        let p = (lookup(before.rows(), path)->Ok_0)->0;
        let t1 = t0.insert(p + key@);
        let below = path.push(encode_utf8(Seq::<char>::empty()));
        encode_utf8_valid_utf8(Seq::<char>::empty());
        assert(t1.contains(p + key@));
        lemma_at_least_one(t0, t1);
        law_delete(before.rows(), path, key@, p, below);
        assert(t1.insert(p + key@) =~= t1);
    }
}

/// A clear leaves a delete pending for each key that it takes, and none where there is
/// nothing to take.
pub proof fn law_session_pending_clear(
    before: IndexedDbTransaction,
    after: IndexedDbTransaction,
    dir: &[&[u8]],
    start: Bound<&[u8]>,
    end: Bound<&[u8]>,
    stream: KvStream<IndexedDbError>,
    list: Vec<KvPair>,
    m: usize,
    n: usize,
)
    requires
        before.wf(),
        before.in_order(),
        exists|s: &mut IndexedDbTransaction|
            *s == before && *final(s) == after && #[trigger] call_ensures(
                IndexedDbTransaction::clear_range,
                (s, dir, start, end),
                Ok::<(), IndexedDbError>(()),
            ),
        call_ensures(IndexedDbTransaction::range, (&before, dir, start, end, false), stream),
        call_ensures(
            KvStream::<IndexedDbError>::collect,
            (stream,),
            Ok::<Vec<KvPair>, IndexedDbError>(list),
        ),
        call_ensures(IndexedDbTransaction::pending_len, (&before,), m),
        call_ensures(IndexedDbTransaction::pending_len, (&after,), n),
    ensures
        m <= n <= m + list@.len(),
        list@.len() > 0 ==> n >= 1,
{
    before.lemma_pending_finite();
    after.lemma_pending_finite();
    let t0 = before.pending().dom();
    let t1 = after.pending().dom();
    let path = path_of(dir@);
    lemma_cleared_rows(before.rows(), path, bound_of(start), bound_of(end), after.rows(), list@);
    let gone = before.rows().dom().difference(after.rows().dom());
    assert(t1 == t0.union(gone));
    lemma_at_least_one(t0, t1);
    vstd::set_lib::lemma_len_union(t0, gone);
    if list@.len() > 0 {
        let k = choose|k: Seq<u8>| gone.contains(k);
        assert(t1.contains(k));
    }
}

/// A removal leaves deletes pending exactly if there was such a directory.
pub proof fn law_session_pending_remove(
    before: IndexedDbTransaction,
    after: IndexedDbTransaction,
    dir: &[&[u8]],
    removed: bool,
    m: usize,
    n: usize,
)
    requires
        before.wf(),
        before.in_order(),
        exists|s: &mut IndexedDbTransaction|
            *s == before && *final(s) == after && #[trigger] call_ensures(
                IndexedDbTransaction::remove_dir,
                (s, dir),
                Ok::<bool, IndexedDbError>(removed),
            ),
        call_ensures(IndexedDbTransaction::pending_len, (&before,), m),
        call_ensures(IndexedDbTransaction::pending_len, (&after,), n),
    ensures
        n >= m,
        removed ==> n >= 1,
        !removed ==> n == m,
{
    before.lemma_pending_finite();
    after.lemma_pending_finite();
    let t0 = before.pending().dom();
    let t1 = after.pending().dom();
    let m0 = before.rows();
    let path = path_of(dir@);
    let m1 = after.rows();
    lemma_at_least_one(t0, t1);
    if removed && !(exists|k: Seq<u8>| t1.contains(k)) {
        assert(path.subrange(0, path.len() as int) =~= path);
        assert(crate::directory_laws::extends(path, path));
        assert(!after.dir_there(path));
        assert(before.dir_there(path));
        assert forall|k: Seq<u8>| row_at(m1, k) == row_at(m0, k) by {
            assert(!t1.contains(k));
        }
        lemma_same_rows(m0, m1);
    }
}

} // verus!
