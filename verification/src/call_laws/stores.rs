//! What every store does: reads, writes, scans and directories agree with each other.

use core::ops::Bound;

use vstd::prelude::*;
use vstd::utf8::valid_utf8;

use crate::bytes::lt;
use crate::call_laws::cluster::{law_lies_between, lies_between};
use crate::call_laws::maps::{law_scanned, law_without_range};
use crate::call_laws::order::law_path;
use crate::directory_laws::extends;
use crate::flatengine::byte_strings;
use crate::key::{path_of, valid_path};
use crate::nav::KvDirNav;
use crate::store::KvStore;
use crate::stream::{KvPair, KvStream};

verus! {

/// Whether two reads give the same.
pub open spec fn same_value<E>(a: Result<Option<Vec<u8>>, E>, b: Result<Option<Vec<u8>>, E>) -> bool {
    match (a, b) {
        (Ok(Some(x)), Ok(Some(y))) => x@ == y@,
        (Ok(None), Ok(None)) => true,
        _ => false,
    }
}

/// Whether a directory is addressed by text alone.
pub open spec fn is_text_path(dir: &[&[u8]]) -> bool {
    forall|i: int| 0 <= i < dir@.len() ==> valid_utf8((#[trigger] dir@[i])@)
}

/// Whether two directories are addressed by the same segments.
pub open spec fn same_path(a: &[&[u8]], b: &[&[u8]]) -> bool {
    &&& a@.len() == b@.len()
    &&& forall|i: int| 0 <= i < a@.len() ==> (#[trigger] a@[i])@ == b@[i]@
}

/// Whether a directory is another one or lies below it.
pub open spec fn is_below(a: &[&[u8]], b: &[&[u8]]) -> bool {
    &&& b@.len() <= a@.len()
    &&& forall|i: int| 0 <= i < b@.len() ==> (#[trigger] b@[i])@ == a@[i]@
}

/// Paths are the same, begin each other and are valid as their segments say.
proof fn lemma_paths(a: &[&[u8]], b: &[&[u8]])
    ensures
        same_path(a, b) <==> path_of(a@) == path_of(b@),
        is_below(a, b) <==> extends(path_of(a@), path_of(b@)),
        is_text_path(a) <==> valid_path(path_of(a@)),
{
    law_path(a);
    law_path(b);
    let x = path_of(a@);
    let y = path_of(b@);
    if same_path(a, b) {
        assert(x =~= y);
    }
    if x == y {
        assert forall|i: int| 0 <= i < a@.len() implies (#[trigger] a@[i])@ == b@[i]@ by {
            assert(x[i] == y[i]);
        }
    }
    if is_below(a, b) {
        assert(x.subrange(0, y.len() as int) =~= y) by {
            assert forall|i: int| 0 <= i < y.len() implies x[i] == y[i] by {
                assert(b@[i]@ == a@[i]@);
            }
        }
    }
    if extends(x, y) {
        assert forall|i: int| 0 <= i < b@.len() implies (#[trigger] b@[i])@ == a@[i]@ by {
            assert(x.subrange(0, y.len() as int)[i] == x[i]);
        }
    }
}

// ---------------------------------------------------------------------------
// Keys
// ---------------------------------------------------------------------------

/// What is set is read back, under its key in its directory, and every other key of
/// every directory reads as before.
pub proof fn law_set<K: KvStore>(
    before: K,
    after: K,
    dir: &[&[u8]],
    key: &[u8],
    value: &[u8],
    other_dir: &[&[u8]],
    other_key: &[u8],
    was: Result<Option<Vec<u8>>, K::Error>,
    is: Result<Option<Vec<u8>>, K::Error>,
)
    requires
        before.wf(),
        before.in_order(),
        exists|s: &mut K|
            *s == before && *final(s) == after && #[trigger] call_ensures(
                K::set,
                (s, dir, key, value),
                Ok::<(), K::Error>(()),
            ),
        call_ensures(K::get, (&before, other_dir, other_key), was),
        call_ensures(K::get, (&after, other_dir, other_key), is),
        was is Ok,
        is is Ok,
    ensures
        after.wf(),
        after.in_order(),
        if same_path(dir, other_dir) && key@ == other_key@ {
            is matches Ok(Some(v)) && v@ == value@
        } else {
            same_value(was, is)
        },
{
    lemma_paths(dir, other_dir);
    lemma_paths(other_dir, dir);
    law_path(other_dir);
}

/// What is deleted is not read any more, and every other key of every directory reads as
/// before.
pub proof fn law_delete<K: KvStore>(
    before: K,
    after: K,
    dir: &[&[u8]],
    key: &[u8],
    other_dir: &[&[u8]],
    other_key: &[u8],
    was: Result<Option<Vec<u8>>, K::Error>,
    is: Result<Option<Vec<u8>>, K::Error>,
)
    requires
        before.wf(),
        before.in_order(),
        exists|s: &mut K|
            *s == before && *final(s) == after && #[trigger] call_ensures(
                K::delete,
                (s, dir, key),
                Ok::<(), K::Error>(()),
            ),
        call_ensures(K::get, (&before, other_dir, other_key), was),
        call_ensures(K::get, (&after, other_dir, other_key), is),
        was is Ok,
        is is Ok,
    ensures
        after.wf(),
        after.in_order(),
        if same_path(dir, other_dir) && key@ == other_key@ {
            is matches Ok(None)
        } else {
            same_value(was, is)
        },
{
    lemma_paths(dir, other_dir);
    law_path(other_dir);
}

/// What lies between the bounds of a clear is not read any more, and every other key of
/// every directory reads as before.
pub proof fn law_clear_range<K: KvStore>(
    before: K,
    after: K,
    dir: &[&[u8]],
    start: Bound<&[u8]>,
    end: Bound<&[u8]>,
    other_dir: &[&[u8]],
    other_key: &[u8],
    was: Result<Option<Vec<u8>>, K::Error>,
    is: Result<Option<Vec<u8>>, K::Error>,
)
    requires
        before.wf(),
        before.in_order(),
        exists|s: &mut K|
            *s == before && *final(s) == after && #[trigger] call_ensures(
                K::clear_range,
                (s, dir, start, end),
                Ok::<(), K::Error>(()),
            ),
        call_ensures(K::get, (&before, other_dir, other_key), was),
        call_ensures(K::get, (&after, other_dir, other_key), is),
        was is Ok,
        is is Ok,
    ensures
        after.wf(),
        after.in_order(),
        if same_path(dir, other_dir) && lies_between(other_key@, start, end) {
            is matches Ok(None)
        } else {
            same_value(was, is)
        },
{
    lemma_paths(dir, other_dir);
    law_path(other_dir);
    law_without_range(before.content_of(path_of(dir@)), start, end, other_key@);
}

/// A scan lists exactly the keys between its bounds that a read finds, with the value
/// that it finds, each once, in the direction asked for.
pub proof fn law_range<K: KvStore>(
    s: K,
    dir: &[&[u8]],
    start: Bound<&[u8]>,
    end: Bound<&[u8]>,
    reverse: bool,
    stream: KvStream<K::Error>,
    list: Vec<KvPair>,
    key: &[u8],
    got: Result<Option<Vec<u8>>, K::Error>,
)
    requires
        s.wf(),
        call_ensures(K::range, (&s, dir, start, end, reverse), stream),
        call_ensures(
            KvStream::<K::Error>::collect,
            (stream,),
            Ok::<Vec<KvPair>, K::Error>(list),
        ),
        call_ensures(K::get, (&s, dir, key), got),
        got is Ok,
    ensures
        forall|i: int, j: int|
            #![trigger list@[i], list@[j]]
            0 <= i < j < list@.len() ==> if reverse {
                lt(list@[j].key@, list@[i].key@)
            } else {
                lt(list@[i].key@, list@[j].key@)
            },
        forall|i: int|
            0 <= i < list@.len() ==> lies_between((#[trigger] list@[i]).key@, start, end),
        forall|i: int|
            0 <= i < list@.len() && (#[trigger] list@[i]).key@ == key@ ==> (got matches Ok(Some(v))
                && v@ == list@[i].value@),
        (got matches Ok(Some(_))) && lies_between(key@, start, end) ==> exists|i: int|
            0 <= i < list@.len() && (#[trigger] list@[i]).key@ == key@,
{
    let m = s.content_of(path_of(dir@));
    law_scanned(m, start, end, !reverse, list@);
}

/// A scan that fails on its way has handed out the first keys of the range, as reads find
/// them: none of the range is left out before the last one.
pub proof fn law_range_fails<K: KvStore>(
    s: K,
    dir: &[&[u8]],
    start: Bound<&[u8]>,
    end: Bound<&[u8]>,
    reverse: bool,
    stream: KvStream<K::Error>,
    n: usize,
    list: Vec<KvPair>,
    key: &[u8],
    got: Result<Option<Vec<u8>>, K::Error>,
)
    requires
        s.wf(),
        call_ensures(K::range, (&s, dir, start, end, reverse), stream),
        n <= stream.items().len(),
        call_ensures(
            KvStream::<K::Error>::take,
            (stream, n),
            Ok::<Vec<KvPair>, K::Error>(list),
        ),
        call_ensures(K::get, (&s, dir, key), got),
        got is Ok,
    ensures
        forall|i: int|
            0 <= i < list@.len() && (#[trigger] list@[i]).key@ == key@ ==> (got matches Ok(Some(v))
                && v@ == list@[i].value@),
        forall|i: int|
            0 <= i < list@.len() && (got matches Ok(Some(_))) && lies_between(key@, start, end) && !(
            exists|j: int| 0 <= j < list@.len() && (#[trigger] list@[j]).key@ == key@) ==> if reverse {
                lt(key@, (#[trigger] list@[i]).key@)
            } else {
                lt(list@[i].key@, key@)
            },
{
    let m = s.content_of(path_of(dir@));
    let all = stream.items();
    law_lies_between(key@, start, end);
    assert(list@ == all.subrange(0, n as int));
    if stream.failure() is None {
        law_scanned(m, start, end, !reverse, all);
    }
    assert forall|i: int|
        0 <= i < list@.len() && (#[trigger] list@[i]).key@ == key@ implies (got matches Ok(Some(v))
        && v@ == list@[i].value@) by {
        assert(list@[i] == all[i]);
    }
    assert forall|i: int|
        0 <= i < list@.len() && (got matches Ok(Some(_))) && lies_between(key@, start, end) && !(
        exists|j: int| 0 <= j < list@.len() && (#[trigger] list@[j]).key@ == key@) implies if reverse {
        lt(key@, (#[trigger] list@[i]).key@)
    } else {
        lt(list@[i].key@, key@)
    } by {
        assert(m.dom().contains(key@));
        assert(list@[i] == all[i]);
        if crate::rawkv::lists_key(all, key@) {
            let j = choose|j: int| 0 <= j < all.len() && (#[trigger] all[j]).key@ == key@;
            if j < n {
                assert(list@[j].key@ == key@);
            }
            assert(i < j);
            assert(all[i].key@ == list@[i].key@);
        }
    }
}

/// A key is there exactly if it is read.
pub proof fn law_contains_key<K: KvStore>(
    s: K,
    dir: &[&[u8]],
    key: &[u8],
    there: Result<bool, K::Error>,
    got: Result<Option<Vec<u8>>, K::Error>,
)
    requires
        s.wf(),
        call_ensures(K::contains_key, (&s, dir, key), there),
        call_ensures(K::get, (&s, dir, key), got),
        there is Ok,
        got is Ok,
    ensures
        there->Ok_0 <==> got->Ok_0 is Some,
{
}

/// A directory that is addressed by something else than text is refused by every
/// operation, and nothing changes.
pub proof fn law_bad_path<K: KvStore>(
    before: K,
    after: K,
    dir: &[&[u8]],
    key: &[u8],
    value: &[u8],
    start: Bound<&[u8]>,
    end: Bound<&[u8]>,
    read: Result<Option<Vec<u8>>, K::Error>,
    stream: KvStream<K::Error>,
    list: Result<Vec<KvPair>, K::Error>,
    wrote: Result<(), K::Error>,
    other_dir: &[&[u8]],
    other_key: &[u8],
    was: Result<Option<Vec<u8>>, K::Error>,
    is: Result<Option<Vec<u8>>, K::Error>,
)
    requires
        before.wf(),
        !is_text_path(dir),
        call_ensures(K::get, (&before, dir, key), read),
        call_ensures(K::range, (&before, dir, start, end, false), stream),
        call_ensures(KvStream::<K::Error>::collect, (stream,), list),
        exists|s: &mut K|
            *s == before && *final(s) == after && ((#[trigger] call_ensures(
                K::set,
                (s, dir, key, value),
                wrote,
            )) || call_ensures(K::delete, (s, dir, key), wrote) || call_ensures(
                K::clear_range,
                (s, dir, start, end),
                wrote,
            )),
        call_ensures(K::get, (&before, other_dir, other_key), was),
        call_ensures(K::get, (&after, other_dir, other_key), is),
        was is Ok,
        is is Ok,
    ensures
        read is Err,
        list is Err,
        wrote is Err,
        same_value(was, is),
{
    lemma_paths(dir, other_dir);
    if stream.failure() is None {
        assert(valid_path(path_of(dir@)));
    }
}

/// Where the engine serves reads and takes writes, a store in order with room serves
/// every directory that is addressed by text.
pub proof fn law_serves<K: KvStore>(
    before: K,
    after: K,
    dir: &[&[u8]],
    key: &[u8],
    value: &[u8],
    start: Bound<&[u8]>,
    end: Bound<&[u8]>,
    reverse: bool,
    read: Result<Option<Vec<u8>>, K::Error>,
    stream: KvStream<K::Error>,
    list: Result<Vec<KvPair>, K::Error>,
    wrote: Result<(), K::Error>,
)
    requires
        before.wf(),
        before.in_order(),
        before.can_read(),
        before.can_write(),
        before.has_room(path_of(dir@)),
        is_text_path(dir),
        call_ensures(K::get, (&before, dir, key), read),
        call_ensures(K::range, (&before, dir, start, end, reverse), stream),
        call_ensures(KvStream::<K::Error>::collect, (stream,), list),
        exists|s: &mut K|
            *s == before && *final(s) == after && ((#[trigger] call_ensures(
                K::set,
                (s, dir, key, value),
                wrote,
            )) || call_ensures(K::delete, (s, dir, key), wrote) || call_ensures(
                K::clear_range,
                (s, dir, start, end),
                wrote,
            )),
    ensures
        read is Ok,
        list is Ok,
        wrote is Ok,
        after.can_read(),
        after.can_write(),
        after.in_order(),
{
    lemma_paths(dir, dir);
}

// ---------------------------------------------------------------------------
// Directories
// ---------------------------------------------------------------------------

/// A write brings its directory and the ones above it, and no other; a delete and a clear
/// bring and take none.
pub proof fn law_directories_after_writes<K: KvDirNav>(
    before: K,
    set: K,
    less: K,
    dir: &[&[u8]],
    key: &[u8],
    value: &[u8],
    start: Bound<&[u8]>,
    end: Bound<&[u8]>,
    other: &[&[u8]],
    was: Result<bool, K::Error>,
    is: Result<bool, K::Error>,
    still: Result<bool, K::Error>,
)
    requires
        before.wf(),
        before.in_order(),
        exists|s: &mut K|
            *s == before && *final(s) == set && #[trigger] call_ensures(
                K::set,
                (s, dir, key, value),
                Ok::<(), K::Error>(()),
            ),
        exists|s: &mut K|
            *s == before && *final(s) == less && ((#[trigger] call_ensures(
                K::delete,
                (s, dir, key),
                Ok::<(), K::Error>(()),
            )) || call_ensures(K::clear_range, (s, dir, start, end), Ok::<(), K::Error>(()))),
        call_ensures(K::dir_exists, (&before, other), was),
        call_ensures(K::dir_exists, (&set, other), is),
        call_ensures(K::dir_exists, (&less, other), still),
        was is Ok,
        is is Ok,
        still is Ok,
    ensures
        is->Ok_0 <==> was->Ok_0 || is_below(dir, other),
        still->Ok_0 <==> was->Ok_0,
{
    lemma_paths(dir, other);
    lemma_paths(other, dir);
}

/// A removal tells whether the directory was there. It takes the directory and all below
/// it, with their keys, and leaves every other directory with the keys it had.
pub proof fn law_remove<K: KvDirNav>(
    before: K,
    after: K,
    dir: &[&[u8]],
    removed: bool,
    there: Result<bool, K::Error>,
    other: &[&[u8]],
    key: &[u8],
    was: Result<bool, K::Error>,
    is: Result<bool, K::Error>,
    had: Result<Option<Vec<u8>>, K::Error>,
    got: Result<Option<Vec<u8>>, K::Error>,
)
    requires
        before.wf(),
        before.in_order(),
        exists|s: &mut K|
            *s == before && *final(s) == after && #[trigger] call_ensures(
                K::remove_dir,
                (s, dir),
                Ok::<bool, K::Error>(removed),
            ),
        call_ensures(K::dir_exists, (&before, dir), there),
        call_ensures(K::dir_exists, (&before, other), was),
        call_ensures(K::dir_exists, (&after, other), is),
        call_ensures(K::get, (&before, other, key), had),
        call_ensures(K::get, (&after, other, key), got),
        there is Ok,
        was is Ok,
        is is Ok,
        had is Ok,
        got is Ok,
    ensures
        after.wf(),
        after.in_order(),
        removed <==> there->Ok_0,
        is->Ok_0 <==> was->Ok_0 && !is_below(other, dir),
        if is_below(other, dir) {
            got matches Ok(None)
        } else {
            same_value(had, got)
        },
{
    lemma_paths(other, dir);
}

/// Where the engine takes writes, a store in order removes every removable directory that
/// is addressed by text.
pub proof fn law_remove_serves<K: KvDirNav>(
    before: K,
    dir: &[&[u8]],
    r: Result<bool, K::Error>,
    listed: Result<Vec<Vec<u8>>, K::Error>,
    there: Result<bool, K::Error>,
)
    requires
        before.wf(),
        before.in_order(),
        before.can_read(),
        before.can_write(),
        before.removable(path_of(dir@)),
        is_text_path(dir),
        exists|s: &mut K|
            *s == before && #[trigger] call_ensures(K::remove_dir, (s, dir), r),
        call_ensures(K::list_dirs, (&before, dir), listed),
        call_ensures(K::dir_exists, (&before, dir), there),
    ensures
        r is Ok,
        listed is Ok,
        there is Ok,
{
    lemma_paths(dir, dir);
}

/// A listing names exactly the directories right below that exist, each once, in
/// ascending order; a directory that does not exist has none.
pub proof fn law_list_dirs<K: KvDirNav>(
    s: K,
    dir: &[&[u8]],
    names: Vec<Vec<u8>>,
    child: &[&[u8]],
    there: Result<bool, K::Error>,
    below: Result<bool, K::Error>,
)
    requires
        s.wf(),
        s.in_order(),
        call_ensures(K::list_dirs, (&s, dir), Ok::<Vec<Vec<u8>>, K::Error>(names)),
        child@.len() == dir@.len() + 1,
        is_below(child, dir),
        call_ensures(K::dir_exists, (&s, dir), there),
        call_ensures(K::dir_exists, (&s, child), below),
        there is Ok,
        below is Ok,
    ensures
        forall|i: int, j: int|
            #![trigger names@[i], names@[j]]
            0 <= i < j < names@.len() ==> lt(names@[i]@, names@[j]@),
        forall|i: int| 0 <= i < names@.len() ==> valid_utf8((#[trigger] names@[i])@),
        !there->Ok_0 ==> names@.len() == 0,
        (there->Ok_0 && below->Ok_0) <==> exists|i: int|
            0 <= i < names@.len() && (#[trigger] names@[i])@ == child@[dir@.len() as int]@,
{
    let list = byte_strings(names@);
    let seg = child@[dir@.len() as int]@;
    lemma_paths(child, dir);
    law_path(child);
    law_path(dir);
    assert(path_of(child@) =~= path_of(dir@).push(seg)) by {
        assert forall|i: int| 0 <= i < path_of(child@).len() implies path_of(child@)[i]
            == path_of(dir@).push(seg)[i] by {
            if i < dir@.len() {
                assert(dir@[i]@ == child@[i]@);
            }
        }
    }
    assert(valid_utf8(seg)) by {
        assert(valid_utf8(child@[dir@.len() as int]@));
    }
    assert forall|i: int, j: int|
        #![trigger names@[i], names@[j]]
        0 <= i < j < names@.len() implies lt(names@[i]@, names@[j]@) by {
        assert(lt(list[i], list[j]));
    }
    assert forall|i: int| 0 <= i < names@.len() implies valid_utf8((#[trigger] names@[i])@) by {
        assert(valid_utf8(list[i]));
    }
    if list.contains(seg) {
        let i = choose|i: int| 0 <= i < list.len() && list[i] == seg;
        assert(names@[i]@ == seg);
    }
    if exists|i: int| 0 <= i < names@.len() && (#[trigger] names@[i])@ == seg {
        let i = choose|i: int| 0 <= i < names@.len() && (#[trigger] names@[i])@ == seg;
        assert(list[i] == seg);
    }
}

} // verus!
