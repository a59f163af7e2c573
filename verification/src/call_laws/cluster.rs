//! Paths, regions, ranges and pages of the cluster backend.

use core::ops::Bound;

use vstd::prelude::*;
use vstd::utf8::{encode_utf8, encode_utf8_decode_utf8, valid_utf8};

use crate::bytes::{lemma_lt_push_zero, lemma_order, lt, starts_with, tail};
use crate::call_laws::order::{law_path, law_prefix};
use crate::error::RetryableStorageError;
use crate::fdb::{
    after_failure, behind, clear_bounds, created, dir_err, dir_path, end_selector, join, just_after,
    listed, name_bytes, opened, range_option, refused_mutation, region_end, removal_path, scan_plan,
    selector_key, start_selector, strip_page, DirectoryFailure, FdbStorageError, PagedScan,
    RangeSpec, ResolvedDir, ScanPlan, ScanStep, Selector,
};
use crate::flatdir::layout::ROOT_PATH_SEGMENT;
use crate::flatengine::{anchored, byte_strings, in_dir_range};
use crate::key::{path_of, valid_path, KeyError};
use crate::keyspace::{bound_of, in_range, is_empty_range, law_prefix_range_exact};
use crate::stream::KvPair;

verus! {

// ---------------------------------------------------------------------------
// Paths
// ---------------------------------------------------------------------------

/// The layer's path is the anchor, and behind it every segment of the directory as
/// text. It is refused exactly if some segment is no text, and the first such one is
/// named.
pub proof fn law_dir_path(dir: &[&[u8]], r: Result<Vec<String>, KeyError>)
    requires
        call_ensures(dir_path, (dir,), r),
    ensures
        match r {
            Ok(path) => {
                &&& path@.len() == dir@.len() + 1
                &&& path@[0]@ == ROOT_PATH_SEGMENT@
                &&& forall|i: int|
                    0 <= i < dir@.len() ==> encode_utf8(path@[i + 1]@) == (#[trigger] dir@[i])@
                &&& forall|i: int| 0 <= i < dir@.len() ==> valid_utf8((#[trigger] dir@[i])@)
            },
            Err(KeyError::DirSegmentNotUtf8 { segment }) => {
                &&& segment < dir@.len()
                &&& !valid_utf8(dir@[segment as int]@)
                &&& forall|i: int| 0 <= i < segment ==> valid_utf8((#[trigger] dir@[i])@)
            },
            Err(KeyError::RootNotRemovable) => false,
        },
{
    law_path(dir);
    assert forall|i: int| 0 <= i < dir@.len() implies path_of(dir@)[i] == (#[trigger] dir@[i])@ by {}
    if let Ok(path) = r {
        let all = anchored(path_of(dir@));
        assert(encode_utf8(path@[0]@) == all[0]);
        encode_utf8_decode_utf8(path@[0]@);
        encode_utf8_decode_utf8(ROOT_PATH_SEGMENT@);
        assert forall|i: int| 0 <= i < dir@.len() implies encode_utf8(path@[i + 1]@) == (
        #[trigger] dir@[i])@ by {
            assert(encode_utf8(path@[i + 1]@) == all[i + 1]);
        }
    }
}

/// Different directories have different paths: where two directories have the same
/// path in the layer, they have the same segments.
pub proof fn law_dir_paths_apart(a: &[&[u8]], b: &[&[u8]], x: Vec<String>, y: Vec<String>)
    requires
        call_ensures(dir_path, (a,), Ok::<Vec<String>, KeyError>(x)),
        call_ensures(dir_path, (b,), Ok::<Vec<String>, KeyError>(y)),
    ensures
        (x@.len() == y@.len() && forall|i: int|
            0 <= i < x@.len() ==> (#[trigger] x@[i])@ == y@[i]@) <==> (a@.len() == b@.len()
            && forall|i: int| 0 <= i < a@.len() ==> (#[trigger] a@[i])@ == b@[i]@),
{
    law_dir_path(a, Ok(x));
    law_dir_path(b, Ok(y));
    if x@.len() == y@.len() && forall|i: int|
        0 <= i < x@.len() ==> (#[trigger] x@[i])@ == y@[i]@ {
        assert forall|i: int| 0 <= i < a@.len() implies (#[trigger] a@[i])@ == b@[i]@ by {
            assert(x@[i + 1]@ == y@[i + 1]@);
            assert(encode_utf8(x@[i + 1]@) == a@[i]@);
            assert(encode_utf8(y@[i + 1]@) == b@[i]@);
        }
    }
    if a@.len() == b@.len() && forall|i: int| 0 <= i < a@.len() ==> (#[trigger] a@[i])@ == b@[i]@ {
        assert forall|i: int| 0 <= i < x@.len() implies (#[trigger] x@[i])@ == y@[i]@ by {
            if i > 0 {
                assert(encode_utf8(x@[i]@) == a@[i - 1]@);
                assert(encode_utf8(y@[i]@) == b@[i - 1]@);
                encode_utf8_decode_utf8(x@[i]@);
                encode_utf8_decode_utf8(y@[i]@);
            }
        }
    }
}

/// A directory is removed, scanned and refused under the path that it is addressed by.
pub proof fn law_one_path(
    dir: &[&[u8]],
    start: Bound<&[u8]>,
    end: Bound<&[u8]>,
    path: Result<Vec<String>, KeyError>,
    removal: Result<Vec<String>, KeyError>,
    plan: ScanPlan,
    empty: bool,
    refusal: FdbStorageError,
)
    requires
        call_ensures(dir_path, (dir,), path),
        call_ensures(removal_path, (dir,), removal),
        call_ensures(scan_plan, (dir, start, end), plan),
        call_ensures(is_empty_range, (&start, &end), empty),
        call_ensures(refused_mutation, (dir,), refusal),
    ensures
        match path {
            Ok(x) => {
                &&& refusal is ReadOnlyMutation
                &&& if empty {
                    plan is Empty
                } else {
                    plan matches ScanPlan::Open(y) && x@.len() == y@.len() && forall|i: int|
                        0 <= i < x@.len() ==> (#[trigger] x@[i])@ == y@[i]@
                }
                &&& if dir@.len() == 0 {
                    removal == Err::<Vec<String>, KeyError>(KeyError::RootNotRemovable)
                } else {
                    removal matches Ok(y) && x@.len() == y@.len() && forall|i: int|
                        0 <= i < x@.len() ==> (#[trigger] x@[i])@ == y@[i]@
                }
            },
            Err(e) => {
                &&& refusal == FdbStorageError::Key(e)
                &&& plan == ScanPlan::Failed(e)
                &&& removal == Err::<Vec<String>, KeyError>(e)
            },
        },
{
    law_path(dir);
    let all = anchored(path_of(dir@));
    if let Ok(x) = path {
        if let ScanPlan::Open(y) = plan {
            lemma_same_texts(x@, y@, all);
        }
        if let Ok(y) = removal {
            lemma_same_texts(x@, y@, all);
        }
    } else {
        let e = path->Err_0;
        let segs = path_of(dir@);
        assert(!valid_path(segs));
        let i = e->segment as int;
        if plan is Failed {
            let j = plan->Failed_0->segment as int;
            assert(i == j);
        }
        if removal is Err && dir@.len() > 0 {
            let j = removal->Err_0->segment as int;
            assert(i == j);
        }
        if refusal is Key {
            let j = refusal->Key_0->segment as int;
            assert(i == j);
        }
    }
}

/// Texts with the same bytes are the same.
proof fn lemma_same_texts(x: Seq<String>, y: Seq<String>, all: Seq<Seq<u8>>)
    requires
        x.len() == all.len(),
        y.len() == all.len(),
        forall|i: int| 0 <= i < x.len() ==> encode_utf8((#[trigger] x[i])@) == all[i],
        forall|i: int| 0 <= i < y.len() ==> encode_utf8((#[trigger] y[i])@) == all[i],
    ensures
        forall|i: int| 0 <= i < x.len() ==> (#[trigger] x[i])@ == y[i]@,
{
    assert forall|i: int| 0 <= i < x.len() implies (#[trigger] x[i])@ == y[i]@ by {
        assert(encode_utf8(y[i]@) == all[i]);
        encode_utf8_decode_utf8(x[i]@);
        encode_utf8_decode_utf8(y[i]@);
    }
}

// ---------------------------------------------------------------------------
// Regions and ranges
// ---------------------------------------------------------------------------

/// Whether a raw key is one of a directory's keys between two bounds: it is made of
/// the prefix and a key that lies between them.
pub open spec fn is_key_between(
    prefix: Seq<u8>,
    start: Bound<&[u8]>,
    end: Bound<&[u8]>,
    k: Seq<u8>,
) -> bool {
    exists|t: Seq<u8>| k == #[trigger] (prefix + t) && lies_between(t, start, end)
}

/// Whether a key lies between two bounds.
pub open spec fn lies_between(t: Seq<u8>, start: Bound<&[u8]>, end: Bound<&[u8]>) -> bool {
    &&& match start {
        Bound::Included(s) => !lt(t, s@),
        Bound::Excluded(s) => lt(s@, t),
        Bound::Unbounded => true,
    }
    &&& match end {
        Bound::Included(e) => !lt(e@, t),
        Bound::Excluded(e) => lt(t, e@),
        Bound::Unbounded => true,
    }
}

/// The two ways to say that a key lies between bounds agree.
pub proof fn law_lies_between(t: Seq<u8>, start: Bound<&[u8]>, end: Bound<&[u8]>)
    ensures
        lies_between(t, start, end) <==> in_range(t, bound_of(start), bound_of(end)),
{
    match start {
        Bound::Included(s) => {
            lemma_order(s@, t, s@);
            lemma_order(t, s@, t);
        },
        _ => {},
    }
    match end {
        Bound::Included(e) => {
            lemma_order(e@, t, e@);
            lemma_order(t, e@, t);
        },
        _ => {},
    }
}

/// A raw key is one of a directory's keys between bounds in both ways of saying so.
proof fn lemma_key_between(prefix: Seq<u8>, start: Bound<&[u8]>, end: Bound<&[u8]>, k: Seq<u8>)
    ensures
        is_key_between(prefix, start, end, k) <==> in_dir_range(
            prefix,
            bound_of(start),
            bound_of(end),
            k,
        ),
{
    law_prefix(k, prefix);
    if in_dir_range(prefix, bound_of(start), bound_of(end), k) {
        let t = tail(k, prefix.len());
        law_lies_between(t, start, end);
        assert(k == prefix + t);
    }
    if is_key_between(prefix, start, end, k) {
        let t = choose|t: Seq<u8>| k == #[trigger] (prefix + t) && lies_between(t, start, end);
        law_lies_between(t, start, end);
        crate::bytes::lemma_starts_with_concat(prefix, t);
    }
}

/// A directory's region holds exactly the keys that begin with its prefix; a prefix
/// that has no such region is of `0xFF` bytes alone.
pub proof fn law_region(
    prefix: Vec<u8>,
    r: Result<ResolvedDir, FdbStorageError>,
    end: Result<Vec<u8>, FdbStorageError>,
    k: Seq<u8>,
)
    requires
        call_ensures(ResolvedDir::new, (prefix,), r),
        exists|p: &[u8]| p@ == prefix@ && #[trigger] call_ensures(region_end, (p,), end),
    ensures
        match r {
            Ok(d) => {
                &&& d.prefix@ == prefix@
                &&& (!lt(k, d.prefix@) && lt(k, d.end@)) <==> exists|t: Seq<u8>|
                    k == #[trigger] (prefix@ + t)
                &&& end matches Ok(e) && e@ == d.end@
            },
            Err(e) => {
                &&& e matches FdbStorageError::Directory(text) && text@
                    == "directory content prefix has no bounded region end (it is all 0xFF)"@
                &&& end is Err
                &&& forall|i: int| 0 <= i < prefix@.len() ==> #[trigger] prefix@[i] == 0xFF
            },
        },
{
    law_prefix(k, prefix@);
    law_prefix_range_exact(prefix@, k);
    lemma_order(prefix@, k, prefix@);
    lemma_order(k, prefix@, k);
    crate::keyspace::lemma_successor_shape(prefix@);
}

/// A directory that was opened or created has the prefix that the layer answered with;
/// only a missing one is none, and only to a read.
pub proof fn law_open(
    outcome: Result<Vec<u8>, DirectoryFailure>,
    read: Result<Option<ResolvedDir>, FdbStorageError>,
    write: Result<ResolvedDir, FdbStorageError>,
)
    requires
        call_ensures(opened, (outcome,), read),
        call_ensures(created, (outcome,), write),
    ensures
        match outcome {
            Ok(prefix) => {
                &&& !(read matches Ok(None))
                &&& read matches Ok(Some(d)) ==> d.prefix@ == prefix@
                &&& write matches Ok(d) ==> d.prefix@ == prefix@
                &&& read is Err <==> forall|i: int|
                    0 <= i < prefix@.len() ==> #[trigger] prefix@[i] == 0xFF
                &&& read is Err <==> write is Err
            },
            Err(DirectoryFailure::Missing(text)) => read matches Ok(None) && write
                == Err::<ResolvedDir, FdbStorageError>(FdbStorageError::Directory(text)),
            Err(DirectoryFailure::Other(text)) => {
                &&& read == Err::<Option<ResolvedDir>, FdbStorageError>(
                    FdbStorageError::Directory(text),
                )
                &&& write == Err::<ResolvedDir, FdbStorageError>(FdbStorageError::Directory(text))
            },
            Err(DirectoryFailure::Engine { code, retryable, message }) => {
                let e = FdbStorageError::Fdb { code, retryable, message };
                &&& read == Err::<Option<ResolvedDir>, FdbStorageError>(e)
                &&& write == Err::<ResolvedDir, FdbStorageError>(e)
            },
        },
{
    if let Ok(prefix) = outcome {
        crate::keyspace::lemma_successor_shape(prefix@);
        if read is Ok {
            let n = crate::keyspace::successor(prefix@)->0;
            let i = choose|i: int| crate::keyspace::successor_at(prefix@, n, i);
            assert(prefix@[i] < 0xFF);
        }
    }
}

/// A failed directory call keeps the engine's own classification.
pub proof fn law_dir_err(e: DirectoryFailure, r: FdbStorageError, retry: bool)
    requires
        call_ensures(dir_err, (e,), r),
        call_ensures(FdbStorageError::is_retryable, (&r,), retry),
    ensures
        match e {
            DirectoryFailure::Engine { code, retryable, message } => r == (FdbStorageError::Fdb {
                code,
                retryable,
                message,
            }) && retry == retryable,
            DirectoryFailure::Missing(text) => r == FdbStorageError::Directory(text) && !retry,
            DirectoryFailure::Other(text) => r == FdbStorageError::Directory(text) && !retry,
        },
{
}

/// A failure says that a directory is missing only before it was opened; otherwise it is
/// reported with the same text.
pub proof fn law_once_opened(
    e: DirectoryFailure,
    missing: bool,
    later: DirectoryFailure,
    still: bool,
    a: FdbStorageError,
    b: FdbStorageError,
)
    requires
        call_ensures(DirectoryFailure::is_missing, (&e,), missing),
        call_ensures(DirectoryFailure::once_opened, (e,), later),
        call_ensures(DirectoryFailure::is_missing, (&later,), still),
        call_ensures(dir_err, (e,), a),
        call_ensures(dir_err, (later,), b),
    ensures
        missing <==> e is Missing,
        !still,
        !missing ==> later == e,
        a == b,
{
}

/// What the engine calls retryable is retryable, and nothing else is.
pub proof fn law_retryable(e: FdbStorageError, r: bool)
    requires
        call_ensures(FdbStorageError::is_retryable, (&e,), r),
    ensures
        r <==> match e {
            FdbStorageError::Fdb { code: _, retryable, message: _ } => retryable,
            FdbStorageError::Commit { retryable_not_committed, message: _ } => {
                retryable_not_committed
            },
            FdbStorageError::Key(_) => false,
            FdbStorageError::Directory(_) => false,
            FdbStorageError::PrefixViolation => false,
            FdbStorageError::ReadOnlyMutation => false,
        },
{
}

/// Joined keys are the prefix and the key; nothing lies between a key and what is just
/// after it.
pub proof fn law_join(prefix: &[u8], key: &[u8], at: Vec<u8>, after: Vec<u8>, k: Seq<u8>)
    requires
        call_ensures(join, (prefix, key), at),
        call_ensures(just_after, (prefix, key), after),
    ensures
        at@ == prefix@ + key@,
        lt(at@, k) <==> !lt(k, after@),
{
    lemma_lt_push_zero(at@, k);
    lemma_order(k, after@, k);
    lemma_order(after@, k, after@);
}

/// Selectors stand where the bounds say, behind the prefix; without a bound they stand
/// at the ends of the region.
pub proof fn law_selectors(
    d: ResolvedDir,
    prefix: &[u8],
    dir_end: &[u8],
    bound: Bound<&[u8]>,
    begin: Selector,
    end: Selector,
    k: Seq<u8>,
)
    requires
        d.wf(),
        prefix@ == d.prefix@,
        dir_end@ == d.end@,
        call_ensures(start_selector, (prefix, bound), begin),
        call_ensures(end_selector, (prefix, dir_end, bound), end),
    ensures
        is_behind(begin, k) <==> match bound {
            Bound::Included(b) => !lt(k, prefix@ + b@),
            Bound::Excluded(b) => lt(prefix@ + b@, k),
            Bound::Unbounded => !lt(k, prefix@),
        },
        is_behind(end, k) <==> match bound {
            Bound::Included(b) => lt(prefix@ + b@, k),
            Bound::Excluded(b) => !lt(k, prefix@ + b@),
            Bound::Unbounded => !lt(k, dir_end@),
        },
{
    lemma_behind(begin, k);
    lemma_behind(end, k);
    match bound {
        Bound::Included(b) => {
            let at = prefix@ + b@;
            lemma_order(at, k, at);
            lemma_order(k, at, k);
            lemma_lt_push_zero(at, k);
            lemma_order(k, at.push(0), k);
            lemma_order(at.push(0), k, at.push(0));
        },
        Bound::Excluded(b) => {
            let at = prefix@ + b@;
            lemma_order(at, k, at);
            lemma_order(k, at, k);
        },
        Bound::Unbounded => {
            lemma_order(prefix@, k, prefix@);
            lemma_order(k, prefix@, k);
            lemma_order(dir_end@, k, dir_end@);
            lemma_order(k, dir_end@, k);
        },
    }
}

/// Whether a key lies at or behind a selector's position.
pub open spec fn is_behind(s: Selector, k: Seq<u8>) -> bool {
    match s {
        Selector::FirstGreaterOrEqual(at) => !lt(k, at@),
        Selector::FirstGreaterThan(at) => lt(at@, k),
    }
}

/// The two ways to say that a key lies behind a selector agree.
proof fn lemma_behind(s: Selector, k: Seq<u8>)
    ensures
        is_behind(s, k) <==> behind(s, k),
{
    match s {
        Selector::FirstGreaterOrEqual(at) => {
            lemma_order(at@, k, at@);
            lemma_order(k, at@, k);
        },
        Selector::FirstGreaterThan(_) => {},
    }
}

/// A scan of a directory asks the engine for exactly the directory's keys between the
/// bounds, in the direction asked for; it asks for nothing only where there can be no
/// such key. The engine is never asked for a range that ends before it begins.
pub proof fn law_range_option(
    d: ResolvedDir,
    start: Bound<&[u8]>,
    end: Bound<&[u8]>,
    reverse: bool,
    r: Option<RangeSpec>,
    k: Seq<u8>,
)
    requires
        d.wf(),
        call_ensures(range_option, (&d, start, end, reverse), r),
    ensures
        match r {
            Some(range) => {
                &&& range.reverse == reverse
                &&& is_key_between(d.prefix@, start, end, k) <==> is_behind(range.begin, k)
                    && !is_behind(range.end, k)
                &&& match (range.begin, range.end) {
                    (
                        Selector::FirstGreaterOrEqual(a) | Selector::FirstGreaterThan(a),
                        Selector::FirstGreaterOrEqual(b) | Selector::FirstGreaterThan(b),
                    ) => !lt(b@, a@),
                }
            },
            None => !is_key_between(d.prefix@, start, end, k),
        },
{
    lemma_key_between(d.prefix@, start, end, k);
    match r {
        Some(range) => {
            lemma_order(selector_key(range.begin), selector_key(range.end), selector_key(range.begin));
            lemma_behind(range.begin, k);
            lemma_behind(range.end, k);
        },
        None => {},
    }
}

/// A clear takes exactly the directory's keys between the bounds; it takes none only
/// where there can be no such key.
pub proof fn law_clear_bounds(
    d: ResolvedDir,
    start: Bound<&[u8]>,
    end: Bound<&[u8]>,
    r: Option<(Vec<u8>, Vec<u8>)>,
    k: Seq<u8>,
)
    requires
        d.wf(),
        call_ensures(clear_bounds, (&d, start, end), r),
    ensures
        match r {
            Some((lo, hi)) => {
                &&& lt(lo@, hi@)
                &&& is_key_between(d.prefix@, start, end, k) <==> !lt(k, lo@) && lt(k, hi@)
            },
            None => !is_key_between(d.prefix@, start, end, k),
        },
{
    lemma_key_between(d.prefix@, start, end, k);
    assert(crate::fdb::clears_exactly(d.prefix@, bound_of(start), bound_of(end), r));
    if let Some((lo, hi)) = r {
        lemma_order(lo@, k, lo@);
        lemma_order(k, lo@, k);
    }
}

/// A listing holds the names of the layer's answer, each as often as there, in
/// ascending order; a missing directory has none.
pub proof fn law_listed(
    outcome: Result<Vec<String>, DirectoryFailure>,
    r: Result<Vec<Vec<u8>>, FdbStorageError>,
    i: int,
    j: int,
)
    requires
        call_ensures(listed, (outcome,), r),
    ensures
        match outcome {
            Ok(names) => {
                &&& r matches Ok(list) && list@.len() == names@.len() && (0 <= i < j < list@.len()
                    ==> !lt(list@[j]@, list@[i]@)) && (0 <= i < names@.len() ==> exists|n: int|
                    0 <= n < list@.len() && (#[trigger] list@[n])@ == encode_utf8(names@[i]@)) && (0
                    <= i < list@.len() ==> exists|n: int|
                    0 <= n < names@.len() && list@[i]@ == encode_utf8((#[trigger] names@[n])@))
            },
            Err(DirectoryFailure::Missing(_)) => r matches Ok(list) && list@.len() == 0,
            Err(DirectoryFailure::Other(text)) => r == Err::<Vec<Vec<u8>>, FdbStorageError>(
                FdbStorageError::Directory(text),
            ),
            Err(DirectoryFailure::Engine { code, retryable, message }) => r == Err::<
                Vec<Vec<u8>>,
                FdbStorageError,
            >(FdbStorageError::Fdb { code, retryable, message }),
        },
{
    if outcome is Ok {
        let names = name_bytes(outcome->Ok_0@);
        let list = r->Ok_0@;
        let got = byte_strings(list);
        got.to_multiset_ensures();
        names.to_multiset_ensures();
        assert(got.to_multiset().len() == names.to_multiset().len());
        if 0 <= i < j < list.len() {
            lemma_order(got[i], got[j], got[i]);
        }
        if 0 <= i < names.len() {
            assert(names.contains(names[i]));
            assert(got.to_multiset().count(names[i]) > 0);
            assert(got.contains(names[i]));
            let n = choose|n: int| 0 <= n < got.len() && got[n] == names[i];
            assert(list[n]@ == encode_utf8(outcome->Ok_0@[i]@));
        }
        if 0 <= i < got.len() {
            assert(got.contains(got[i]));
            assert(names.to_multiset().count(got[i]) > 0);
            assert(names.contains(got[i]));
            let n = choose|n: int| 0 <= n < names.len() && names[n] == got[i];
            assert(list[i]@ == encode_utf8(outcome->Ok_0@[n]@));
        }
    }
}

/// A failed page ends a scan exactly if the transaction was not reset, with the failure
/// that came first.
pub proof fn law_after_failure(first: FdbStorageError, reset: bool, r: Option<FdbStorageError>)
    requires
        call_ensures(after_failure, (first, reset), r),
    ensures
        reset ==> r is None,
        !reset ==> r == Some(first),
{
}

// ---------------------------------------------------------------------------
// Pages
// ---------------------------------------------------------------------------

/// Taking the prefix off a page gives back its rows, in order; it fails exactly if some
/// key does not begin with the prefix.
pub proof fn law_strip_page(
    prefix: &[u8],
    page: Vec<KvPair>,
    r: Result<Vec<KvPair>, FdbStorageError>,
)
    requires
        call_ensures(strip_page, (prefix, page), r),
    ensures
        match r {
            Ok(list) => {
                &&& list@.len() == page@.len()
                &&& forall|i: int|
                    0 <= i < page@.len() ==> (#[trigger] page@[i]).key@ == prefix@ + list@[i].key@
                        && page@[i].value@ == list@[i].value@
            },
            Err(e) => e is PrefixViolation && exists|i: int|
                0 <= i < page@.len() && forall|t: Seq<u8>|
                    (#[trigger] page@[i]).key@ != #[trigger] (prefix@ + t),
        },
{
    match r {
        Ok(list) => {
            assert forall|i: int| 0 <= i < page@.len() implies (#[trigger] page@[i]).key@ == prefix@
                + list@[i].key@ && page@[i].value@ == list@[i].value@ by {
                assert(page@[i].key@ == prefix@ + (#[trigger] list@[i]).key@);
            }
        },
        Err(_) => {
            let i = choose|i: int|
                0 <= i < page@.len() && !starts_with((#[trigger] page@[i]).key@, prefix@);
            law_prefix(page@[i].key@, prefix@);
        },
    }
}

/// A scan that has just begun asks for its first page, or is over where there is no
/// cursor.
pub proof fn law_scan_begins<C>(
    prefix: Vec<u8>,
    cursor: Option<C>,
    scan: PagedScan<C>,
    r: (ScanStep<C>, PagedScan<C>),
)
    requires
        call_ensures(PagedScan::<C>::new, (prefix, cursor), scan),
        call_ensures(PagedScan::<C>::step, (scan,), r),
    ensures
        match cursor {
            Some(c) => r.0 == ScanStep::Fetch(c, 1),
            None => r.0 is Done,
        },
{
}

/// A scan hands out every row of a page, in order and under its key within the
/// directory, before it goes on with the cursor behind the page.
pub proof fn law_page<C>(
    prefix: Vec<u8>,
    cursor: Option<C>,
    scan: PagedScan<C>,
    first: (ScanStep<C>, PagedScan<C>),
    page: Vec<KvPair>,
    next: Option<C>,
    steps: Seq<(ScanStep<C>, PagedScan<C>)>,
    begun: PagedScan<C>,
)
    requires
        call_ensures(PagedScan::<C>::new, (prefix, cursor), scan),
        call_ensures(PagedScan::<C>::step, (scan,), first),
        first.0 is Fetch,
        call_ensures(
            PagedScan::<C>::on_page,
            (first.1, page, next),
            Ok::<PagedScan<C>, FdbStorageError>(begun),
        ),
        steps.len() == page@.len() + 1,
        call_ensures(PagedScan::<C>::step, (begun,), steps[0]),
        forall|i: int|
            0 < i < steps.len() ==> call_ensures(
                PagedScan::<C>::step,
                (steps[i - 1].1,),
                #[trigger] steps[i],
            ),
    ensures
        forall|i: int|
            0 <= i < page@.len() ==> ((#[trigger] steps[i]).0 matches ScanStep::Item(pair)
                && page@[i].key@ == prefix@ + pair.key@ && page@[i].value@ == pair.value@),
        match next {
            Some(c) => steps.last().0 == ScanStep::Fetch(c, 2),
            None => steps.last().0 is Done,
        },
{
    let all = begun.buffered();
    let n = page@.len() as int;
    assert(all.len() == n);
    assert forall|i: int| 0 <= i < n implies ((#[trigger] steps[i]).0 matches ScanStep::Item(pair)
        && page@[i].key@ == prefix@ + pair.key@ && page@[i].value@ == pair.value@) by {
        lemma_steps(begun, steps, i);
        assert(page@[i].key@ == prefix@ + all[0 + i].key@);
    }
    if n > 0 {
        lemma_steps(begun, steps, n - 1);
        assert(steps[n] == steps.last());
    }
}

/// A scan goes on from page to page: the rows of each are handed out before the next is
/// asked for, and the pages are numbered one after the other. A page with a key outside
/// of the directory ends it.
pub proof fn law_next_page<C>(
    scan: PagedScan<C>,
    number: usize,
    cursor: C,
    first: (ScanStep<C>, PagedScan<C>),
    page: Vec<KvPair>,
    next: Option<C>,
    r: Result<PagedScan<C>, FdbStorageError>,
    steps: Seq<(ScanStep<C>, PagedScan<C>)>,
)
    requires
        call_ensures(PagedScan::<C>::step, (scan,), first),
        first.0 == ScanStep::Fetch(cursor, number),
        call_ensures(PagedScan::<C>::on_page, (first.1, page, next), r),
        steps.len() == page@.len() + 1,
        r matches Ok(begun) ==> call_ensures(PagedScan::<C>::step, (begun,), steps[0]),
        forall|i: int|
            0 < i < steps.len() ==> call_ensures(
                PagedScan::<C>::step,
                (steps[i - 1].1,),
                #[trigger] steps[i],
            ),
    ensures
        match r {
            Ok(_) => {
                &&& forall|i: int|
                    0 <= i < page@.len() ==> ((#[trigger] steps[i]).0 matches ScanStep::Item(pair)
                        && page@[i].key@ == scan.prefix() + pair.key@ && page@[i].value@
                        == pair.value@)
                &&& match next {
                    Some(c) => steps.last().0 == ScanStep::Fetch(
                        c,
                        if number < usize::MAX {
                            (number + 1) as usize
                        } else {
                            usize::MAX
                        },
                    ),
                    None => steps.last().0 is Done,
                }
            },
            Err(e) => e is PrefixViolation && exists|i: int|
                0 <= i < page@.len() && forall|t: Seq<u8>|
                    (#[trigger] page@[i]).key@ != #[trigger] (scan.prefix() + t),
        },
{
    match r {
        Ok(begun) => {
            let all = begun.buffered();
            let n = page@.len() as int;
            assert(all.len() == n);
            assert forall|i: int| 0 <= i < n implies ((
            #[trigger] steps[i]).0 matches ScanStep::Item(pair) && page@[i].key@ == scan.prefix()
                + pair.key@ && page@[i].value@ == pair.value@) by {
                lemma_steps(begun, steps, i);
                assert(page@[i].key@ == scan.prefix() + all[0 + i].key@);
            }
            if n > 0 {
                lemma_steps(begun, steps, n - 1);
                assert(steps[n] == steps.last());
            }
        },
        Err(_) => {
            let i = choose|i: int|
                0 <= i < page@.len() && !starts_with((#[trigger] page@[i]).key@, scan.prefix());
            law_prefix(page@[i].key@, scan.prefix());
        },
    }
}

/// What waits to be handed out comes before the rows of a page that arrives.
pub proof fn law_page_behind<C>(
    scan: PagedScan<C>,
    pair: KvPair,
    rest: PagedScan<C>,
    page: Vec<KvPair>,
    next: Option<C>,
    more: PagedScan<C>,
    r: (ScanStep<C>, PagedScan<C>),
)
    requires
        call_ensures(PagedScan::<C>::step, (scan,), (ScanStep::Item(pair), rest)),
        call_ensures(
            PagedScan::<C>::on_page,
            (scan, page, next),
            Ok::<PagedScan<C>, FdbStorageError>(more),
        ),
        call_ensures(PagedScan::<C>::step, (more,), r),
    ensures
        r.0 == ScanStep::<C>::Item(pair),
{
    assert(scan.buffered()[0] == pair);
    assert(more.buffered()[0] == scan.buffered()[0]);
}

/// The steps of a scan hand out its waiting pairs one by one.
proof fn lemma_steps<C>(
    begun: PagedScan<C>,
    steps: Seq<(ScanStep<C>, PagedScan<C>)>,
    i: int,
)
    requires
        0 <= i < steps.len(),
        i < begun.buffered().len(),
        call_ensures(PagedScan::<C>::step, (begun,), steps[0]),
        forall|i: int|
            0 < i < steps.len() ==> call_ensures(
                PagedScan::<C>::step,
                (steps[i - 1].1,),
                #[trigger] steps[i],
            ),
    ensures
        steps[i].0 == ScanStep::<C>::Item(begun.buffered()[i]),
        steps[i].1.buffered() == begun.buffered().subrange(
            i + 1,
            begun.buffered().len() as int,
        ),
        steps[i].1.cursor() == begun.cursor(),
        steps[i].1.iteration() == begun.iteration(),
    decreases i,
{
    let all = begun.buffered();
    if i == 0 {
        let rest = steps[0].1.buffered();
        let pair = steps[0].0->Item_0;
        assert(all == seq![pair] + rest);
        assert(rest =~= all.subrange(1, all.len() as int));
    } else {
        lemma_steps(begun, steps, i - 1);
        let before = steps[i - 1].1;
        let left = before.buffered();
        assert(call_ensures(PagedScan::<C>::step, (before,), steps[i]));
        let rest = steps[i].1.buffered();
        let pair = steps[i].0->Item_0;
        assert(left == seq![pair] + rest);
        assert(pair == left[0] && left[0] == all[i]);
        assert(rest =~= left.subrange(1, left.len() as int));
        assert(rest =~= all.subrange(i + 1, all.len() as int));
    }
}

} // verus!
