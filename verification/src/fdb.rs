//! The FoundationDB backend's own logic: directory paths, raw bounds, key
//! selectors, and the paging of scans.
//!
//! The engine resolves directories itself; what is decided here is how a
//! directory's key bounds become raw bounds and selectors, what a page of rows
//! yields, and which failures may be retried.

use core::ops::Bound;

use vstd::prelude::*;
use vstd::utf8::{encode_utf8, encode_utf8_valid_utf8};

use crate::bytes::{
    bytes_lt, concat_bytes, copy_bytes, copy_tail, has_prefix, le, lemma_lt_push_zero, lemma_order,
    lemma_starts_with_split, lt, starts_with, string_from_utf8, tail,
};
use crate::error::{ErrorMessage, RetryableStorageError};
use crate::flatdir::layout::ROOT_PATH_SEGMENT;
use crate::flatengine::{
    anchored, byte_strings, content, in_dir_range, lemma_raw_range_exact, lemma_strip_scan, raw_end,
    raw_start,
};
use crate::key::{first_bad_segment, path_of, valid_path, KeyError};
use crate::keyspace::{
    bound_of, crossed, in_range, is_empty_range, law_crossed_is_empty, law_prefix_range_exact,
    lemma_range_common_prefix, next_prefix, successor,
};
use crate::rawkv::{in_key_order, is_scan, lists_key, Rows};
use crate::stream::KvPair;
use crate::text::joined;

verus! {

/// An error from the FoundationDB backend, with what the backend's decisions
/// need of the engine's own errors.
#[derive(Debug, PartialEq)]
pub enum FdbStorageError {
    /// The engine failed.
    Fdb {
        /// The engine's error code.
        code: i32,
        /// Whether the engine calls the error retryable.
        retryable: bool,
        /// The engine's text.
        message: String,
    },
    /// The commit failed.
    Commit {
        /// Whether the engine says that the commit did not happen and may be
        /// retried.
        retryable_not_committed: bool,
        /// The engine's text.
        message: String,
    },
    /// A directory path failed validation.
    Key(KeyError),
    /// The directory layer failed.
    Directory(String),
    /// A range returned a key outside the resolved directory.
    PrefixViolation,
    /// A mutation was attempted through a read-only handle.
    ReadOnlyMutation,
}

impl RetryableStorageError for FdbStorageError {
    open spec fn retryable(&self) -> bool {
        match self {
            FdbStorageError::Fdb { code: _, retryable, message: _ } => *retryable,
            FdbStorageError::Commit { retryable_not_committed, message: _ } => {
                *retryable_not_committed
            },
            _ => false,
        }
    }

    fn is_retryable(&self) -> (r: bool) {
        match self {
            FdbStorageError::Fdb { code: _, retryable, message: _ } => *retryable,
            FdbStorageError::Commit { retryable_not_committed, message: _ } => {
                *retryable_not_committed
            },
            _ => false,
        }
    }
}

impl ErrorMessage for FdbStorageError {
    open spec fn text(&self) -> Seq<char> {
        match self {
            FdbStorageError::Fdb { code: _, retryable: _, message } => "foundationdb: "@ + message@,
            FdbStorageError::Commit { retryable_not_committed: _, message } => {
                "transaction commit: "@ + message@
            },
            FdbStorageError::Key(e) => e.text(),
            FdbStorageError::Directory(message) => "foundationdb directory: "@ + message@,
            FdbStorageError::PrefixViolation => {
                "range returned a key outside the resolved directory"@
            },
            FdbStorageError::ReadOnlyMutation => {
                "mutation attempted through read-only foundationdb state handle"@
            },
        }
    }

    fn message(&self) -> (r: String) {
        match self {
            FdbStorageError::Fdb { code: _, retryable: _, message } => joined(
                "foundationdb: ",
                message.as_str(),
            ),
            FdbStorageError::Commit { retryable_not_committed: _, message } => joined(
                "transaction commit: ",
                message.as_str(),
            ),
            FdbStorageError::Key(e) => e.message(),
            FdbStorageError::Directory(message) => joined(
                "foundationdb directory: ",
                message.as_str(),
            ),
            FdbStorageError::PrefixViolation => {
                "range returned a key outside the resolved directory".to_owned()
            },
            FdbStorageError::ReadOnlyMutation => {
                "mutation attempted through read-only foundationdb state handle".to_owned()
            },
        }
    }
}

/// How a call of the directory layer failed.
pub enum DirectoryFailure {
    /// The engine failed beneath the layer, directly or in its allocator.
    Engine {
        /// The engine's error code.
        code: i32,
        /// Whether the engine calls the error retryable.
        retryable: bool,
        /// The engine's text.
        message: String,
    },
    /// The directory or its path does not exist.
    Missing(String),
    /// Anything else, with the layer's text.
    Other(String),
}

impl DirectoryFailure {
    /// The failure of a call on a directory that was opened: whatever it says, the
    /// directory is not missing.
    pub fn once_opened(self) -> (r: DirectoryFailure)
        ensures
            r == match self {
                DirectoryFailure::Missing(message) => DirectoryFailure::Other(message),
                failure => failure,
            },
    {
        match self {
            DirectoryFailure::Missing(message) => DirectoryFailure::Other(message),
            failure => failure,
        }
    }

    /// Whether the failure says that the directory is not there.
    pub fn is_missing(&self) -> (r: bool)
        ensures
            r == (self is Missing),
    {
        match self {
            DirectoryFailure::Missing(_) => true,
            _ => false,
        }
    }
}

/// Whether an error is the one that a directory-layer failure is reported as.
pub open spec fn is_dir_err(failure: DirectoryFailure, e: FdbStorageError) -> bool {
    match failure {
        DirectoryFailure::Engine { code, retryable, message } => e == (FdbStorageError::Fdb {
            code,
            retryable,
            message,
        }),
        DirectoryFailure::Missing(text) => e == FdbStorageError::Directory(text),
        DirectoryFailure::Other(text) => e == FdbStorageError::Directory(text),
    }
}

/// Maps a failure of the directory layer. An engine failure keeps its own
/// classification, so that a retryable one stays retryable.
pub fn dir_err(e: DirectoryFailure) -> (r: FdbStorageError)
    ensures
        is_dir_err(e, r),
        r.retryable() == (e matches DirectoryFailure::Engine { code: _, retryable, message: _ }
            && retryable),
{
    match e {
        DirectoryFailure::Engine { code, retryable, message } => FdbStorageError::Fdb {
            code,
            retryable,
            message,
        },
        DirectoryFailure::Missing(text) => FdbStorageError::Directory(text),
        DirectoryFailure::Other(text) => FdbStorageError::Directory(text),
    }
}

/// Whether a result is the layer's path for a directory: the reserved anchor and
/// the segments as text, or the first segment that is not text.
pub open spec fn is_layer_path(dir: &[&[u8]], r: Result<Vec<String>, KeyError>) -> bool {
    match r {
        Ok(path) => {
            &&& valid_path(path_of(dir@))
            &&& path@.len() == dir@.len() + 1
            &&& forall|i: int|
                0 <= i < path@.len() ==> encode_utf8((#[trigger] path@[i])@) == anchored(
                    path_of(dir@),
                )[i]
        },
        Err(KeyError::DirSegmentNotUtf8 { segment }) => first_bad_segment(
            path_of(dir@),
            segment as int,
        ),
        Err(KeyError::RootNotRemovable) => false,
    }
}

/// The directory layer's path of a directory: the anchor segment, then the
/// directory's segments, as texts.
pub fn dir_path(dir: &[&[u8]]) -> (r: Result<Vec<String>, KeyError>)
    ensures
        is_layer_path(dir, r),
{
    let mut path: Vec<String> = Vec::new();
    path.push(ROOT_PATH_SEGMENT.to_owned());
    let mut i: usize = 0;
    while i < dir.len()
        invariant
            i <= dir@.len(),
            path@.len() == i + 1,
            path@[0]@ == ROOT_PATH_SEGMENT@,
            forall|j: int| 0 <= j < i ==> encode_utf8(path@[j + 1]@) == (#[trigger] dir@[j])@,
            forall|j: int|
                0 <= j < i ==> vstd::utf8::valid_utf8(#[trigger] path_of(dir@)[j]),
        decreases dir.len() - i,
    {
        match string_from_utf8(dir[i]) {
            Some(text) => {
                proof {
                    encode_utf8_valid_utf8(text@);
                    assert(path_of(dir@)[i as int] == encode_utf8(text@));
                }
                path.push(text);
            },
            None => {
                assert(!vstd::utf8::valid_utf8(path_of(dir@)[i as int]));
                return Err(KeyError::DirSegmentNotUtf8 { segment: i });
            },
        }
        i = i + 1;
    }
    proof {
        assert forall|n: int| 0 <= n < path@.len() implies encode_utf8((#[trigger] path@[n])@)
            == anchored(path_of(dir@))[n] by {
            if n > 0 {
                assert(encode_utf8(path@[n]@) == dir@[n - 1]@);
            }
        }
    }
    Ok(path)
}

/// The layer's path of a directory that is to be removed. The root is refused,
/// before the path is looked at.
pub fn removal_path(dir: &[&[u8]]) -> (r: Result<Vec<String>, KeyError>)
    ensures
        dir@.len() == 0 <==> r == Err::<Vec<String>, KeyError>(KeyError::RootNotRemovable),
        dir@.len() > 0 ==> is_layer_path(dir, r),
{
    if dir.len() == 0 {
        Err(KeyError::RootNotRemovable)
    } else {
        dir_path(dir)
    }
}

/// Whether an error is the one that a read-only handle refuses a mutation with: an
/// invalid path is reported before the refusal.
pub open spec fn is_mutation_refused(dir: &[&[u8]], e: FdbStorageError) -> bool {
    if valid_path(path_of(dir@)) {
        e is ReadOnlyMutation
    } else {
        e matches FdbStorageError::Key(k) && is_layer_path(dir, Err(k))
    }
}

/// Refuses a mutation through a read-only handle.
pub fn refused_mutation(dir: &[&[u8]]) -> (r: FdbStorageError)
    ensures
        is_mutation_refused(dir, r),
{
    match dir_path(dir) {
        Ok(_) => FdbStorageError::ReadOnlyMutation,
        Err(e) => FdbStorageError::Key(e),
    }
}

/// What a scan that owns its transaction makes of a page that failed: where the
/// engine reset the transaction the same page is fetched again, and otherwise the
/// scan ends with the failure.
pub fn after_failure(first: FdbStorageError, reset: bool) -> (r: Option<FdbStorageError>)
    ensures
        r == if reset {
            None
        } else {
            Some(first)
        },
{
    if reset {
        None
    } else {
        Some(first)
    }
}

/// `prefix ‖ key`.
pub fn join(prefix: &[u8], key: &[u8]) -> (r: Vec<u8>)
    ensures
        r@ == prefix@ + key@,
{
    concat_bytes(prefix, key)
}

/// The raw key right behind `prefix ‖ key`.
pub fn just_after(prefix: &[u8], key: &[u8]) -> (r: Vec<u8>)
    ensures
        r@ == (prefix@ + key@).push(0),
{
    let mut out = join(prefix, key);
    out.push(0x00);
    out
}

/// Whether an error reports a content prefix without an end.
pub open spec fn is_unbounded_region(e: FdbStorageError) -> bool {
    e matches FdbStorageError::Directory(text) && text@
        == "directory content prefix has no bounded region end (it is all 0xFF)"@
}

/// The exclusive end of a directory's region: what follows every key that begins
/// with its prefix. A prefix of `0xFF` bytes alone has none.
pub fn region_end(prefix: &[u8]) -> (r: Result<Vec<u8>, FdbStorageError>)
    ensures
        match r {
            Ok(end) => successor(prefix@) == Some(end@),
            Err(e) => successor(prefix@) is None && is_unbounded_region(e),
        },
{
    match next_prefix(prefix) {
        Some(end) => Ok(end),
        None => Err(
            FdbStorageError::Directory(
                "directory content prefix has no bounded region end (it is all 0xFF)".to_owned(),
            ),
        ),
    }
}

/// A directory as the layer resolved it: its prefix and the end of its region.
pub struct ResolvedDir {
    /// The content prefix.
    pub prefix: Vec<u8>,
    /// The exclusive end of the content region.
    pub end: Vec<u8>,
}

/// Whether a result is the directory with this content prefix, or the error that
/// its region has no end.
pub open spec fn is_resolved(prefix: Seq<u8>, r: Result<ResolvedDir, FdbStorageError>) -> bool {
    match r {
        Ok(d) => d.wf() && d.prefix@ == prefix,
        Err(e) => successor(prefix) is None && is_unbounded_region(e),
    }
}

impl ResolvedDir {
    /// The end is the successor of the prefix.
    pub open spec fn wf(&self) -> bool {
        successor(self.prefix@) == Some(self.end@)
    }

    /// A resolved directory with this content prefix.
    pub fn new(prefix: Vec<u8>) -> (r: Result<Self, FdbStorageError>)
        ensures
            is_resolved(prefix@, r),
    {
        match region_end(prefix.as_slice()) {
            Ok(end) => Ok(ResolvedDir { prefix, end }),
            Err(e) => Err(e),
        }
    }
}

/// What a read makes of opening a directory: its data region, or nothing where
/// the directory is not there.
pub fn opened(outcome: Result<Vec<u8>, DirectoryFailure>) -> (r: Result<
    Option<ResolvedDir>,
    FdbStorageError,
>)
    ensures
        match outcome {
            Ok(prefix) => match r {
                Ok(Some(d)) => is_resolved(prefix@, Ok(d)),
                Ok(None) => false,
                Err(e) => is_resolved(prefix@, Err(e)),
            },
            Err(DirectoryFailure::Missing(_)) => r == Ok::<Option<ResolvedDir>, FdbStorageError>(
                None,
            ),
            Err(failure) => r is Err && is_dir_err(failure, r->Err_0),
        },
{
    match outcome {
        Ok(prefix) => match ResolvedDir::new(prefix) {
            Ok(d) => Ok(Some(d)),
            Err(e) => Err(e),
        },
        Err(failure) => {
            if failure.is_missing() {
                Ok(None)
            } else {
                Err(dir_err(failure))
            }
        },
    }
}

/// What a write makes of creating or opening a directory: its data region. The
/// layer has no missing directory to report here, so every failure is one.
pub fn created(outcome: Result<Vec<u8>, DirectoryFailure>) -> (r: Result<
    ResolvedDir,
    FdbStorageError,
>)
    ensures
        match outcome {
            Ok(prefix) => is_resolved(prefix@, r),
            Err(failure) => r is Err && is_dir_err(failure, r->Err_0),
        },
{
    match outcome {
        Ok(prefix) => ResolvedDir::new(prefix),
        Err(failure) => Err(dir_err(failure)),
    }
}

/// The names as bytes, in the order given.
pub open spec fn name_bytes(names: Seq<String>) -> Seq<Seq<u8>> {
    Seq::new(names.len(), |i: int| encode_utf8(names[i]@))
}

/// Whether no name sorts before one that stands in front of it.
pub open spec fn sorted(names: Seq<Seq<u8>>) -> bool {
    forall|i: int, j: int|
        #![trigger names[i], names[j]]
        0 <= i < j < names.len() ==> le(names[i], names[j])
}

/// Puts a name into its place in a sorted list.
fn insert_sorted(list: &mut Vec<Vec<u8>>, name: Vec<u8>)
    requires
        sorted(byte_strings(old(list)@)),
    ensures
        sorted(byte_strings(final(list)@)),
        byte_strings(final(list)@).to_multiset() == byte_strings(old(list)@).to_multiset().insert(
            name@,
        ),
{
    let ghost before = byte_strings(list@);
    let ghost x = name@;
    let mut at: usize = list.len();
    while at > 0 && bytes_lt(name.as_slice(), list[at - 1].as_slice())
        invariant
            at <= list@.len(),
            x == name@,
            before == byte_strings(list@),
            sorted(before),
            forall|i: int| at <= i < list@.len() ==> lt(x, #[trigger] before[i]),
        decreases at,
    {
        proof {
            assert(before[at - 1] == list@[at - 1]@);
        }
        at = at - 1;
    }
    proof {
        let n = at as int;
        assert forall|i: int| 0 <= i < n implies le(#[trigger] before[i], x) by {
            assert(before[n - 1] == list@[n - 1]@);
            lemma_order(before[n - 1], x, x);
            if i < n - 1 {
                assert(le(before[i], before[n - 1]));
                lemma_order(before[i], before[n - 1], x);
            }
        }
    }
    list.insert(at, name);
    proof {
        let n = at as int;
        let after = byte_strings(list@);
        assert(after =~= before.insert(n, x));
        vstd::seq_lib::to_multiset_insert(before, n, x);
        assert forall|i: int, j: int|
            #![trigger after[i], after[j]]
            0 <= i < j < after.len() implies le(after[i], after[j]) by {
            let a = if i < n {
                before[i]
            } else if i > n {
                before[i - 1]
            } else {
                x
            };
            let b = if j < n {
                before[j]
            } else if j > n {
                before[j - 1]
            } else {
                x
            };
            assert(after[i] == a && after[j] == b);
        }
    }
}

/// What a listing makes of the layer's answer: the names as bytes, ascending, or
/// none where the directory is not there.
pub fn listed(outcome: Result<Vec<String>, DirectoryFailure>) -> (r: Result<
    Vec<Vec<u8>>,
    FdbStorageError,
>)
    ensures
        match outcome {
            Ok(names) => {
                &&& r is Ok
                &&& sorted(byte_strings((r->Ok_0)@))
                &&& byte_strings((r->Ok_0)@).to_multiset() == name_bytes(names@).to_multiset()
            },
            Err(DirectoryFailure::Missing(_)) => r is Ok && (r->Ok_0)@.len() == 0,
            Err(failure) => r is Err && is_dir_err(failure, r->Err_0),
        },
{
    match outcome {
        Ok(names) => {
            let mut list: Vec<Vec<u8>> = Vec::new();
            let mut i: usize = 0;
            proof {
                assert(byte_strings(list@) =~= name_bytes(names@).subrange(0, 0));
            }
            while i < names.len()
                invariant
                    i <= names@.len(),
                    sorted(byte_strings(list@)),
                    byte_strings(list@).to_multiset() == name_bytes(names@).subrange(
                        0,
                        i as int,
                    ).to_multiset(),
                decreases names.len() - i,
            {
                let name = copy_bytes(names[i].as_str().as_bytes());
                proof {
                    let all = name_bytes(names@);
                    assert(all.subrange(0, i + 1) =~= all.subrange(0, i as int).push(name@));
                    vstd::seq_lib::to_multiset_build(all.subrange(0, i as int), name@);
                }
                insert_sorted(&mut list, name);
                i = i + 1;
            }
            proof {
                assert(name_bytes(names@).subrange(0, i as int) =~= name_bytes(names@));
            }
            Ok(list)
        },
        Err(failure) => {
            if failure.is_missing() {
                Ok(Vec::new())
            } else {
                Err(dir_err(failure))
            }
        },
    }
}

/// How a scan begins, before anything is asked of the engine.
pub enum ScanPlan {
    /// The path is invalid: the scan fails at its first step.
    Failed(KeyError),
    /// The bounds name no keys: the scan is empty.
    Empty,
    /// The directory with this path is to be opened and scanned.
    Open(Vec<String>),
}

/// Plans a scan. An invalid path fails even where the bounds name no keys.
pub fn scan_plan(dir: &[&[u8]], start: Bound<&[u8]>, end: Bound<&[u8]>) -> (r: ScanPlan)
    ensures
        match r {
            ScanPlan::Failed(e) => is_layer_path(dir, Err(e)),
            ScanPlan::Empty => valid_path(path_of(dir@)) && crossed(bound_of(start), bound_of(end)),
            ScanPlan::Open(path) => is_layer_path(dir, Ok(path)) && !crossed(
                bound_of(start),
                bound_of(end),
            ),
        },
{
    match dir_path(dir) {
        Err(e) => ScanPlan::Failed(e),
        Ok(path) => {
            if is_empty_range(&start, &end) {
                ScanPlan::Empty
            } else {
                ScanPlan::Open(path)
            }
        },
    }
}

/// A position between raw keys, as the engine names it.
#[derive(Debug, PartialEq)]
pub enum Selector {
    /// Before the first key at or after this one.
    FirstGreaterOrEqual(Vec<u8>),
    /// Before the first key after this one.
    FirstGreaterThan(Vec<u8>),
}

/// Whether a key lies at or behind the position.
pub open spec fn behind(s: Selector, k: Seq<u8>) -> bool {
    match s {
        Selector::FirstGreaterOrEqual(at) => le(at@, k),
        Selector::FirstGreaterThan(at) => lt(at@, k),
    }
}

/// The raw key that a position is named by.
pub open spec fn selector_key(s: Selector) -> Seq<u8> {
    match s {
        Selector::FirstGreaterOrEqual(at) => at@,
        Selector::FirstGreaterThan(at) => at@,
    }
}

/// The position where a scan begins.
pub fn start_selector(prefix: &[u8], bound: Bound<&[u8]>) -> (r: Selector)
    ensures
        selector_key(r) == match bound {
            Bound::Included(key) => prefix@ + key@,
            Bound::Excluded(key) => prefix@ + key@,
            Bound::Unbounded => prefix@,
        },
        forall|k: Seq<u8>| #[trigger]
            behind(r, k) <==> crate::keyspace::after_start(
                k,
                raw_start(prefix@, bound_of(bound)),
            ),
{
    match bound {
        Bound::Included(key) => Selector::FirstGreaterOrEqual(join(prefix, key)),
        Bound::Excluded(key) => Selector::FirstGreaterThan(join(prefix, key)),
        Bound::Unbounded => Selector::FirstGreaterOrEqual(copy_bytes(prefix)),
    }
}

/// The position where a scan ends: the keys before it are scanned.
pub fn end_selector(prefix: &[u8], dir_end: &[u8], bound: Bound<&[u8]>) -> (r: Selector)
    requires
        successor(prefix@) == Some(dir_end@),
    ensures
        selector_key(r) == match bound {
            Bound::Included(key) => prefix@ + key@,
            Bound::Excluded(key) => prefix@ + key@,
            Bound::Unbounded => dir_end@,
        },
        forall|k: Seq<u8>|
            !#[trigger] behind(r, k) <==> crate::keyspace::before_end(
                k,
                raw_end(prefix@, bound_of(bound)),
            ),
{
    let r = match bound {
        Bound::Included(key) => Selector::FirstGreaterThan(join(prefix, key)),
        Bound::Excluded(key) => Selector::FirstGreaterOrEqual(join(prefix, key)),
        Bound::Unbounded => Selector::FirstGreaterOrEqual(copy_bytes(dir_end)),
    };
    proof {
        assert forall|k: Seq<u8>|
            !#[trigger] behind(r, k) <==> crate::keyspace::before_end(
                k,
                raw_end(prefix@, bound_of(bound)),
            ) by {
            match bound {
                Bound::Included(key) => {
                    let at = prefix@ + key@;
                    lemma_lt_push_zero(at, k);
                    lemma_order(k, at.push(0), k);
                    lemma_order(at.push(0), k, at.push(0));
                },
                Bound::Excluded(key) => {
                    let at = prefix@ + key@;
                    lemma_order(k, at, k);
                    lemma_order(at, k, at);
                },
                Bound::Unbounded => {
                    lemma_order(k, dir_end@, k);
                    lemma_order(dir_end@, k, dir_end@);
                },
            }
        }
    }
    r
}

/// A scan of a directory as the engine is asked for it.
pub struct RangeSpec {
    /// Where the scan begins.
    pub begin: Selector,
    /// Where the scan ends.
    pub end: Selector,
    /// Whether the keys come in descending order.
    pub reverse: bool,
}

/// Whether two raw bounds under a prefix name no keys: the user's own bounds
/// cross, or the start lies at or behind the end of the region.
pub open spec fn raw_crossed(
    prefix: Seq<u8>,
    region_end: Seq<u8>,
    start: Bound<Seq<u8>>,
    end: Bound<Seq<u8>>,
) -> bool {
    let s = match start {
        Bound::Unbounded => Bound::Included(prefix),
        Bound::Included(k) => Bound::Included(prefix + k),
        Bound::Excluded(k) => Bound::Excluded(prefix + k),
    };
    let e = match end {
        Bound::Unbounded => Bound::Excluded(region_end),
        Bound::Included(k) => Bound::Included(prefix + k),
        Bound::Excluded(k) => Bound::Excluded(prefix + k),
    };
    crossed(s, e)
}

/// Where the raw bounds cross, no key of the directory lies between them.
proof fn lemma_outside_crossed(
    prefix: Seq<u8>,
    region_end: Seq<u8>,
    start: Bound<Seq<u8>>,
    end: Bound<Seq<u8>>,
    k: Seq<u8>,
)
    requires
        successor(prefix) == Some(region_end),
        raw_crossed(prefix, region_end, start, end),
    ensures
        !in_dir_range(prefix, start, end, k),
{
    if in_dir_range(prefix, start, end, k) {
        let t = tail(k, prefix.len());
        lemma_starts_with_split(k, prefix);
        law_prefix_range_exact(prefix, k);
        let s = match start {
            Bound::Unbounded => Bound::Included(prefix),
            Bound::Included(a) => Bound::Included(prefix + a),
            Bound::Excluded(a) => Bound::Excluded(prefix + a),
        };
        let e = match end {
            Bound::Unbounded => Bound::Excluded(region_end),
            Bound::Included(a) => Bound::Included(prefix + a),
            Bound::Excluded(a) => Bound::Excluded(prefix + a),
        };
        match start {
            Bound::Included(a) | Bound::Excluded(a) => lemma_range_common_prefix(prefix, a, t),
            Bound::Unbounded => {},
        }
        match end {
            Bound::Included(a) | Bound::Excluded(a) => lemma_range_common_prefix(prefix, t, a),
            Bound::Unbounded => {},
        }
        law_crossed_is_empty(s, e, k);
    }
}

/// The scan that a directory's key bounds ask for, or `None` where the bounds
/// name no keys: the engine would reject an inverted pair.
pub fn range_option(d: &ResolvedDir, start: Bound<&[u8]>, end: Bound<&[u8]>, reverse: bool) -> (r:
    Option<RangeSpec>)
    requires
        d.wf(),
    ensures
        r is None <==> raw_crossed(d.prefix@, d.end@, bound_of(start), bound_of(end)),
        r is None ==> forall|k: Seq<u8>|
            !#[trigger] in_dir_range(d.prefix@, bound_of(start), bound_of(end), k),
        r matches Some(range) ==> {
            &&& range.reverse == reverse
            &&& le(selector_key(range.begin), selector_key(range.end))
            &&& forall|k: Seq<u8>| #[trigger]
                in_dir_range(d.prefix@, bound_of(start), bound_of(end), k) <==> (behind(
                    range.begin,
                    k,
                ) && !behind(range.end, k))
        },
{
    let start_raw: Vec<u8> = match &start {
        Bound::Unbounded => copy_bytes(d.prefix.as_slice()),
        Bound::Included(k) => join(d.prefix.as_slice(), k),
        Bound::Excluded(k) => join(d.prefix.as_slice(), k),
    };
    let end_raw: Vec<u8> = match &end {
        Bound::Unbounded => copy_bytes(d.end.as_slice()),
        Bound::Included(k) => join(d.prefix.as_slice(), k),
        Bound::Excluded(k) => join(d.prefix.as_slice(), k),
    };
    let start_bound: Bound<&[u8]> = match &start {
        Bound::Excluded(_) => Bound::Excluded(start_raw.as_slice()),
        _ => Bound::Included(start_raw.as_slice()),
    };
    let end_bound: Bound<&[u8]> = match &end {
        Bound::Included(_) => Bound::Included(end_raw.as_slice()),
        _ => Bound::Excluded(end_raw.as_slice()),
    };
    proof {
        let p = d.prefix@;
        if raw_crossed(p, d.end@, bound_of(start), bound_of(end)) {
            assert forall|k: Seq<u8>|
                !#[trigger] in_dir_range(p, bound_of(start), bound_of(end), k) by {
                lemma_outside_crossed(p, d.end@, bound_of(start), bound_of(end), k);
            }
        }
    }
    if is_empty_range(&start_bound, &end_bound) {
        return None;
    }
    let begin = start_selector(d.prefix.as_slice(), start);
    let finish = end_selector(d.prefix.as_slice(), d.end.as_slice(), end);
    proof {
        lemma_order(selector_key(finish), selector_key(begin), selector_key(finish));
        lemma_order(selector_key(begin), selector_key(finish), selector_key(begin));
        assert forall|k: Seq<u8>| #[trigger]
            in_dir_range(d.prefix@, bound_of(start), bound_of(end), k) <==> (behind(begin, k)
                && !behind(finish, k)) by {
            assert(behind(begin, k) || !behind(begin, k));
            lemma_raw_range_exact(d.prefix@, bound_of(start), bound_of(end), k);
        }
    }
    Some(RangeSpec { begin, end: finish, reverse })
}

/// Whether a half-open raw range holds exactly the keys of a directory between two
/// bounds; without a range there is no such key.
pub open spec fn clears_exactly(
    prefix: Seq<u8>,
    start: Bound<Seq<u8>>,
    end: Bound<Seq<u8>>,
    r: Option<(Vec<u8>, Vec<u8>)>,
) -> bool {
    match r {
        Some((lo, hi)) => {
            &&& lt(lo@, hi@)
            &&& forall|k: Seq<u8>| #[trigger]
                in_dir_range(prefix, start, end, k) <==> (le(lo@, k) && lt(k, hi@))
        },
        None => forall|k: Seq<u8>| !#[trigger] in_dir_range(prefix, start, end, k),
    }
}

/// The half-open raw range `[lo, hi)` that clearing a directory's key range
/// comes to, or `None` where it names no keys: the engine would reject an
/// inverted pair.
pub fn clear_bounds(d: &ResolvedDir, start: Bound<&[u8]>, end: Bound<&[u8]>) -> (r: Option<
    (Vec<u8>, Vec<u8>),
>)
    requires
        d.wf(),
    ensures
        match r {
            Some((lo, hi)) => {
                &&& lt(lo@, hi@)
                &&& forall|k: Seq<u8>| #[trigger]
                    in_dir_range(d.prefix@, bound_of(start), bound_of(end), k) <==> (le(lo@, k)
                        && lt(k, hi@))
            },
            None => forall|k: Seq<u8>|
                !#[trigger] in_dir_range(d.prefix@, bound_of(start), bound_of(end), k),
        },
        clears_exactly(d.prefix@, bound_of(start), bound_of(end), r),
{
    let lo = match start {
        Bound::Included(key) => join(d.prefix.as_slice(), key),
        Bound::Excluded(key) => just_after(d.prefix.as_slice(), key),
        Bound::Unbounded => copy_bytes(d.prefix.as_slice()),
    };
    let hi = match end {
        Bound::Included(key) => just_after(d.prefix.as_slice(), key),
        Bound::Excluded(key) => join(d.prefix.as_slice(), key),
        Bound::Unbounded => copy_bytes(d.end.as_slice()),
    };
    let ghost p = d.prefix@;
    proof {
        assert forall|k: Seq<u8>| le(lo@, k) <==> #[trigger] crate::keyspace::after_start(
            k,
            raw_start(p, bound_of(start)),
        ) by {
            if let Bound::Excluded(key) = start {
                lemma_lt_push_zero(p + key@, k);
            }
        }
        assert forall|k: Seq<u8>| #[trigger]
            in_dir_range(p, bound_of(start), bound_of(end), k) <==> (le(lo@, k) && lt(k, hi@)) by {
            lemma_raw_range_exact(p, bound_of(start), bound_of(end), k);
            assert(crate::keyspace::after_start(k, raw_start(p, bound_of(start))) <==> le(lo@, k));
        }
    }
    if bytes_lt(lo.as_slice(), hi.as_slice()) {
        Some((lo, hi))
    } else {
        proof {
            assert forall|k: Seq<u8>|
                !#[trigger] in_dir_range(p, bound_of(start), bound_of(end), k) by {
                lemma_order(lo@, k, hi@);
            }
        }
        None
    }
}

/// Whether every key of a page begins with the prefix.
pub open spec fn page_in_prefix(prefix: Seq<u8>, page: Seq<KvPair>) -> bool {
    forall|i: int| 0 <= i < page.len() ==> starts_with((#[trigger] page[i]).key@, prefix)
}

/// Takes the directory's prefix off every key of a page. A key outside of the
/// directory is [`FdbStorageError::PrefixViolation`].
pub fn strip_page(prefix: &[u8], page: Vec<KvPair>) -> (r: Result<Vec<KvPair>, FdbStorageError>)
    ensures
        match r {
            Ok(list) => {
                &&& page_in_prefix(prefix@, page@)
                &&& list@.len() == page@.len()
                &&& forall|i: int|
                    0 <= i < list@.len() ==> page@[i].key@ == prefix@ + (#[trigger] list@[i]).key@
                        && list@[i].value@ == page@[i].value@
            },
            Err(e) => !page_in_prefix(prefix@, page@) && e is PrefixViolation,
        },
{
    let mut list: Vec<KvPair> = Vec::with_capacity(page.len());
    let mut i: usize = 0;
    while i < page.len()
        invariant
            i <= page@.len(),
            list@.len() == i,
            forall|j: int| 0 <= j < i ==> starts_with((#[trigger] page@[j]).key@, prefix@),
            forall|j: int|
                0 <= j < i ==> page@[j].key@ == prefix@ + (#[trigger] list@[j]).key@
                    && list@[j].value@ == page@[j].value@,
        decreases page.len() - i,
    {
        let pair = &page[i];
        if !has_prefix(pair.key.as_slice(), prefix) {
            assert(!starts_with(page@[i as int].key@, prefix@));
            return Err(FdbStorageError::PrefixViolation);
        }
        proof {
            lemma_starts_with_split(page@[i as int].key@, prefix@);
        }
        list.push(
            KvPair {
                key: copy_tail(pair.key.as_slice(), prefix.len()),
                value: copy_bytes(pair.value.as_slice()),
            },
        );
        i = i + 1;
    }
    Ok(list)
}

/// What a paged scan does next.
pub enum ScanStep<C> {
    /// Hand out a pair.
    Item(KvPair),
    /// Fetch the page at this cursor, as the so-and-so-many-th.
    Fetch(C, usize),
    /// The scan is over.
    Done,
}

/// A paged scan: pairs that wait to be handed out, and the cursor of the next
/// page, if there is one.
pub struct PagedScan<C> {
    prefix: Vec<u8>,
    /// The waiting pairs, the next one last.
    waiting: Vec<KvPair>,
    cursor: Option<C>,
    iteration: usize,
}

impl<C> PagedScan<C> {
    /// The directory's prefix.
    pub closed spec fn prefix(&self) -> Seq<u8> {
        self.prefix@
    }

    /// The pairs that wait to be handed out, in order.
    pub closed spec fn buffered(&self) -> Seq<KvPair> {
        self.waiting@.reverse()
    }

    /// The cursor of the next page.
    pub closed spec fn cursor(&self) -> Option<C> {
        self.cursor
    }

    /// The number of the next page.
    pub closed spec fn iteration(&self) -> usize {
        self.iteration
    }

    /// A scan that begins at a cursor, with the first page.
    pub fn new(prefix: Vec<u8>, cursor: Option<C>) -> (r: Self)
        ensures
            r.prefix() == prefix@,
            r.buffered().len() == 0,
            r.cursor() == cursor,
            r.iteration() == 1,
    {
        PagedScan { prefix, waiting: Vec::new(), cursor, iteration: 1 }
    }

    /// Decides what comes next: a waiting pair, else the next page, else the
    /// end.
    pub fn step(self) -> (r: (ScanStep<C>, Self))
        ensures
            r.1.prefix() == self.prefix(),
            r.1.iteration() == self.iteration(),
            match r.0 {
                ScanStep::Item(pair) => {
                    &&& self.buffered() == seq![pair] + r.1.buffered()
                    &&& r.1.cursor() == self.cursor()
                },
                ScanStep::Fetch(cursor, n) => {
                    &&& self.buffered().len() == 0
                    &&& self.cursor() == Some(cursor)
                    &&& n == self.iteration()
                    &&& r.1.buffered().len() == 0
                    &&& r.1.cursor() is None
                },
                ScanStep::Done => self.buffered().len() == 0 && self.cursor() is None,
            },
    {
        let ghost before = self.waiting@;
        let PagedScan { prefix, mut waiting, cursor, iteration } = self;
        match waiting.pop() {
            Some(pair) => {
                assert(before.reverse() =~= seq![pair] + waiting@.reverse());
                (ScanStep::Item(pair), PagedScan { prefix, waiting, cursor, iteration })
            },
            None => match cursor {
                Some(c) => (
                    ScanStep::Fetch(c, iteration),
                    PagedScan { prefix, waiting, cursor: None, iteration },
                ),
                None => (
                    ScanStep::Done,
                    PagedScan { prefix, waiting, cursor: None, iteration },
                ),
            },
        }
    }

    /// A page arrived, with the cursor behind it. Its pairs wait to be handed
    /// out under their keys within the directory, behind those that wait already.
    pub fn on_page(self, page: Vec<KvPair>, next: Option<C>) -> (r: Result<Self, FdbStorageError>)
        ensures
            match r {
                Ok(scan) => {
                    &&& page_in_prefix(self.prefix(), page@)
                    &&& scan.prefix() == self.prefix()
                    &&& scan.cursor() == next
                    &&& scan.iteration() == if self.iteration() == usize::MAX {
                        usize::MAX
                    } else {
                        (self.iteration() + 1) as usize
                    }
                    &&& scan.buffered().len() == self.buffered().len() + page@.len()
                    &&& forall|i: int|
                        0 <= i < self.buffered().len() ==> #[trigger] scan.buffered()[i]
                            == self.buffered()[i]
                    &&& forall|i: int|
                        0 <= i < page@.len() ==> (#[trigger] page@[i]).key@ == self.prefix()
                            + scan.buffered()[self.buffered().len() + i].key@
                            && scan.buffered()[self.buffered().len() + i].value@ == page@[i].value@
                },
                Err(e) => !page_in_prefix(self.prefix(), page@) && e is PrefixViolation,
            },
    {
        let PagedScan { prefix, waiting: mut ahead, cursor: _, iteration } = self;
        let ghost before = ahead@;
        let mut list = match strip_page(prefix.as_slice(), page) {
            Ok(list) => list,
            Err(e) => return Err(e),
        };
        let ghost stripped = list@;
        let mut waiting: Vec<KvPair> = Vec::new();
        while list.len() > 0
            invariant
                list@ == stripped.subrange(0, list@.len() as int),
                list@.len() + waiting@.len() == stripped.len(),
                forall|i: int|
                    0 <= i < waiting@.len() ==> #[trigger] waiting@[i] == stripped[stripped.len()
                        - 1 - i],
            decreases list@.len(),
        {
            let ghost n = list@.len();
            match list.pop() {
                Some(pair) => {
                    assert(list@ =~= stripped.subrange(0, n - 1));
                    waiting.push(pair);
                },
                None => {},
            }
        }
        waiting.append(&mut ahead);
        assert(waiting@.reverse() =~= before.reverse() + stripped);
        let following: usize = if iteration == usize::MAX {
            usize::MAX
        } else {
            iteration + 1
        };
        Ok(PagedScan { prefix, waiting, cursor: next, iteration: following })
    }
}

/// Whether rows are the engine's answer to a range: the rows between its two
/// selectors, in its direction.
pub open spec fn answers(m: Rows, range: RangeSpec, rows: Seq<KvPair>) -> bool {
    &&& forall|i: int|
        0 <= i < rows.len() ==> m.dom().contains((#[trigger] rows[i]).key@) && m[rows[i].key@]
            == rows[i].value@ && behind(range.begin, rows[i].key@) && !behind(
            range.end,
            rows[i].key@,
        )
    &&& in_key_order(rows, !range.reverse)
    &&& forall|k: Seq<u8>| #[trigger]
        m.dom().contains(k) && behind(range.begin, k) && !behind(range.end, k) ==> lists_key(
            rows,
            k,
        )
}

/// The rows that the engine hands out for a directory's range, one page after
/// another, are with the directory's prefix taken off the scan of its content.
pub proof fn law_paged_scan(
    m: Rows,
    d: ResolvedDir,
    start: Bound<Seq<u8>>,
    end: Bound<Seq<u8>>,
    range: RangeSpec,
    rows: Seq<KvPair>,
    list: Seq<KvPair>,
)
    requires
        d.wf(),
        forall|k: Seq<u8>| #[trigger]
            in_dir_range(d.prefix@, start, end, k) <==> (behind(range.begin, k) && !behind(
                range.end,
                k,
            )),
        answers(m, range, rows),
        list.len() == rows.len(),
        forall|i: int|
            0 <= i < list.len() ==> rows[i].key@ == d.prefix@ + (#[trigger] list[i]).key@
                && list[i].value@ == rows[i].value@,
    ensures
        page_in_prefix(d.prefix@, rows),
        is_scan(content(m, d.prefix@), start, end, !range.reverse, list),
{
    let p = d.prefix@;
    assert forall|i: int| 0 <= i < rows.len() implies starts_with((#[trigger] rows[i]).key@, p)
        && in_range(rows[i].key@, raw_start(p, start), raw_end(p, end)) by {
        assert(in_dir_range(p, start, end, rows[i].key@));
        lemma_raw_range_exact(p, start, end, rows[i].key@);
    }
    assert forall|k: Seq<u8>| #[trigger]
        m.dom().contains(k) && in_range(k, raw_start(p, start), raw_end(p, end)) implies lists_key(
        rows,
        k,
    ) by {
        lemma_raw_range_exact(p, start, end, k);
        assert(in_dir_range(p, start, end, k));
    }
    lemma_strip_scan(m, p, start, end, !range.reverse, rows, list);
}

} // verus!
