//! The flat directory layout engine over a [`RawKv`] view.
//!
//! One layout, written once here; the flat backends implement [`RawKv`] over
//! their transaction views and route every operation through [`FlatEngine`].
//!
//! The layout (see [`crate::flatdir`]) is a node tree of allocated prefixes
//! (packed `i64`s from the High Contention Allocator), a version row, and HCA
//! counter/recent rows, all under the `0xFE` node region. Data keys are
//! `prefix ‖ key` in the `0x00`–`0xFD` region; `0xFF` is reserved.
//!
//! Stores are opened lazily: a fresh store (no version row) answers empty on
//! reads, and the first create writes the version row. A store whose version
//! row this layout does not read fails every operation with
//! [`FlatError::Foreign`].

use core::ops::Bound;

use vstd::prelude::*;
use vstd::utf8::{encode_utf8, valid_utf8};

use crate::bytes::{
    bytes_lt, concat_bytes, copy_bytes, copy_tail, le, lemma_lt_push_zero, lemma_order,
    lemma_starts_with_concat, lemma_starts_with_split, lt, starts_with, tail,
};
use crate::directory_laws::{
    clears, deletes, dir_found, listing_refused, lists, remove_refused, removes,
};
use crate::flatdir::error::FlatError;
use crate::flatdir::hca::thread_candidates;
use crate::flatdir::layout::{child_row, node, ROOT_PATH_SEGMENT};
use crate::flatdir::model::{
    lemma_packed_successor, open_refused, opens, refusal_leaves, same_data, version_ok, walk,
    with_version, Walk,
};
use crate::flatdir::ops::{
    bounds_ref, check_version_read, create_or_open, creates, find, list_children, remove_dir, texts,
};
use crate::flatdir::prune::takes_within;
use crate::flatdir::touch::{only_adds, swept};
use crate::flatdir::tuple::int_of_element;
use crate::key::{first_bad_segment, path_of, valid_path, validate_dir, KeyError};
use crate::keyspace::{
    after_start, before_end, bound_of, crossed, in_range, is_empty_range, law_prefix_range_exact,
    lemma_range_common_prefix, next_prefix, owned_bound_of, prefix_end, successor,
};
use crate::rawkv::{
    begins_scan, call_fails, comes_before, is_scan, lists_key, read_fails, row_at, value_of,
    write_fails, RawKv, Rows, Terms,
};
use crate::stream::KvPair;
use crate::text::{decimal, joined, with_number};

verus! {

// ---------------------------------------------------------------------------
// Directories as the rows show them
// ---------------------------------------------------------------------------

/// Why an operation is refused on account of what it was given or what the
/// store holds.
pub enum Refusal {
    /// The store has a version this layout does not read.
    Foreign,
    /// The store's content is malformed.
    Corrupt,
    /// The directory path is invalid.
    Key(KeyError),
}

/// The refusal that an error reports; `None` where the engine view failed.
pub open spec fn refusal_of<E>(e: FlatError<E>) -> Option<Refusal> {
    match e {
        FlatError::Foreign => Some(Refusal::Foreign),
        FlatError::Corrupt => Some(Refusal::Corrupt),
        FlatError::Key(k) => Some(Refusal::Key(k)),
        FlatError::Engine(_) => None,
    }
}

/// Whether an error hands on that of a failed read of the view.
pub open spec fn read_failed<R: RawKv>(view: R, e: FlatError<R::Error>) -> bool {
    e matches FlatError::Engine(x) && read_fails(view, x)
}

/// Whether an error hands on that of a failed read of the view, or of a failed write
/// through it.
pub open spec fn access_failed<R: RawKv>(view: R, e: FlatError<R::Error>) -> bool {
    e matches FlatError::Engine(x) && (read_fails(view, x) || write_fails(view, x))
}

/// Whether an error hands on that of a failed read or write, on a view that works on
/// these terms.
pub open spec fn engine_failed<R: RawKv>(terms: Terms, e: FlatError<R::Error>) -> bool {
    e matches FlatError::Engine(x) && call_fails::<R>(terms, x)
}

/// The layout path of a directory: the anchor segment, then the directory's
/// own segments.
pub open spec fn anchored(dir: Seq<Seq<u8>>) -> Seq<Seq<u8>> {
    seq![encode_utf8(ROOT_PATH_SEGMENT@)] + dir
}

/// The refusal of a path with a segment that is no text.
pub open spec fn bad_path(dir: Seq<Seq<u8>>) -> Refusal {
    Refusal::Key(
        KeyError::DirSegmentNotUtf8 {
            segment: choose|i: usize| first_bad_segment(dir, i as int),
        },
    )
}

/// A path whose first bad segment is the one named is refused for that segment.
pub proof fn lemma_bad_path(path: Seq<Seq<u8>>, e: KeyError)
    requires
        e matches KeyError::DirSegmentNotUtf8 { segment } && first_bad_segment(
            path,
            segment as int,
        ),
    ensures
        !valid_path(path),
        bad_path(path) == Refusal::Key(e),
{
    if let KeyError::DirSegmentNotUtf8 { segment } = e {
        let other = choose|i: usize| first_bad_segment(path, i as int);
        assert(first_bad_segment(path, segment as int));
        assert(first_bad_segment(path, other as int));
        assert(segment == other);
    }
}

/// The allocated prefix of a directory, `None` where there is no such
/// directory, or why the question is refused.
pub open spec fn lookup(m: Rows, dir: Seq<Seq<u8>>) -> Result<Option<Seq<u8>>, Refusal> {
    if !valid_path(dir) {
        Err(bad_path(dir))
    } else if !version_ok(m) {
        Err(Refusal::Foreign)
    } else {
        match walk(m, anchored(dir)) {
            Walk::Found(p) => Ok(Some(p)),
            Walk::Missing => Ok(None),
            Walk::Malformed => Err(Refusal::Corrupt),
        }
    }
}

/// The keys and values behind a prefix.
pub open spec fn content(m: Rows, p: Seq<u8>) -> Rows {
    Map::new(|k: Seq<u8>| m.dom().contains(p + k), |k: Seq<u8>| m[p + k])
}

/// The keys and values of a directory; none where there is no such directory.
pub open spec fn dir_content(m: Rows, dir: Seq<Seq<u8>>) -> Rows {
    match lookup(m, dir) {
        Ok(Some(p)) => content(m, p),
        _ => Map::empty(),
    }
}

/// A lower bound over keys, moved behind a prefix.
pub open spec fn raw_start(p: Seq<u8>, start: Bound<Seq<u8>>) -> Bound<Seq<u8>> {
    match start {
        Bound::Included(k) => Bound::Included(p + k),
        Bound::Excluded(k) => Bound::Excluded(p + k),
        Bound::Unbounded => Bound::Included(p),
    }
}

/// An upper bound over keys, moved behind a prefix; always exclusive.
pub open spec fn raw_end(p: Seq<u8>, end: Bound<Seq<u8>>) -> Bound<Seq<u8>> {
    match end {
        Bound::Included(k) => Bound::Excluded((p + k).push(0)),
        Bound::Excluded(k) => Bound::Excluded(p + k),
        Bound::Unbounded => prefix_end(p),
    }
}

/// Whether a raw key is one of a directory's keys within bounds.
pub open spec fn in_dir_range(
    prefix: Seq<u8>,
    start: Bound<Seq<u8>>,
    end: Bound<Seq<u8>>,
    k: Seq<u8>,
) -> bool {
    starts_with(k, prefix) && in_range(tail(k, prefix.len()), start, end)
}

/// Whether `names` are the child segments of the directory with prefix `p`:
/// exactly those with a child row, each once, ascending.
pub open spec fn is_dir_listing(m: Rows, p: Seq<u8>, names: Seq<Seq<u8>>) -> bool {
    &&& forall|i: int|
        0 <= i < names.len() ==> valid_utf8(#[trigger] names[i]) && m.dom().contains(
            child_row(node(p), names[i]),
        )
    &&& forall|i: int, j: int|
        #![trigger names[i], names[j]]
        0 <= i < j < names.len() ==> lt(names[i], names[j])
    &&& forall|seg: Seq<u8>|
        valid_utf8(seg) && m.dom().contains(#[trigger] child_row(node(p), seg)) ==> names.contains(
            seg,
        )
}

/// The byte strings of a list of owned ones.
pub open spec fn byte_strings(list: Seq<Vec<u8>>) -> Seq<Seq<u8>> {
    Seq::new(list.len(), |i: int| list[i]@)
}

/// The raw range under a prefix holds exactly the prefix's keys in the range.
pub proof fn lemma_raw_range_exact(
    p: Seq<u8>,
    start: Bound<Seq<u8>>,
    end: Bound<Seq<u8>>,
    k: Seq<u8>,
)
    requires
        successor(p) is Some,
    ensures
        in_range(k, raw_start(p, start), raw_end(p, end)) <==> in_dir_range(p, start, end, k),
{
    law_prefix_range_exact(p, k);
    if starts_with(k, p) {
        let t = tail(k, p.len());
        lemma_starts_with_split(k, p);
        match start {
            Bound::Included(s) => lemma_range_common_prefix(p, s, t),
            Bound::Excluded(s) => lemma_range_common_prefix(p, s, t),
            Bound::Unbounded => {},
        }
        match end {
            Bound::Included(e) => {
                lemma_range_common_prefix(p, t, e);
                lemma_lt_push_zero(p + e, k);
                lemma_order(k, (p + e).push(0), k);
                lemma_order(k, p + e, k);
                lemma_order((p + e).push(0), k, (p + e).push(0));
                lemma_order(p + e, k, p + e);
            },
            Bound::Excluded(e) => lemma_range_common_prefix(p, t, e),
            Bound::Unbounded => {},
        }
    } else if in_range(k, raw_start(p, start), raw_end(p, end)) {
        // The raw range stays inside the prefix's region.
        lemma_raw_start_after(p, start, k);
        lemma_raw_end_before(p, end, k);
        assert(false);
    }
}

/// Whatever satisfies a raw lower bound sorts at or after the prefix.
proof fn lemma_raw_start_after(p: Seq<u8>, start: Bound<Seq<u8>>, k: Seq<u8>)
    requires
        after_start(k, raw_start(p, start)),
    ensures
        le(p, k),
{
    match start {
        Bound::Included(s) => {
            lemma_starts_with_concat(p, s);
            crate::bytes::lemma_prefix_le(p, p + s);
            lemma_order(p, p + s, k);
        },
        Bound::Excluded(s) => {
            lemma_starts_with_concat(p, s);
            crate::bytes::lemma_prefix_le(p, p + s);
            lemma_order(p, p + s, k);
        },
        Bound::Unbounded => {},
    }
}

/// Whatever satisfies a raw upper bound sorts before the prefix's successor.
proof fn lemma_raw_end_before(p: Seq<u8>, end: Bound<Seq<u8>>, k: Seq<u8>)
    requires
        successor(p) is Some,
        before_end(k, raw_end(p, end)),
    ensures
        lt(k, successor(p)->0),
{
    let n = successor(p)->0;
    match end {
        Bound::Included(e) => {
            let x = (p + e).push(0);
            assert(x =~= p + e.push(0));
            lemma_starts_with_concat(p, e.push(0));
            law_prefix_range_exact(p, x);
            lemma_order(k, x, n);
        },
        Bound::Excluded(e) => {
            lemma_starts_with_concat(p, e);
            law_prefix_range_exact(p, p + e);
            lemma_order(k, p + e, n);
        },
        Bound::Unbounded => {},
    }
}

// ---------------------------------------------------------------------------
// Bound mapping
// ---------------------------------------------------------------------------

/// The raw engine range of one directory's data: the resolved prefix and the
/// raw byte bounds over the engine's whole keyspace. The start bound carries
/// its own inclusion; the end bound is always `Excluded`. Keys that a cursor
/// yields carry the prefix; strip `prefix.len()` bytes to get the
/// within-directory key.
pub struct DataBounds {
    /// The directory's allocated prefix.
    pub prefix: Vec<u8>,
    /// Raw start bound.
    pub start: Bound<Vec<u8>>,
    /// Raw end bound, exclusive.
    pub end: Bound<Vec<u8>>,
}

/// How a bound is described: its inclusion and the length of its key.
pub open spec fn bound_text(b: Bound<Seq<u8>>) -> Seq<char> {
    match b {
        Bound::Unbounded => "unbounded"@,
        Bound::Included(k) => "incl("@ + decimal(k.len()) + " bytes)"@,
        Bound::Excluded(k) => "excl("@ + decimal(k.len()) + " bytes)"@,
    }
}

impl DataBounds {
    /// A rendering with lengths only: the raw bound bytes embed the key
    /// material of a live directory.
    pub fn describe(&self) -> (r: String)
        ensures
            r@ == "DataBounds { prefix_len: "@ + decimal(self.prefix@.len()) + ", start: "@ + (
            "\""@ + bound_text(owned_bound_of(self.start)) + "\""@) + ", end: "@ + ("\""@
                + bound_text(owned_bound_of(self.end)) + "\""@) + " }"@,
    {
        let head = with_number(
            "DataBounds { prefix_len: ",
            self.prefix.len() as u64,
            ", start: ",
        );
        let start = joined(joined("\"", bound_len(&self.start).as_str()).as_str(), "\"");
        let end = joined(joined("\"", bound_len(&self.end).as_str()).as_str(), "\"");
        let left = joined(joined(head.as_str(), start.as_str()).as_str(), ", end: ");
        joined(joined(left.as_str(), end.as_str()).as_str(), " }")
    }
}

fn bound_len(b: &Bound<Vec<u8>>) -> (r: String)
    ensures
        r@ == bound_text(owned_bound_of(*b)),
{
    match b {
        Bound::Unbounded => "unbounded".to_owned(),
        Bound::Included(v) => with_number("incl(", v.len() as u64, " bytes)"),
        Bound::Excluded(v) => with_number("excl(", v.len() as u64, " bytes)"),
    }
}

/// Map key-part bounds onto the raw range under `prefix`.
///
/// Within one directory the mapping `prefix ‖ k` is monotone, so the raw range
/// stays inside the directory's data region. An included end becomes the
/// excluded immediate successor `prefix ‖ k ‖ 0x00`; an unbounded end becomes
/// the excluded end of the region.
///
/// The range may name no keys; callers check with [`raw_range_empty`].
pub fn map_bounds(prefix: &[u8], start: Bound<&[u8]>, end: Bound<&[u8]>) -> (r: (
    Bound<Vec<u8>>,
    Bound<Vec<u8>>,
))
    requires
        successor(prefix@) is Some,
    ensures
        owned_bound_of(r.0) == raw_start(prefix@, bound_of(start)),
        owned_bound_of(r.1) == raw_end(prefix@, bound_of(end)),
        r.1 is Excluded,
        forall|k: Seq<u8>| #[trigger]
            in_dir_range(prefix@, bound_of(start), bound_of(end), k) <==> in_range(
                k,
                owned_bound_of(r.0),
                owned_bound_of(r.1),
            ),
{
    let raw_from = match start {
        Bound::Unbounded => Bound::Included(copy_bytes(prefix)),
        Bound::Included(k) => Bound::Included(concat_bytes(prefix, k)),
        Bound::Excluded(k) => Bound::Excluded(concat_bytes(prefix, k)),
    };
    let raw_to = match end {
        Bound::Unbounded => match next_prefix(prefix) {
            Some(next) => Bound::Excluded(next),
            None => Bound::Unbounded,
        },
        Bound::Excluded(k) => Bound::Excluded(concat_bytes(prefix, k)),
        Bound::Included(k) => {
            let mut raw = concat_bytes(prefix, k);
            raw.push(0x00);
            Bound::Excluded(raw)
        },
    };
    proof {
        assert forall|k: Seq<u8>| #[trigger]
            in_dir_range(prefix@, bound_of(start), bound_of(end), k) <==> in_range(
                k,
                owned_bound_of(raw_from),
                owned_bound_of(raw_to),
            ) by {
            lemma_raw_range_exact(prefix@, bound_of(start), bound_of(end), k);
        }
    }
    (raw_from, raw_to)
}

/// Whether a raw bound pair is empty from its bounds alone: both name a key,
/// the end excludes its own, and the start reaches or passes it.
pub open spec fn passed(start: Bound<Seq<u8>>, end: Bound<Seq<u8>>) -> bool {
    match (crate::keyspace::bound_key(start), end) {
        (Some(a), Bound::Excluded(b)) => le(b, a),
        _ => false,
    }
}

/// Whether a pair of bounds over the keys behind a prefix names no keys, by the
/// bounds alone: they cross, or their raw range is empty.
pub open spec fn names_no_keys(p: Seq<u8>, start: Bound<Seq<u8>>, end: Bound<Seq<u8>>) -> bool {
    crossed(start, end) || passed(raw_start(p, start), raw_end(p, end))
}

/// Whether a raw `(start, end)` bound pair names no keys at all.
///
/// Only `Excluded` end bounds occur (see [`map_bounds`]), so the range is empty
/// exactly when the start bound reaches or passes the end bound.
pub fn raw_range_empty(start: &Bound<Vec<u8>>, end: &Bound<Vec<u8>>) -> (r: bool)
    requires
        !(end is Included),
    ensures
        r == passed(owned_bound_of(*start), owned_bound_of(*end)),
{
    match (start, end) {
        (Bound::Included(a), Bound::Excluded(b)) => !less(a, b),
        (Bound::Excluded(a), Bound::Excluded(b)) => !less(a, b),
        _ => false,
    }
}

/// Whether `a` sorts before `b`.
fn less(a: &Vec<u8>, b: &Vec<u8>) -> (r: bool)
    ensures
        r == lt(a@, b@),
        !r <==> le(b@, a@),
{
    proof {
        lemma_order(a@, b@, a@);
        lemma_order(b@, a@, b@);
    }
    bytes_lt(a.as_slice(), b.as_slice())
}

/// A passed range holds no key.
pub proof fn lemma_passed_is_empty(start: Bound<Seq<u8>>, end: Bound<Seq<u8>>, k: Seq<u8>)
    requires
        passed(start, end),
    ensures
        !in_range(k, start, end),
{
    let a = crate::keyspace::bound_key(start)->0;
    if let Bound::Excluded(b) = end {
        lemma_order(b, a, k);
        lemma_order(k, b, k);
        lemma_order(b, k, b);
    }
}

// ---------------------------------------------------------------------------
// The engine
// ---------------------------------------------------------------------------

/// The flat directory layout over a raw byte view.
///
/// Directory paths are sequences of UTF-8 segments, validated with
/// [`validate_dir`]; each maps to the layout path `[ROOT_PATH_SEGMENT] ‖ dir`,
/// so the root `[]` is the layout's anchor directory: a real, allocated node,
/// never the layout root.
pub struct FlatEngine<R: RawKv> {
    raw: R,
}

impl<R: RawKv> FlatEngine<R> {
    /// The wrapped view.
    pub closed spec fn view_of(&self) -> R {
        self.raw
    }

    /// The wrapped view's invariant.
    pub open spec fn wf(&self) -> bool {
        self.view_of().wf()
    }

    /// The rows of the wrapped view.
    pub open spec fn rows(&self) -> Rows {
        self.view_of().rows()
    }

    /// The keys that were written or deleted through the wrapped view.
    pub open spec fn touched(&self) -> Set<Seq<u8>> {
        self.view_of().touched()
    }

    /// The terms of the wrapped view.
    pub open spec fn terms(&self) -> Terms {
        self.view_of().terms()
    }

    /// Whether the view works as it did before.
    pub open spec fn same_view(&self, before: &Self) -> bool {
        self.wf() && self.terms() == before.terms()
    }

    /// Wrap a raw view.
    pub fn new(raw: R) -> (r: Self)
        ensures
            r.view_of() == raw,
    {
        FlatEngine { raw }
    }

    /// The underlying view, for backends that need to reach it directly.
    pub fn raw(&self) -> (r: &R)
        ensures
            *r == self.view_of(),
    {
        &self.raw
    }

    /// The mutable underlying view.
    pub fn raw_mut(&mut self) -> (r: &mut R)
        ensures
            *r == old(self).view_of(),
            final(self).view_of() == *final(r),
    {
        &mut self.raw
    }

    /// The underlying view, given back.
    pub fn into_raw(self) -> (r: R)
        ensures
            r == self.view_of(),
    {
        self.raw
    }

    /// The layout path of a directory: the anchor segment plus the directory's
    /// segments.
    fn layer_path<'a>(dir: &[&'a [u8]]) -> (r: Vec<&'a [u8]>)
        ensures
            path_of(r@) == anchored(path_of(dir@)),
    {
        let mut path: Vec<&'a [u8]> = Vec::new();
        path.push(ROOT_PATH_SEGMENT.as_bytes());
        let mut i: usize = 0;
        while i < dir.len()
            invariant
                i <= dir@.len(),
                path@.len() == i + 1,
                path@[0]@ == encode_utf8(ROOT_PATH_SEGMENT@),
                forall|j: int| 0 <= j < i ==> (#[trigger] dir@[j])@ == path@[j + 1]@,
            decreases dir.len() - i,
        {
            path.push(dir[i]);
            i = i + 1;
        }
        proof {
            let a = path_of(path@);
            let b = anchored(path_of(dir@));
            assert forall|j: int| 0 <= j < a.len() implies a[j] == b[j] by {
                if j > 0 {
                    assert(dir@[j - 1]@ == path@[j]@);
                }
            }
            assert(a =~= b);
        }
        path
    }

    /// Checks a directory path.
    fn check_dir(dir: &[&[u8]]) -> (r: Result<(), FlatError<R::Error>>)
        ensures
            match r {
                Ok(()) => valid_path(path_of(dir@)),
                Err(e) => !valid_path(path_of(dir@)) && refusal_of(e) == Some(
                    bad_path(path_of(dir@)),
                ),
            },
    {
        match validate_dir(dir) {
            Ok(()) => Ok(()),
            Err(e) => {
                proof {
                    lemma_bad_path(path_of(dir@), e);
                }
                Err(FlatError::Key(e))
            },
        }
    }

    /// Resolve `dir` to its allocated prefix.
    ///
    /// `Ok(None)` when the store is fresh or the directory does not exist.
    /// [`FlatError::Foreign`] when the store's version row is one this layout
    /// does not read; [`FlatError::Corrupt`] when a node row's value is
    /// malformed. Write operations use [`allocate_dir`](Self::allocate_dir)
    /// instead.
    pub fn prefix_of(&self, dir: &[&[u8]]) -> (r: Result<Option<Vec<u8>>, FlatError<R::Error>>)
        requires
            self.wf(),
        ensures
            match r {
                Ok(p) => lookup(self.rows(), path_of(dir@)) == Ok::<Option<Seq<u8>>, Refusal>(
                    value_of(p),
                ),
                Err(e) => match refusal_of(e) {
                    Some(f) => lookup(self.rows(), path_of(dir@)) == Err::<
                        Option<Seq<u8>>,
                        Refusal,
                    >(f),
                    None => {
                        &&& read_failed(self.view_of(), e)
                        &&& valid_path(path_of(dir@))
                        &&& !self.terms().readable
                    },
                },
            },
            r matches Ok(Some(p)) ==> int_of_element(p@) is Some,
    {
        match Self::check_dir(dir) {
            Ok(()) => {},
            Err(e) => return Err(e),
        }
        match check_version_read(&self.raw) {
            Ok(()) => {},
            Err(e) => return Err(e),
        }
        let path = Self::layer_path(dir);
        let r = find(&self.raw, path.as_slice());
        proof {
            if walk(self.rows(), path_of(path@)) is Found {
                crate::flatdir::model::lemma_walk_prefix(self.rows(), path_of(path@));
            }
        }
        r
    }

    /// Resolve `dir`, allocating every missing directory (and only those)
    /// along the way, the anchor included, which is what writes the version
    /// row on a fresh store. Returns the resolved prefix.
    ///
    /// Creation is recursive on the *path*: creating `[a, b]` creates both `a`
    /// and `b`. The allocation and the node rows land in the same view, so a
    /// rolled-back creation leaves no trace. Idempotent: an existing directory
    /// resolves to its prefix without a new allocation.
    pub fn allocate_dir(&mut self, dir: &[&[u8]]) -> (r: Result<Vec<u8>, FlatError<R::Error>>)
        requires
            old(self).wf(),
        ensures
            final(self).same_view(old(self)),
            !creates_dir(old(self).rows(), path_of(dir@)) ==> final(self).view_of() == old(
                self,
            ).view_of(),
            match r {
                Ok(p) => {
                    &&& valid_path(path_of(dir@))
                    &&& version_ok(old(self).rows())
                    &&& opens(old(self).rows(), anchored(path_of(dir@)), final(self).rows(), p@)
                    &&& same_data(old(self).rows(), final(self).rows())
                    &&& only_adds(
                        old(self).rows(),
                        final(self).rows(),
                        old(self).touched(),
                        final(self).touched(),
                    )
                    &&& int_of_element(p@) is Some
                },
                Err(e) => match refusal_of(e) {
                    Some(f) => {
                        &&& create_refused(old(self).rows(), path_of(dir@), f)
                        &&& create_leaves(
                            old(self).rows(),
                            path_of(dir@),
                            f,
                            final(self).rows(),
                        )
                        &&& same_data(old(self).rows(), final(self).rows())
                        &&& only_adds(
                            old(self).rows(),
                            final(self).rows(),
                            old(self).touched(),
                            final(self).touched(),
                        )
                    },
                    None => {
                        &&& engine_failed::<R>(old(self).terms(), e)
                        &&& valid_path(path_of(dir@))
                        &&& !old(self).terms().readable || !old(self).terms().writable
                    },
                },
            },
    {
        match Self::check_dir(dir) {
            Ok(()) => {},
            Err(e) => return Err(e),
        }
        let path = Self::layer_path(dir);
        let mut source = thread_candidates();
        match create_or_open(&mut self.raw, path.as_slice(), true, &mut source) {
            Ok(Some(p)) => {
                proof {
                    crate::flatdir::model::lemma_opens_packed(
                        old(self).rows(),
                        path_of(path@),
                        self.rows(),
                        p@,
                    );
                }
                Ok(p)
            },
            Ok(None) => Err(FlatError::Corrupt),
            Err(e) => Err(e),
        }
    }

    /// Get `key` within `dir`. A missing directory yields `Ok(None)`.
    pub fn get(&self, dir: &[&[u8]], key: &[u8]) -> (r: Result<
        Option<Vec<u8>>,
        FlatError<R::Error>,
    >)
        requires
            self.wf(),
        ensures
            match r {
                Ok(v) => {
                    &&& lookup(self.rows(), path_of(dir@)) is Ok
                    &&& value_of(v) == row_at(dir_content(self.rows(), path_of(dir@)), key@)
                },
                Err(e) => match refusal_of(e) {
                    Some(f) => lookup(self.rows(), path_of(dir@)) == Err::<
                        Option<Seq<u8>>,
                        Refusal,
                    >(f),
                    None => {
                        &&& read_failed(self.view_of(), e)
                        &&& valid_path(path_of(dir@))
                        &&& !self.terms().readable
                    },
                },
            },
    {
        let prefix = match self.prefix_of(dir) {
            Ok(Some(prefix)) => prefix,
            Ok(None) => return Ok(None),
            Err(e) => return Err(e),
        };
        let raw_key = concat_bytes(prefix.as_slice(), key);
        match self.raw.get(raw_key.as_slice()) {
            Ok(v) => Ok(v),
            Err(e) => Err(FlatError::Engine(e)),
        }
    }

    /// Scan within `dir` between `start` and `end` (bounds over the key part),
    /// ascending or descending. A missing directory yields no rows. The
    /// returned keys are the within-directory keys.
    pub fn scan(&self, dir: &[&[u8]], start: Bound<&[u8]>, end: Bound<&[u8]>, forward: bool) -> (r:
        Result<Vec<KvPair>, FlatError<R::Error>>)
        requires
            self.wf(),
        ensures
            match r {
                Ok(list) => {
                    &&& lookup(self.rows(), path_of(dir@)) is Ok
                    &&& is_scan(
                        dir_content(self.rows(), path_of(dir@)),
                        bound_of(start),
                        bound_of(end),
                        forward,
                        list@,
                    )
                },
                Err(e) => match refusal_of(e) {
                    Some(f) => lookup(self.rows(), path_of(dir@)) == Err::<
                        Option<Seq<u8>>,
                        Refusal,
                    >(f),
                    None => {
                        &&& read_failed(self.view_of(), e)
                        &&& valid_path(path_of(dir@))
                        &&& !self.terms().readable
                    },
                },
            },
    {
        let prefix = match self.prefix_of(dir) {
            Ok(Some(prefix)) => prefix,
            Ok(None) => return Ok(Vec::new()),
            Err(e) => return Err(e),
        };
        proof {
            lemma_packed_successor(prefix@);
        }
        let ghost m = self.rows();
        let ghost p = prefix@;
        let ghost inner = content(m, p);
        let mapped = map_bounds(prefix.as_slice(), start, end);
        if raw_range_empty(&mapped.0, &mapped.1) {
            proof {
                assert forall|k: Seq<u8>| #[trigger] inner.dom().contains(k) implies !in_range(
                    k,
                    bound_of(start),
                    bound_of(end),
                ) by {
                    lemma_starts_with_concat(p, k);
                    lemma_raw_range_exact(p, bound_of(start), bound_of(end), p + k);
                    lemma_passed_is_empty(owned_bound_of(mapped.0), owned_bound_of(mapped.1), p + k);
                }
            }
            return Ok(Vec::new());
        }
        let (raw_from, raw_to) = bounds_ref(&mapped);
        let rows = match self.raw.scan(raw_from, raw_to, forward) {
            Ok(rows) => rows,
            Err(e) => return Err(FlatError::Engine(e)),
        };
        proof {
            assert forall|i: int| 0 <= i < rows@.len() implies starts_with(
                (#[trigger] rows@[i]).key@,
                p,
            ) by {
                lemma_raw_range_exact(p, bound_of(start), bound_of(end), rows@[i].key@);
            }
        }
        let list = strip_keys(&rows, prefix.len(), Ghost(p));
        proof {
            lemma_strip_scan(m, p, bound_of(start), bound_of(end), forward, rows@, list@);
        }
        Ok(list)
    }

    /// The raw engine range holding `dir`'s data for the keys between `start`
    /// and `end` (bounds over the within-directory key part): the resolved
    /// prefix plus the raw start/end byte bounds, or `Ok(None)` when `dir` does
    /// not exist or the bound pair names no keys.
    ///
    /// The seam for backends that stream a lazy cursor over the engine's raw
    /// range instead of [`scan`](Self::scan)'s materialized result.
    pub fn data_bounds(&self, dir: &[&[u8]], start: Bound<&[u8]>, end: Bound<&[u8]>) -> (r: Result<
        Option<DataBounds>,
        FlatError<R::Error>,
    >)
        requires
            self.wf(),
        ensures
            match r {
                Ok(Some(b)) => {
                    &&& lookup(self.rows(), path_of(dir@)) == Ok::<Option<Seq<u8>>, Refusal>(
                        Some(b.prefix@),
                    )
                    &&& owned_bound_of(b.start) == raw_start(b.prefix@, bound_of(start))
                    &&& owned_bound_of(b.end) == raw_end(b.prefix@, bound_of(end))
                    &&& b.end is Excluded
                    &&& !crossed(bound_of(start), bound_of(end))
                    &&& !passed(owned_bound_of(b.start), owned_bound_of(b.end))
                    &&& successor(b.prefix@) is Some
                    &&& forall|k: Seq<u8>| #[trigger]
                        in_dir_range(b.prefix@, bound_of(start), bound_of(end), k) <==> in_range(
                            k,
                            owned_bound_of(b.start),
                            owned_bound_of(b.end),
                        )
                },
                Ok(None) => match lookup(self.rows(), path_of(dir@)) {
                    Ok(Some(p)) => names_no_keys(p, bound_of(start), bound_of(end)),
                    Ok(None) => true,
                    Err(_) => false,
                },
                Err(e) => match refusal_of(e) {
                    Some(f) => lookup(self.rows(), path_of(dir@)) == Err::<
                        Option<Seq<u8>>,
                        Refusal,
                    >(f),
                    None => {
                        &&& read_failed(self.view_of(), e)
                        &&& valid_path(path_of(dir@))
                        &&& !self.terms().readable
                    },
                },
            },
    {
        let prefix = match self.prefix_of(dir) {
            Ok(Some(prefix)) => prefix,
            Ok(None) => return Ok(None),
            Err(e) => return Err(e),
        };
        proof {
            lemma_packed_successor(prefix@);
        }
        if is_empty_range(&start, &end) {
            return Ok(None);
        }
        let (raw_from, raw_to) = map_bounds(prefix.as_slice(), start, end);
        if raw_range_empty(&raw_from, &raw_to) {
            return Ok(None);
        }
        proof {
            assert forall|k: Seq<u8>| #[trigger]
                in_dir_range(prefix@, bound_of(start), bound_of(end), k) <==> in_range(
                    k,
                    owned_bound_of(raw_from),
                    owned_bound_of(raw_to),
                ) by {
                lemma_raw_range_exact(prefix@, bound_of(start), bound_of(end), k);
            }
        }
        Ok(Some(DataBounds { prefix, start: raw_from, end: raw_to }))
    }

    /// Set `key` within `dir`, allocating `dir` (and any missing ancestor, and
    /// the anchor) if needed.
    pub fn set(&mut self, dir: &[&[u8]], key: &[u8], value: &[u8]) -> (r: Result<
        (),
        FlatError<R::Error>,
    >)
        requires
            old(self).wf(),
        ensures
            final(self).same_view(old(self)),
            match r {
                Ok(()) => {
                    &&& sets(
                        old(self).rows(),
                        path_of(dir@),
                        key@,
                        value@,
                        final(self).rows(),
                    )
                    &&& set_touches(
                        old(self).rows(),
                        path_of(dir@),
                        key@,
                        old(self).touched(),
                        final(self).touched(),
                    )
                },
                Err(e) => match refusal_of(e) {
                    Some(f) => {
                        &&& create_refused(old(self).rows(), path_of(dir@), f)
                        &&& create_leaves(
                            old(self).rows(),
                            path_of(dir@),
                            f,
                            final(self).rows(),
                        )
                        &&& same_data(old(self).rows(), final(self).rows())
                        &&& only_adds(
                            old(self).rows(),
                            final(self).rows(),
                            old(self).touched(),
                            final(self).touched(),
                        )
                        &&& creates_dir(old(self).rows(), path_of(dir@)) || final(self).view_of()
                            == old(self).view_of()
                    },
                    None => {
                        &&& engine_failed::<R>(old(self).terms(), e)
                        &&& valid_path(path_of(dir@))
                        &&& !old(self).terms().readable || !old(self).terms().writable
                    },
                },
            },
    {
        let ghost m = self.rows();
        let prefix = match self.allocate_dir(dir) {
            Ok(prefix) => prefix,
            Err(e) => return Err(e),
        };
        let ghost mid = self.rows();
        let ghost touched = self.touched();
        let raw_key = concat_bytes(prefix.as_slice(), key);
        match self.raw.insert(raw_key.as_slice(), value) {
            Ok(()) => {
                assert(opens(m, anchored(path_of(dir@)), mid, prefix@));
                assert(self.rows() == mid.insert(prefix@ + key@, value@));
                assert(only_adds(m, mid, old(self).touched(), touched));
                Ok(())
            },
            Err(e) => Err(FlatError::Engine(e)),
        }
    }

    /// Delete `key` within `dir` (a no-op if the directory or the key does not
    /// exist).
    pub fn delete(&mut self, dir: &[&[u8]], key: &[u8]) -> (r: Result<(), FlatError<R::Error>>)
        requires
            old(self).wf(),
        ensures
            final(self).same_view(old(self)),
            match r {
                Ok(()) => {
                    &&& deletes(old(self).rows(), path_of(dir@), key@, final(self).rows())
                    &&& final(self).touched() == match lookup(old(self).rows(), path_of(dir@)) {
                        Ok(Some(p)) => old(self).touched().insert(p + key@),
                        _ => old(self).touched(),
                    }
                },
                Err(e) => match refusal_of(e) {
                    Some(f) => {
                        &&& lookup(old(self).rows(), path_of(dir@)) == Err::<
                            Option<Seq<u8>>,
                            Refusal,
                        >(f)
                        &&& final(self).view_of() == old(self).view_of()
                    },
                    None => {
                        &&& access_failed(old(self).view_of(), e)
                        &&& valid_path(path_of(dir@))
                        &&& !old(self).terms().readable || !old(self).terms().writable
                    },
                },
            },
    {
        let prefix = match self.prefix_of(dir) {
            Ok(Some(prefix)) => prefix,
            Ok(None) => return Ok(()),
            Err(e) => return Err(e),
        };
        let raw_key = concat_bytes(prefix.as_slice(), key);
        match self.raw.delete(raw_key.as_slice()) {
            Ok(()) => Ok(()),
            Err(e) => Err(FlatError::Engine(e)),
        }
    }

    /// Clear the keys between `start` and `end` within `dir` (a no-op if the
    /// directory does not exist).
    pub fn clear_range(&mut self, dir: &[&[u8]], start: Bound<&[u8]>, end: Bound<&[u8]>) -> (r:
        Result<(), FlatError<R::Error>>)
        requires
            old(self).wf(),
        ensures
            final(self).same_view(old(self)),
            match r {
                Ok(()) => {
                    &&& clears(
                        old(self).rows(),
                        path_of(dir@),
                        bound_of(start),
                        bound_of(end),
                        final(self).rows(),
                    )
                    &&& final(self).touched() == gone_touched(
                        old(self).rows(),
                        final(self).rows(),
                        old(self).touched(),
                    )
                },
                Err(e) => match refusal_of(e) {
                    Some(f) => {
                        &&& lookup(old(self).rows(), path_of(dir@)) == Err::<
                            Option<Seq<u8>>,
                            Refusal,
                        >(f)
                        &&& final(self).view_of() == old(self).view_of()
                    },
                    None => {
                        &&& access_failed(old(self).view_of(), e)
                        &&& valid_path(path_of(dir@))
                        &&& !old(self).terms().readable || !old(self).terms().writable
                    },
                },
            },
    {
        let prefix = match self.prefix_of(dir) {
            Ok(Some(prefix)) => prefix,
            Ok(None) => {
                proof {
                    let m = self.rows();
                    assert(self.touched() =~= gone_touched(m, m, self.touched()));
                }
                return Ok(());
            },
            Err(e) => return Err(e),
        };
        proof {
            lemma_packed_successor(prefix@);
        }
        let ghost m = self.rows();
        let ghost p = prefix@;
        let mapped = map_bounds(prefix.as_slice(), start, end);
        if raw_range_empty(&mapped.0, &mapped.1) {
            proof {
                let target = cleared(m, p, bound_of(start), bound_of(end));
                assert forall|k: Seq<u8>| m.dom().contains(k) <==> target.dom().contains(k) by {
                    lemma_raw_range_exact(p, bound_of(start), bound_of(end), k);
                    lemma_passed_is_empty(owned_bound_of(mapped.0), owned_bound_of(mapped.1), k);
                }
                assert(m =~= target);
                assert(self.touched() =~= gone_touched(m, m, self.touched()));
            }
            return Ok(());
        }
        let (raw_from, raw_to) = bounds_ref(&mapped);
        match self.raw.clear_range(raw_from, raw_to) {
            Ok(()) => {
                proof {
                    let target = cleared(m, p, bound_of(start), bound_of(end));
                    assert forall|k: Seq<u8>|
                        self.rows().dom().contains(k) <==> target.dom().contains(k) by {
                        lemma_raw_range_exact(p, bound_of(start), bound_of(end), k);
                    }
                    assert(self.rows().dom() =~= target.dom());
                    assert(self.rows() =~= target);
                    assert(self.touched() =~= gone_touched(m, target, old(self).touched()));
                }
                Ok(())
            },
            Err(e) => Err(FlatError::Engine(e)),
        }
    }

    /// The immediate child segment names under `dir`, sorted ascending. A
    /// missing directory yields an empty list.
    pub fn list_dirs(&self, dir: &[&[u8]]) -> (r: Result<Vec<Vec<u8>>, FlatError<R::Error>>)
        requires
            self.wf(),
        ensures
            match r {
                Ok(names) => lists(self.rows(), path_of(dir@), byte_strings(names@)),
                Err(e) => match refusal_of(e) {
                    Some(f) => listing_refused(self.rows(), path_of(dir@), f),
                    None => {
                        &&& read_failed(self.view_of(), e)
                        &&& valid_path(path_of(dir@))
                        &&& !self.terms().readable
                    },
                },
            },
    {
        let prefix = match self.prefix_of(dir) {
            Ok(Some(prefix)) => prefix,
            Ok(None) => return Ok(Vec::new()),
            Err(e) => return Err(e),
        };
        let names = match list_children(&self.raw, prefix.as_slice()) {
            Ok(names) => names,
            Err(e) => return Err(e),
        };
        let mut list: Vec<Vec<u8>> = Vec::with_capacity(names.len());
        let mut i: usize = 0;
        while i < names.len()
            invariant
                i <= names@.len(),
                list@.len() == i,
                forall|j: int| 0 <= j < i ==> (#[trigger] list@[j])@ == encode_utf8(names@[j]@),
            decreases names.len() - i,
        {
            list.push(copy_bytes(names[i].as_str().as_bytes()));
            i = i + 1;
        }
        proof {
            let m = self.rows();
            let p = prefix@;
            let segs = byte_strings(list@);
            let chars = texts(names@);
            assert forall|j: int| 0 <= j < segs.len() implies valid_utf8(#[trigger] segs[j])
                && m.dom().contains(child_row(node(p), segs[j])) && segs[j] == encode_utf8(
                chars[j],
            ) by {
                assert(list@[j]@ == encode_utf8(names@[j]@));
                vstd::utf8::encode_utf8_valid_utf8(chars[j]);
                assert(m.dom().contains(child_row(node(p), encode_utf8(chars[j]))));
            }
            assert forall|a: int, b: int|
                #![trigger segs[a], segs[b]]
                0 <= a < b < segs.len() implies lt(segs[a], segs[b]) by {
                assert(lt(encode_utf8(chars[a]), encode_utf8(chars[b])));
            }
            assert forall|seg: Seq<u8>|
                valid_utf8(seg) && m.dom().contains(
                    #[trigger] child_row(node(p), seg),
                ) implies segs.contains(seg) by {
                vstd::utf8::decode_utf8_encode_utf8(seg);
                let name = vstd::utf8::decode_utf8(seg);
                assert(encode_utf8(name) == seg);
                assert(chars.contains(name));
                let j = choose|j: int| 0 <= j < chars.len() && chars[j] == name;
                assert(segs[j] == seg);
            }
        }
        Ok(list)
    }

    /// Whether `dir` exists. The root `[]` exists iff its anchor node has been
    /// created (the store has been written); any other directory exists iff
    /// its node row is present: a directory with zero data keys still exists.
    pub fn dir_exists(&self, dir: &[&[u8]]) -> (r: Result<bool, FlatError<R::Error>>)
        requires
            self.wf(),
        ensures
            match r {
                Ok(b) => lookup(self.rows(), path_of(dir@)) is Ok && b == (lookup(
                    self.rows(),
                    path_of(dir@),
                )->Ok_0 is Some),
                Err(e) => match refusal_of(e) {
                    Some(f) => lookup(self.rows(), path_of(dir@)) == Err::<
                        Option<Seq<u8>>,
                        Refusal,
                    >(f),
                    None => {
                        &&& read_failed(self.view_of(), e)
                        &&& valid_path(path_of(dir@))
                        &&& !self.terms().readable
                    },
                },
            },
    {
        match self.prefix_of(dir) {
            Ok(prefix) => Ok(prefix.is_some()),
            Err(e) => Err(e),
        }
    }

    /// Remove `dir` recursively: its subdirectories (node rows and data) and
    /// its own key data. `Ok(true)` if it existed, `Ok(false)` otherwise. The
    /// root is not removable.
    pub fn remove_dir(&mut self, dir: &[&[u8]]) -> (r: Result<bool, FlatError<R::Error>>)
        requires
            old(self).wf(),
        ensures
            final(self).same_view(old(self)),
            dir@.len() == 0 || !dir_found(old(self).rows(), path_of(dir@)) ==> final(self).view_of()
                == old(self).view_of(),
            match r {
                Ok(removed) => {
                    &&& removes(old(self).rows(), path_of(dir@), removed, final(self).rows())
                    &&& removed ==> final(self).touched() == swept(
                        old(self).rows(),
                        final(self).rows(),
                        old(self).touched(),
                    )
                },
                Err(e) => match refusal_of(e) {
                    Some(f) => {
                        &&& remove_refused(old(self).rows(), path_of(dir@), f)
                        &&& dir@.len() > 0 && dir_found(old(self).rows(), path_of(dir@)) ==> {
                            &&& broken_off(old(self).rows(), path_of(dir@), final(self).rows())
                            &&& final(self).touched() == swept(
                                old(self).rows(),
                                final(self).rows(),
                                old(self).touched(),
                            )
                        }
                    },
                    None => {
                        &&& engine_failed::<R>(old(self).terms(), e)
                        &&& read_failed(old(self).view_of(), e) || dir_found(old(self).rows(), path_of(dir@))
                        &&& valid_path(path_of(dir@))
                        &&& dir@.len() > 0
                        &&& !old(self).terms().readable || !old(self).terms().writable
                    },
                },
            },
    {
        match Self::check_dir(dir) {
            Ok(()) => {},
            Err(e) => return Err(e),
        }
        if dir.len() == 0 {
            return Err(FlatError::Key(KeyError::RootNotRemovable));
        }
        match check_version_read(&self.raw) {
            Ok(()) => {},
            Err(e) => return Err(e),
        }
        let path = Self::layer_path(dir);
        remove_dir(&mut self.raw, path.as_slice())
    }
}

/// Whether creating `dir` on these rows is refused for this reason.
pub open spec fn create_refused(m: Rows, dir: Seq<Seq<u8>>, f: Refusal) -> bool {
    if !valid_path(dir) {
        f == bad_path(dir)
    } else if !version_ok(m) {
        f is Foreign
    } else {
        f is Corrupt && open_refused(m, anchored(dir))
    }
}

/// Whether a creation of `dir` that was refused for this reason can leave these rows.
pub open spec fn create_leaves(m0: Rows, dir: Seq<Seq<u8>>, f: Refusal, m1: Rows) -> bool {
    if f is Corrupt {
        refusal_leaves(m0, anchored(dir), m1)
    } else {
        m1 == m0
    }
}

/// Whether a removal of `dir` that was broken off can leave these rows: none is new
/// but the version row, and those that are gone belonged to the directory or to one
/// below it.
pub open spec fn broken_off(m0: Rows, dir: Seq<Seq<u8>>, m1: Rows) -> bool {
    lookup(m0, dir) matches Ok(Some(p)) && takes_within(with_version(m0), p, m1)
}

/// Whether a write to `dir` has to create it.
pub open spec fn creates_dir(m: Rows, dir: Seq<Seq<u8>>) -> bool {
    valid_path(dir) && creates(m, anchored(dir), true)
}

/// Whether setting `key` in `dir` touches these keys: the one of the data row, and
/// what creating the directory touches where it was missing.
pub open spec fn set_touches(
    m0: Rows,
    dir: Seq<Seq<u8>>,
    key: Seq<u8>,
    t0: Set<Seq<u8>>,
    t1: Set<Seq<u8>>,
) -> bool {
    match lookup(m0, dir) {
        Ok(Some(p)) => t1 == t0.insert(p + key),
        _ => exists|mid: Rows, p: Seq<u8>, created: Set<Seq<u8>>|
            #![trigger opens(m0, anchored(dir), mid, p), only_adds(m0, mid, t0, created)]
            opens(m0, anchored(dir), mid, p) && only_adds(m0, mid, t0, created) && t1
                == created.insert(p + key),
    }
}

/// The keys touched, with those of the rows that are gone.
pub open spec fn gone_touched(m0: Rows, m1: Rows, t0: Set<Seq<u8>>) -> Set<Seq<u8>> {
    t0.union(m0.dom().difference(m1.dom()))
}

/// Whether setting `key` to `value` in `dir` takes the rows from `m0` to `m1`:
/// the directory is opened, created where it is missing, and the data row is
/// written behind its prefix.
pub open spec fn sets(
    m0: Rows,
    dir: Seq<Seq<u8>>,
    key: Seq<u8>,
    value: Seq<u8>,
    m1: Rows,
) -> bool {
    &&& valid_path(dir)
    &&& version_ok(m0)
    &&& exists|mid: Rows, p: Seq<u8>| #[trigger]
        opens(m0, anchored(dir), mid, p) && int_of_element(p) is Some && same_data(m0, mid) && m1
            == mid.insert(p + key, value)
}

/// The rows without a range of keys behind a prefix.
pub open spec fn cleared(
    m: Rows,
    p: Seq<u8>,
    start: Bound<Seq<u8>>,
    end: Bound<Seq<u8>>,
) -> Rows {
    m.remove_keys(
        Set::new(
            |k: Seq<u8>| starts_with(k, p) && in_range(tail(k, p.len()), start, end),
        ),
    )
}

/// The pairs with the first `n` bytes of each key taken off.
fn strip_keys(rows: &Vec<KvPair>, n: usize, p: Ghost<Seq<u8>>) -> (r: Vec<KvPair>)
    requires
        p@.len() == n,
        forall|i: int| 0 <= i < rows@.len() ==> starts_with((#[trigger] rows@[i]).key@, p@),
    ensures
        r@.len() == rows@.len(),
        forall|i: int|
            0 <= i < r@.len() ==> rows@[i].key@ == p@ + (#[trigger] r@[i]).key@ && r@[i].value@
                == rows@[i].value@,
{
    let mut list: Vec<KvPair> = Vec::with_capacity(rows.len());
    let mut i: usize = 0;
    while i < rows.len()
        invariant
            i <= rows@.len(),
            list@.len() == i,
            p@.len() == n,
            forall|j: int| 0 <= j < rows@.len() ==> starts_with((#[trigger] rows@[j]).key@, p@),
            forall|j: int|
                0 <= j < i ==> rows@[j].key@ == p@ + (#[trigger] list@[j]).key@ && list@[j].value@
                    == rows@[j].value@,
        decreases rows.len() - i,
    {
        let pair = &rows[i];
        assert(starts_with(rows@[i as int].key@, p@));
        proof {
            lemma_starts_with_split(rows@[i as int].key@, p@);
        }
        list.push(
            KvPair {
                key: copy_tail(pair.key.as_slice(), n),
                value: copy_bytes(pair.value.as_slice()),
            },
        );
        i = i + 1;
    }
    list
}

/// The stripped beginning of the scan of a raw range begins the scan of the directory.
pub proof fn lemma_strip_begins(
    m: Rows,
    p: Seq<u8>,
    start: Bound<Seq<u8>>,
    end: Bound<Seq<u8>>,
    forward: bool,
    rows: Seq<KvPair>,
    list: Seq<KvPair>,
)
    requires
        successor(p) is Some,
        begins_scan(m, raw_start(p, start), raw_end(p, end), forward, rows),
        list.len() == rows.len(),
        forall|i: int|
            0 <= i < list.len() ==> rows[i].key@ == p + (#[trigger] list[i]).key@ && list[i].value@
                == rows[i].value@,
    ensures
        begins_scan(content(m, p), start, end, forward, list),
{
    let inner = content(m, p);
    assert forall|i: int| 0 <= i < list.len() implies inner.dom().contains(
        (#[trigger] list[i]).key@,
    ) && inner[list[i].key@] == list[i].value@ && in_range(list[i].key@, start, end) by {
        let row = rows[i];
        lemma_starts_with_concat(p, list[i].key@);
        lemma_raw_range_exact(p, start, end, row.key@);
    }
    assert forall|i: int, j: int|
        #![trigger list[i], list[j]]
        0 <= i < j < list.len() implies if forward {
        lt(list[i].key@, list[j].key@)
    } else {
        lt(list[j].key@, list[i].key@)
    } by {
        let a = rows[i];
        let b = rows[j];
        lemma_range_common_prefix(p, list[i].key@, list[j].key@);
        lemma_range_common_prefix(p, list[j].key@, list[i].key@);
    }
    assert forall|k: Seq<u8>, i: int|
        #![trigger inner.dom().contains(k), list[i]]
        inner.dom().contains(k) && in_range(k, start, end) && 0 <= i < list.len() && !lists_key(
            list,
            k,
        ) implies comes_before(list[i].key@, k, forward) by {
        lemma_starts_with_concat(p, k);
        lemma_raw_range_exact(p, start, end, p + k);
        assert(m.dom().contains(p + k));
        if lists_key(rows, p + k) {
            let j = choose|j: int| 0 <= j < rows.len() && (#[trigger] rows[j]).key@ == p + k;
            lemma_starts_with_concat(p, list[j].key@);
            assert(list[j].key@ == k);
        }
        let row = rows[i];
        assert(comes_before(row.key@, p + k, forward));
        lemma_range_common_prefix(p, list[i].key@, k);
        lemma_range_common_prefix(p, k, list[i].key@);
    }
}

/// The stripped scan of a raw range is the scan of the directory.
pub proof fn lemma_strip_scan(
    m: Rows,
    p: Seq<u8>,
    start: Bound<Seq<u8>>,
    end: Bound<Seq<u8>>,
    forward: bool,
    rows: Seq<KvPair>,
    list: Seq<KvPair>,
)
    requires
        successor(p) is Some,
        is_scan(m, raw_start(p, start), raw_end(p, end), forward, rows),
        list.len() == rows.len(),
        forall|i: int|
            0 <= i < list.len() ==> rows[i].key@ == p + (#[trigger] list[i]).key@ && list[i].value@
                == rows[i].value@,
    ensures
        is_scan(content(m, p), start, end, forward, list),
{
    let inner = content(m, p);
    assert forall|i: int| 0 <= i < list.len() implies inner.dom().contains(
        (#[trigger] list[i]).key@,
    ) && inner[list[i].key@] == list[i].value@ && in_range(list[i].key@, start, end) by {
        let row = rows[i];
        lemma_starts_with_concat(p, list[i].key@);
        lemma_raw_range_exact(p, start, end, row.key@);
    }
    assert forall|i: int, j: int|
        #![trigger list[i], list[j]]
        0 <= i < j < list.len() implies if forward {
        lt(list[i].key@, list[j].key@)
    } else {
        lt(list[j].key@, list[i].key@)
    } by {
        let a = rows[i];
        let b = rows[j];
        lemma_range_common_prefix(p, list[i].key@, list[j].key@);
        lemma_range_common_prefix(p, list[j].key@, list[i].key@);
    }
    assert forall|k: Seq<u8>| #[trigger]
        inner.dom().contains(k) && in_range(k, start, end) implies lists_key(list, k) by {
        lemma_starts_with_concat(p, k);
        lemma_raw_range_exact(p, start, end, p + k);
        assert(m.dom().contains(p + k));
        assert(lists_key(rows, p + k));
        let i = choose|i: int| 0 <= i < rows.len() && (#[trigger] rows[i]).key@ == p + k;
        lemma_starts_with_concat(p, list[i].key@);
        assert(list[i].key@ == k);
    }
}

} // verus!
