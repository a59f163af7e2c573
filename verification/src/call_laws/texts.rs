//! What the texts for people say: every error's message, and the renderings that
//! give sizes only.

use core::ops::Bound;

use vstd::prelude::*;

use crate::btreemap::{BTreeMapError, BTreeMapStore, BTreeMapTransaction, BufViewError};
use crate::durable::error::{RedbBackendError, RedbStorageError};
use crate::error::{ErrorMessage, RetryableStorageError};
use crate::fdb::FdbStorageError;
use crate::flatdir::error::FlatError;
use crate::flatengine::DataBounds;
use crate::indexeddb::error::IndexedDbError;
use crate::indexeddb::revision::Revision;
use crate::indexeddb::session::IndexedDbTransaction;
use crate::key::KeyError;
use crate::scoped::ScopedKvStore;
use crate::stream::KvPair;
use crate::text::{decimal, digit};

verus! {

/// The number that a text of digits is read as.
pub open spec fn number_read(digits: Seq<char>) -> int
    decreases digits.len(),
{
    if digits.len() == 0 {
        0
    } else {
        10 * number_read(digits.drop_last()) + (digits.last() as int - '0' as int)
    }
}

/// Whether a text is how a person writes a number: digits only, at least one of
/// them, no zero in front of others, and read as the number.
pub open spec fn is_numeral(digits: Seq<char>, n: int) -> bool {
    &&& digits.len() > 0
    &&& forall|i: int|
        0 <= i < digits.len() ==> '0' as int <= #[trigger] digits[i] as int <= '9' as int
    &&& digits.len() > 1 ==> digits[0] != '0'
    &&& number_read(digits) == n
}

/// Whether a text is a number between two texts.
pub open spec fn is_number_between(
    text: Seq<char>,
    before: Seq<char>,
    n: int,
    after: Seq<char>,
) -> bool {
    exists|digits: Seq<char>| #[trigger]
        is_numeral(digits, n) && text == before + digits + after
}

proof fn lemma_digit(d: nat)
    requires
        d < 10,
    ensures
        digit(d) as int == '0' as int + d,
{
}

proof fn lemma_numeral(n: nat)
    ensures
        is_numeral(decimal(n), n as int),
        n > 0 ==> decimal(n)[0] != '0',
    decreases n,
{
    if n < 10 {
        lemma_digit(n);
        let s = decimal(n);
        assert(s.drop_last() =~= Seq::<char>::empty());
        assert(number_read(s.drop_last()) == 0);
    } else {
        lemma_numeral(n / 10);
        lemma_digit(n % 10);
        let s = decimal(n);
        assert(s.drop_last() =~= decimal(n / 10));
        assert(s.last() == digit(n % 10));
        assert(s[0] == decimal(n / 10)[0]);
        assert(n == 10 * (n / 10) + n % 10);
        assert forall|i: int| 0 <= i < s.len() implies '0' as int <= #[trigger] s[i] as int
            <= '9' as int by {
            if i < s.len() - 1 {
                assert(s[i] == decimal(n / 10)[i]);
            }
        }
    }
}

/// Two numbers that are written the same are the same.
pub proof fn law_numeral(digits: Seq<char>, n: int, m: int)
    requires
        is_numeral(digits, n),
        is_numeral(digits, m),
    ensures
        n == m,
{
}

/// The message of a path error names the segment by its number, or says that the
/// root cannot be removed; neither error is worth a rerun.
pub proof fn law_key_error(e: &KeyError, r: String, again: bool)
    requires
        call_ensures(KeyError::message, (e,), r),
        call_ensures(KeyError::is_retryable, (e,), again),
    ensures
        !again,
        match *e {
            KeyError::DirSegmentNotUtf8 { segment } => is_number_between(
                r@,
                "directory segment "@,
                segment as int,
                " is not valid UTF-8"@,
            ),
            KeyError::RootNotRemovable => r@ == "the root directory cannot be removed"@,
        },
{
    match *e {
        KeyError::DirSegmentNotUtf8 { segment } => lemma_numeral(segment as nat),
        KeyError::RootNotRemovable => {},
    }
}

/// The message of a layout error is that of what it wraps, or says what is wrong
/// with the store; it is worth a rerun exactly where the failure of the view that
/// it wraps is.
pub proof fn law_flat_error<E: ErrorMessage + RetryableStorageError>(
    e: &FlatError<E>,
    r: String,
    again: bool,
    key_text: String,
    inner_text: String,
    inner_again: bool,
)
    requires
        call_ensures(FlatError::<E>::message, (e,), r),
        call_ensures(FlatError::<E>::is_retryable, (e,), again),
        *e matches FlatError::Key(k) ==> call_ensures(KeyError::message, (&k,), key_text),
        *e matches FlatError::Engine(inner) ==> call_ensures(E::message, (&inner,), inner_text)
            && call_ensures(E::is_retryable, (&inner,), inner_again),
    ensures
        again == (e is Engine && inner_again),
        match *e {
            FlatError::Foreign => r@ == "store content does not match this layout version"@,
            FlatError::Corrupt => r@ == "store content is malformed"@,
            FlatError::Key(_) => r@ == key_text@,
            FlatError::Engine(_) => r@ == inner_text@,
        },
{
}

/// The errors of the in-memory backend: its text is that of the layout error, no
/// error of it is worth a rerun, and its view says that it is read-only.
pub proof fn law_map_error(
    e: &BTreeMapError,
    r: String,
    again: bool,
    layout_text: String,
    view: &BufViewError,
    view_text: String,
    view_again: bool,
)
    requires
        call_ensures(BTreeMapError::message, (e,), r),
        call_ensures(BTreeMapError::is_retryable, (e,), again),
        call_ensures(FlatError::<BufViewError>::message, (&e.0,), layout_text),
        call_ensures(BufViewError::message, (view,), view_text),
        call_ensures(BufViewError::is_retryable, (view,), view_again),
    ensures
        r@ == layout_text@,
        !again,
        !view_again,
        view_text@ == "in-memory raw view is read-only"@,
{
}

/// The errors of the durable backend: the engine's own text is kept, and no error
/// of it is worth a rerun.
pub proof fn law_durable_error(
    e: &RedbBackendError,
    r: String,
    again: bool,
    outer: &RedbStorageError,
    outer_text: String,
    outer_again: bool,
    layout_text: String,
)
    requires
        call_ensures(RedbBackendError::message, (e,), r),
        call_ensures(RedbBackendError::is_retryable, (e,), again),
        call_ensures(RedbStorageError::message, (outer,), outer_text),
        call_ensures(RedbStorageError::is_retryable, (outer,), outer_again),
        call_ensures(FlatError::<RedbBackendError>::message, (&outer.0,), layout_text),
    ensures
        !again,
        !outer_again,
        outer_text@ == layout_text@,
        match *e {
            RedbBackendError::Backend(text) => r@ == "storage backend error: "@ + text@,
            RedbBackendError::ReadOnly => r@ == "write attempted on a read-only store"@,
            RedbBackendError::LayoutVersionMismatch => {
                r@ == "the store carries a different layout version"@
            },
        },
{
}

/// The messages of the cluster backend: the engine's own text is kept behind what
/// failed.
pub proof fn law_cluster_message(e: &FdbStorageError, r: String, key_text: String)
    requires
        call_ensures(FdbStorageError::message, (e,), r),
        *e matches FdbStorageError::Key(k) ==> call_ensures(KeyError::message, (&k,), key_text),
    ensures
        match *e {
            FdbStorageError::Fdb { code: _, retryable: _, message } => r@ == "foundationdb: "@
                + message@,
            FdbStorageError::Commit { retryable_not_committed: _, message } => r@
                == "transaction commit: "@ + message@,
            FdbStorageError::Key(_) => r@ == key_text@,
            FdbStorageError::Directory(message) => r@ == "foundationdb directory: "@ + message@,
            FdbStorageError::PrefixViolation => {
                r@ == "range returned a key outside the resolved directory"@
            },
            FdbStorageError::ReadOnlyMutation => {
                r@ == "mutation attempted through read-only foundationdb state handle"@
            },
        },
{
}

/// The messages of the browser backend.
pub proof fn law_browser_message(e: &IndexedDbError, r: String, key_text: String)
    requires
        call_ensures(IndexedDbError::message, (e,), r),
        *e matches IndexedDbError::Key(k) ==> call_ensures(KeyError::message, (&k,), key_text),
    ensures
        match *e {
            IndexedDbError::Foreign => r@ == "store content does not match this layout version"@,
            IndexedDbError::Key(_) => r@ == key_text@,
            IndexedDbError::Unavailable => r@ == "IndexedDB is unavailable in this environment"@,
            IndexedDbError::Closed => r@ == "IndexedDB connection is closed"@,
            IndexedDbError::QuotaExceeded => r@ == "IndexedDB storage quota exceeded"@,
            IndexedDbError::Conflict => {
                r@ == "IndexedDB session conflicted with another commit"@
            },
            IndexedDbError::CommitAborted { reason } => r@ == "IndexedDB commit aborted: "@
                + reason@,
            IndexedDbError::Corrupt { detail } => r@ == "IndexedDB data is corrupt: "@ + detail@,
            IndexedDbError::ReadOnly => r@ == "write attempted on a read-only IndexedDB store"@,
            IndexedDbError::Backend { name, message } => r@ == "IndexedDB backend error ("@ + name@
                + "): "@ + message@,
        },
{
}

/// The renderings of the in-memory backend give the counts that `len` and
/// `pending_len` return.
pub proof fn law_describe_map<'s>(
    store: &BTreeMapStore,
    rows: usize,
    r: String,
    tx: &BTreeMapTransaction<'s>,
    pending: usize,
    t: String,
)
    requires
        call_ensures(BTreeMapStore::len, (store,), rows),
        call_ensures(BTreeMapStore::describe, (store,), r),
        call_ensures(BTreeMapTransaction::pending_len, (tx,), pending),
        call_ensures(BTreeMapTransaction::describe, (tx,), t),
    ensures
        is_number_between(r@, "BTreeMapStore { rows: "@, rows as int, " }"@),
        is_number_between(t@, "BTreeMapTransaction { pending: "@, pending as int, " }"@),
{
    lemma_numeral(rows as nat);
    lemma_numeral(pending as nat);
}

/// The rendering of a browser session gives its pending count and its revision.
pub proof fn law_describe_session(
    s: &IndexedDbTransaction,
    pending: usize,
    fence: Revision,
    revision: u64,
    r: String,
)
    requires
        call_ensures(IndexedDbTransaction::pending_len, (s,), pending),
        call_ensures(IndexedDbTransaction::expected_revision, (s,), fence),
        call_ensures(Revision::get, (fence,), revision),
        call_ensures(IndexedDbTransaction::describe, (s,), r),
    ensures
        exists|digits: Seq<char>| #[trigger]
            is_numeral(digits, pending as int) && is_number_between(
                r@,
                "IndexedDbTransaction { pending_len: "@ + digits
                    + ", expected_revision: Revision("@,
                revision as int,
                ") }"@,
            ),
{
    lemma_numeral(pending as nat);
    lemma_numeral(revision as nat);
}

/// The rendering of a pair gives the size of its value, and the rendering of a
/// scoped store the number of its pinned segments.
pub proof fn law_describe_sizes<KV>(
    pair: &KvPair,
    r: String,
    scoped: &ScopedKvStore<KV>,
    dir: &[Vec<u8>],
    t: String,
)
    requires
        call_ensures(KvPair::describe, (pair,), r),
        call_ensures(ScopedKvStore::<KV>::dir, (scoped,), dir),
        call_ensures(ScopedKvStore::<KV>::describe, (scoped,), t),
    ensures
        is_number_between(
            r@,
            "KvPair { key: <elided>, value: <"@,
            pair.value@.len() as int,
            " bytes> }"@,
        ),
        is_number_between(t@, "ScopedKvStore { dir_segments: "@, dir@.len() as int, " }"@),
{
    lemma_numeral(pair.value@.len());
    lemma_numeral(dir@.len());
}

/// Whether a text says of a bound that it is open, or how long its key is.
pub open spec fn is_bound_text(b: Bound<Vec<u8>>, text: Seq<char>) -> bool {
    match b {
        Bound::Unbounded => text == "unbounded"@,
        Bound::Included(k) => is_number_between(text, "incl("@, k@.len() as int, " bytes)"@),
        Bound::Excluded(k) => is_number_between(text, "excl("@, k@.len() as int, " bytes)"@),
    }
}

/// The rendering of raw bounds gives lengths, and no byte of a key.
pub proof fn law_describe_bounds(b: &DataBounds, r: String)
    requires
        call_ensures(DataBounds::describe, (b,), r),
    ensures
        exists|digits: Seq<char>, start: Seq<char>, end: Seq<char>| #[trigger]
            is_numeral(digits, b.prefix@.len() as int) && #[trigger] is_bound_text(b.start, start)
                && #[trigger] is_bound_text(b.end, end) && r@ == "DataBounds { prefix_len: "@
                + digits + ", start: "@ + ("\""@ + start + "\""@) + ", end: "@ + ("\""@ + end
                + "\""@) + " }"@,
{
    lemma_numeral(b.prefix@.len());
    match b.start {
        Bound::Included(k) | Bound::Excluded(k) => lemma_numeral(k@.len()),
        Bound::Unbounded => {},
    }
    match b.end {
        Bound::Included(k) | Bound::Excluded(k) => lemma_numeral(k@.len()),
        Bound::Unbounded => {},
    }
    let start = crate::flatengine::bound_text(crate::keyspace::owned_bound_of(b.start));
    let end = crate::flatengine::bound_text(crate::keyspace::owned_bound_of(b.end));
    assert(is_bound_text(b.start, start));
    assert(is_bound_text(b.end, end));
    assert(is_numeral(decimal(b.prefix@.len()), b.prefix@.len() as int));
}

} // verus!
