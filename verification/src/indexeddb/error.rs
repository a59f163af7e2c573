//! Errors produced by the browser storage backend, and how browser failures map
//! onto them.

use vstd::prelude::*;
use vstd::utf8::{decode_utf8, encode_utf8, encode_utf8_decode_utf8};

use crate::bytes::bytes_eq;
use crate::error::{ErrorMessage, RetryableStorageError};
use crate::flatdir::error::FlatError;
use crate::key::KeyError;
use crate::text::joined;

verus! {

/// An error from the browser storage backend.
///
/// Error text may describe the browser failure or revision state, but never
/// includes key or value bytes: no variant carries any.
#[derive(Debug, PartialEq)]
pub enum IndexedDbError {
    /// The application object store contains data from another layout.
    Foreign,
    /// A directory path failed the storage trait's validation rules.
    Key(KeyError),
    /// The global environment does not expose the database.
    Unavailable,
    /// The database connection was closed and can no longer issue requests.
    ///
    /// Discard this handle and reopen the named database before starting a new
    /// logical operation.
    Closed,
    /// A write was rejected because the storage quota was exhausted.
    QuotaExceeded,
    /// The revision fence changed after this session began.
    ///
    /// Another session committed first. No buffered writes from this session
    /// were applied, so the caller should retry the entire state transition
    /// from a fresh session.
    Conflict,
    /// The readwrite transaction aborted before any of its writes took effect.
    CommitAborted {
        /// A browser-provided or synthesized description of the abort.
        reason: String,
    },
    /// Persisted metadata or a value violated the backend schema.
    Corrupt {
        /// A schema-level explanation that omits application key/value bytes.
        detail: String,
    },
    /// A mutation was attempted through a read-only handle.
    ReadOnly,
    /// The browser returned an exception not represented by another variant.
    Backend {
        /// The exception name.
        name: String,
        /// The exception message, without application key/value bytes.
        message: String,
    },
}

impl RetryableStorageError for IndexedDbError {
    /// A fence conflict happens before this session applies its writes, and an
    /// observed transaction abort means every write was rolled back atomically.
    /// Those are the only variants with a no-partial-effect guarantee.
    open spec fn retryable(&self) -> bool {
        self is Conflict || self is CommitAborted
    }

    fn is_retryable(&self) -> (r: bool) {
        match self {
            IndexedDbError::Conflict => true,
            IndexedDbError::CommitAborted { reason: _ } => true,
            _ => false,
        }
    }
}

impl ErrorMessage for IndexedDbError {
    open spec fn text(&self) -> Seq<char> {
        match self {
            IndexedDbError::Foreign => "store content does not match this layout version"@,
            IndexedDbError::Key(e) => e.text(),
            IndexedDbError::Unavailable => "IndexedDB is unavailable in this environment"@,
            IndexedDbError::Closed => "IndexedDB connection is closed"@,
            IndexedDbError::QuotaExceeded => "IndexedDB storage quota exceeded"@,
            IndexedDbError::Conflict => "IndexedDB session conflicted with another commit"@,
            IndexedDbError::CommitAborted { reason } => "IndexedDB commit aborted: "@ + reason@,
            IndexedDbError::Corrupt { detail } => "IndexedDB data is corrupt: "@ + detail@,
            IndexedDbError::ReadOnly => "write attempted on a read-only IndexedDB store"@,
            IndexedDbError::Backend { name, message } => "IndexedDB backend error ("@ + name@
                + "): "@ + message@,
        }
    }

    fn message(&self) -> (r: String) {
        match self {
            IndexedDbError::Foreign => "store content does not match this layout version".to_owned(),
            IndexedDbError::Key(e) => e.message(),
            IndexedDbError::Unavailable => {
                "IndexedDB is unavailable in this environment".to_owned()
            },
            IndexedDbError::Closed => "IndexedDB connection is closed".to_owned(),
            IndexedDbError::QuotaExceeded => "IndexedDB storage quota exceeded".to_owned(),
            IndexedDbError::Conflict => {
                "IndexedDB session conflicted with another commit".to_owned()
            },
            IndexedDbError::CommitAborted { reason } => joined(
                "IndexedDB commit aborted: ",
                reason.as_str(),
            ),
            IndexedDbError::Corrupt { detail } => joined(
                "IndexedDB data is corrupt: ",
                detail.as_str(),
            ),
            IndexedDbError::ReadOnly => "write attempted on a read-only IndexedDB store".to_owned(),
            IndexedDbError::Backend { name, message } => {
                let head = joined("IndexedDB backend error (", name.as_str());
                joined(joined(head.as_str(), "): ").as_str(), message.as_str())
            },
        }
    }
}

/// Whether an error is a corruption with this detail.
pub open spec fn is_corrupt_with(e: IndexedDbError, detail: Seq<char>) -> bool {
    e matches IndexedDbError::Corrupt { detail: d } && d@ == detail
}

/// Whether an error is a backend failure with this name and message.
pub open spec fn is_backend_with(e: IndexedDbError, name: Seq<char>, message: Seq<char>) -> bool {
    e matches IndexedDbError::Backend { name: n, message: m } && n@ == name && m@ == message
}

/// A corruption with this detail.
pub fn corrupt(detail: &str) -> (r: IndexedDbError)
    ensures
        is_corrupt_with(r, detail@),
{
    IndexedDbError::Corrupt { detail: detail.to_owned() }
}

/// A backend failure with this name and message.
pub fn backend_failure(name: &str, message: &str) -> (r: IndexedDbError)
    ensures
        is_backend_with(r, name@, message@),
{
    IndexedDbError::Backend { name: name.to_owned(), message: message.to_owned() }
}

/// Whether two texts are the same.
pub(crate) fn same_text(a: &str, b: &str) -> (r: bool)
    ensures
        r == (a@ == b@),
{
    proof {
        encode_utf8_decode_utf8(a@);
        encode_utf8_decode_utf8(b@);
        if encode_utf8(a@) == encode_utf8(b@) {
            assert(decode_utf8(encode_utf8(a@)) == decode_utf8(encode_utf8(b@)));
        }
    }
    bytes_eq(a.as_bytes(), b.as_bytes())
}

/// The name and message of a browser exception.
#[derive(Debug, PartialEq)]
pub struct DomFailure {
    /// The exception name.
    pub name: String,
    /// The exception message.
    pub message: String,
}

/// Whether `e` is what a browser exception maps to: an exhausted quota where it
/// is named so, a backend failure with its name and message otherwise.
pub open spec fn is_dom_error(failure: DomFailure, e: IndexedDbError) -> bool {
    if failure.name@ == "QuotaExceededError"@ {
        e is QuotaExceeded
    } else {
        is_backend_with(e, failure.name@, failure.message@)
    }
}

/// Maps a browser exception.
pub fn dom_error(failure: DomFailure) -> (r: IndexedDbError)
    ensures
        is_dom_error(failure, r),
{
    if same_text(failure.name.as_str(), "QuotaExceededError") {
        IndexedDbError::QuotaExceeded
    } else {
        IndexedDbError::Backend { name: failure.name, message: failure.message }
    }
}

/// Maps a thrown value that is no exception: its text, where it is one.
pub fn thrown_error(text: Option<String>) -> (r: IndexedDbError)
    ensures
        is_backend_with(
            r,
            "UnknownError"@,
            match text {
                Some(t) => t@,
                None => "<non-string error>"@,
            },
        ),
{
    match text {
        Some(message) => IndexedDbError::Backend { name: "UnknownError".to_owned(), message },
        None => backend_failure("UnknownError", "<non-string error>"),
    }
}

/// Maps the exception of a failed request, if it has one.
pub fn request_error(failure: Option<DomFailure>) -> (r: IndexedDbError)
    ensures
        match failure {
            Some(f) => is_dom_error(f, r),
            None => is_backend_with(
                r,
                "UnknownError"@,
                "IndexedDB request failed without a DOM exception"@,
            ),
        },
{
    match failure {
        Some(f) => dom_error(f),
        None => backend_failure(
            "UnknownError",
            "IndexedDB request failed without a DOM exception",
        ),
    }
}

/// Maps an error of opening a transaction: an invalid state means that the
/// connection is closed, and the flag says so.
pub fn begin_error(error: IndexedDbError) -> (r: (IndexedDbError, bool))
    ensures
        r.1 == (error matches IndexedDbError::Backend { name: n, message: _ } && n@
            == "InvalidStateError"@),
        r.1 ==> r.0 is Closed,
        !r.1 ==> r.0 == error,
{
    let closed = match &error {
        IndexedDbError::Backend { name, message: _ } => same_text(
            name.as_str(),
            "InvalidStateError",
        ),
        _ => false,
    };
    if closed {
        (IndexedDbError::Closed, true)
    } else {
        (error, false)
    }
}

/// How a transaction ended.
pub enum TransactionEnd {
    /// It completed.
    Complete,
    /// It was aborted, with the exception that the browser gives for it.
    Aborted {
        /// The exception, if there is one.
        error: Option<DomFailure>,
    },
}

/// Whether an error reports that a readonly transaction was rolled back.
pub open spec fn is_readonly_failure(outcome: TransactionEnd, e: IndexedDbError) -> bool {
    match outcome {
        TransactionEnd::Complete => false,
        TransactionEnd::Aborted { error: Some(f) } => is_backend_with(e, f.name@, f.message@),
        TransactionEnd::Aborted { error: None } => is_backend_with(
            e,
            "AbortError"@,
            "readonly IndexedDB transaction aborted"@,
        ),
    }
}

/// What the end of a read-only transaction means for what was read through it.
pub fn readonly_result(outcome: TransactionEnd) -> (r: Result<(), IndexedDbError>)
    ensures
        match r {
            Ok(()) => outcome is Complete,
            Err(e) => is_readonly_failure(outcome, e),
        },
{
    match outcome {
        TransactionEnd::Complete => Ok(()),
        TransactionEnd::Aborted { error } => match error {
            Some(f) => Err(IndexedDbError::Backend { name: f.name, message: f.message }),
            None => Err(backend_failure("AbortError", "readonly IndexedDB transaction aborted")),
        },
    }
}

/// Whether `e` is what a layout error maps to.
pub open spec fn is_layout_error(error: FlatError<IndexedDbError>, e: IndexedDbError) -> bool {
    match error {
        FlatError::Foreign => e is Foreign,
        FlatError::Corrupt => is_corrupt_with(e, "directory layout is malformed"@),
        FlatError::Key(k) => e == IndexedDbError::Key(k),
        FlatError::Engine(inner) => e == inner,
    }
}

/// Maps an error of the directory layout.
pub fn layout_error(error: FlatError<IndexedDbError>) -> (r: IndexedDbError)
    ensures
        is_layout_error(error, r),
{
    match error {
        FlatError::Foreign => IndexedDbError::Foreign,
        FlatError::Corrupt => corrupt("directory layout is malformed"),
        FlatError::Key(error) => IndexedDbError::Key(error),
        FlatError::Engine(error) => error,
    }
}

} // verus!
