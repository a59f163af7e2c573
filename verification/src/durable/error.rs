//! The errors of the durable backend.

use vstd::prelude::*;

use crate::directory_laws::{listing_refused, remove_refused};
use crate::error::{ErrorMessage, RetryableStorageError};
use crate::flatdir::error::FlatError;
use crate::flatengine::{create_refused, lookup, refusal_of, Refusal};
use crate::key::valid_path;
use crate::rawkv::Rows;
use crate::text::joined;

verus! {

/// A failure of the engine beneath the layout.
#[derive(Debug, PartialEq)]
pub enum RedbBackendError {
    /// The engine failed, with its own text.
    Backend(String),
    /// A write was attempted on a read-only store.
    ReadOnly,
    /// The store carries a layout version that this layout does not read.
    LayoutVersionMismatch,
}

impl RetryableStorageError for RedbBackendError {
    /// Engine failures (a failed commit, an access error) are persistent, not
    /// transient.
    open spec fn retryable(&self) -> bool {
        false
    }

    fn is_retryable(&self) -> (r: bool) {
        false
    }
}

impl ErrorMessage for RedbBackendError {
    open spec fn text(&self) -> Seq<char> {
        match self {
            RedbBackendError::Backend(text) => "storage backend error: "@ + text@,
            RedbBackendError::ReadOnly => "write attempted on a read-only store"@,
            RedbBackendError::LayoutVersionMismatch => {
                "the store carries a different layout version"@
            },
        }
    }

    fn message(&self) -> (r: String) {
        match self {
            RedbBackendError::Backend(text) => joined("storage backend error: ", text.as_str()),
            RedbBackendError::ReadOnly => "write attempted on a read-only store".to_owned(),
            RedbBackendError::LayoutVersionMismatch => {
                "the store carries a different layout version".to_owned()
            },
        }
    }
}

/// The error type of the durable backend: the flat-layout error with the
/// engine's error as its source. Its text is that of the layout error.
#[derive(Debug, PartialEq)]
pub struct RedbStorageError(pub FlatError<RedbBackendError>);

impl From<FlatError<RedbBackendError>> for RedbStorageError {
    fn from(e: FlatError<RedbBackendError>) -> (r: Self) {
        RedbStorageError(e)
    }
}

impl vstd::std_specs::convert::FromSpecImpl<FlatError<RedbBackendError>> for RedbStorageError {
    open spec fn obeys_from_spec() -> bool {
        true
    }

    open spec fn from_spec(e: FlatError<RedbBackendError>) -> Self {
        RedbStorageError(e)
    }
}

impl From<RedbBackendError> for RedbStorageError {
    fn from(e: RedbBackendError) -> (r: Self) {
        RedbStorageError(FlatError::Engine(e))
    }
}

impl vstd::std_specs::convert::FromSpecImpl<RedbBackendError> for RedbStorageError {
    open spec fn obeys_from_spec() -> bool {
        true
    }

    open spec fn from_spec(e: RedbBackendError) -> Self {
        RedbStorageError(FlatError::Engine(e))
    }
}

impl RetryableStorageError for RedbStorageError {
    open spec fn retryable(&self) -> bool {
        self.0.retryable()
    }

    fn is_retryable(&self) -> (r: bool) {
        self.0.is_retryable()
    }
}

impl ErrorMessage for RedbStorageError {
    open spec fn text(&self) -> Seq<char> {
        self.0.text()
    }

    fn message(&self) -> (r: String) {
        self.0.message()
    }
}

/// Whether an error reports a failure of the engine.
pub open spec fn is_engine_failure(e: RedbStorageError) -> bool {
    e.0 matches FlatError::Engine(RedbBackendError::Backend(_))
}

/// Whether an error reports a write on a read-only store.
pub open spec fn is_read_only(e: RedbStorageError) -> bool {
    e.0 == FlatError::<RedbBackendError>::Engine(RedbBackendError::ReadOnly)
}

/// Whether a read of `dir`, or a change to its keys, may end with this error: the
/// directory cannot be looked up, or the engine failed. An invalid path is
/// reported before the engine is asked.
pub open spec fn lookup_fails(m: Rows, dir: Seq<Seq<u8>>, e: RedbStorageError) -> bool {
    match refusal_of(e.0) {
        Some(f) => lookup(m, dir) == Err::<Option<Seq<u8>>, Refusal>(f),
        None => is_engine_failure(e) && valid_path(dir),
    }
}

/// Whether listing `dir` may end with this error.
pub open spec fn listing_fails(m: Rows, dir: Seq<Seq<u8>>, e: RedbStorageError) -> bool {
    match refusal_of(e.0) {
        Some(f) => listing_refused(m, dir, f),
        None => is_engine_failure(e) && valid_path(dir),
    }
}

/// Whether a write into `dir` may end with this error.
pub open spec fn create_fails(m: Rows, dir: Seq<Seq<u8>>, e: RedbStorageError) -> bool {
    match refusal_of(e.0) {
        Some(f) => create_refused(m, dir, f),
        None => is_engine_failure(e) && valid_path(dir),
    }
}

/// Whether removing `dir` may end with this error.
pub open spec fn removal_fails(m: Rows, dir: Seq<Seq<u8>>, e: RedbStorageError) -> bool {
    match refusal_of(e.0) {
        Some(f) => remove_refused(m, dir, f),
        None => (is_engine_failure(e) || is_read_only(e)) && valid_path(dir) && dir.len() > 0,
    }
}

} // verus!
