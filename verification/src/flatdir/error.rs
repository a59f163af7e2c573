//! The error type shared by the layout machinery and the flat backends.

use vstd::prelude::*;

use crate::error::{ErrorMessage, RetryableStorageError};
use crate::key::KeyError;

verus! {

/// A flat-layout store failed a structural precondition.
///
/// Every variant is non-retryable except `Engine`, which delegates to the
/// engine view's own classification.
#[derive(Debug, PartialEq)]
pub enum FlatError<E> {
    /// The store's version row names a layout this build does not read (a
    /// newer major or minor version, or a value that is not a 12-byte version
    /// at all).
    Foreign,
    /// A structural row (version, HCA counter or recent, node row) is
    /// malformed, or the allocator produced a state the layout cannot have
    /// produced (a prefix already in use, a corrupt counter).
    Corrupt,
    /// A directory path failed validation.
    Key(KeyError),
    /// The engine view failed.
    Engine(E),
}

impl<E: RetryableStorageError> RetryableStorageError for FlatError<E> {
    open spec fn retryable(&self) -> bool {
        match self {
            FlatError::Engine(e) => e.retryable(),
            _ => false,
        }
    }

    fn is_retryable(&self) -> (r: bool) {
        match self {
            FlatError::Engine(e) => e.is_retryable(),
            _ => false,
        }
    }
}

impl<E: ErrorMessage> ErrorMessage for FlatError<E> {
    open spec fn text(&self) -> Seq<char> {
        match self {
            FlatError::Foreign => "store content does not match this layout version"@,
            FlatError::Corrupt => "store content is malformed"@,
            FlatError::Key(e) => e.text(),
            FlatError::Engine(e) => e.text(),
        }
    }

    fn message(&self) -> (r: String) {
        match self {
            FlatError::Foreign => "store content does not match this layout version".to_owned(),
            FlatError::Corrupt => "store content is malformed".to_owned(),
            FlatError::Key(e) => e.message(),
            FlatError::Engine(e) => e.message(),
        }
    }
}

} // verus!
