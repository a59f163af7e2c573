//! The contract every storage error must answer: whether a rerun is sound, and
//! what to tell a person.

use vstd::prelude::*;

verus! {

/// Error contract for storage failures that can be safely retried by discarding
/// the current logical attempt and rerunning it from the start.
///
/// "Retryable" here is a statement about the *whole* logical operation, not
/// about a single round-trip. A transactional backend that rejects a commit
/// because of a read/write conflict is retryable: nothing was written, and
/// rerunning the state transition from its beginning is sound. A serialization
/// failure, a key-schema violation, or a prefix violation is not: the input is
/// wrong and will be just as wrong the second time.
///
/// Retryability lives on the *concrete* error value. Any wrapper that
/// type-erases a storage error must call [`is_retryable`] on the concrete error
/// *before* erasing it and carry the resulting `bool` alongside the erased
/// value: once the type is gone the answer is unrecoverable.
///
/// [`is_retryable`]: RetryableStorageError::is_retryable
pub trait RetryableStorageError {
    /// Whether a rerun from the beginning is sound.
    spec fn retryable(&self) -> bool;

    /// Returns `true` when the caller may safely rerun the entire logical
    /// operation from the beginning.
    ///
    /// Implementations must be conservative: return `false` whenever it is not
    /// certain that the attempt left no partial effect behind.
    fn is_retryable(&self) -> (r: bool)
        ensures
            r == self.retryable(),
    ;
}

/// The text of an error, for a person.
pub trait ErrorMessage {
    /// The text.
    spec fn text(&self) -> Seq<char>;

    /// The text as an owned string.
    fn message(&self) -> (r: String)
        ensures
            r@ == self.text(),
    ;
}

} // verus!
