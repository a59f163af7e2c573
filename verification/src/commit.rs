//! The [`Commit`] trait: finalizing one storage session.

use vstd::prelude::*;

use crate::error::RetryableStorageError;
use crate::maybe_send::{MaybeSend, MaybeSync};

verus! {

/// Finalizes the writes performed through a mutable storage handle.
///
/// `Commit` is deliberately **separate from [`KvStore`](crate::store::KvStore)**:
/// a read-only handle and a write handle can both be stores; only the write
/// handle is a *session* that has to be closed out.
///
/// # The atomicity rule
///
/// **One state-transition invocation = one storage session = one atomic
/// commit.** Everything a transition writes lands together or not at all.
/// Dropping a session before invoking `commit` is the rollback.
///
/// `commit` **consumes `self`**: a session cannot be committed twice and cannot
/// be written to after commit.
pub trait Commit: Sized {
    /// Error type produced by the commit itself.
    ///
    /// An error for which
    /// [`is_retryable`](RetryableStorageError::is_retryable) is `true`
    /// guarantees that this commit attempt did not commit and is safe to replay
    /// from a fresh session.
    type Error: RetryableStorageError + MaybeSend + MaybeSync;

    /// What a finished session hands to its base, to be applied as one.
    type Outcome;

    /// Whether the session can be closed out.
    spec fn ready(&self) -> bool;

    /// Whether the session may end with this outcome.
    spec fn ends_with(&self, outcome: Self::Outcome) -> bool;

    /// Whether the session may be refused.
    spec fn may_fail(&self) -> bool;

    /// Finalize every write performed through this handle, atomically.
    fn commit(self) -> (r: Result<Self::Outcome, Self::Error>)
        requires
            self.ready(),
        ensures
            match r {
                Ok(outcome) => self.ends_with(outcome),
                Err(_) => self.may_fail(),
            },
    ;
}

} // verus!
