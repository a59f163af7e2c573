//! Fenced commits: what a session hands to the browser, and what the browser's
//! events mean for it.
//!
//! The session's observed revision is compared and advanced in the same
//! readwrite transaction as every buffered set and tombstone. A mismatch aborts
//! before writes are enqueued, so two sessions cannot both commit from one
//! revision. The resulting errors have these replay guarantees:
//!
//! | Result | Safe to retry from a fresh session? |
//! | --- | --- |
//! | [`IndexedDbError::Conflict`] | Yes; no writes were enqueued. |
//! | [`IndexedDbError::CommitAborted`] | Yes; every write was rolled back atomically. |
//! | Any other error | No; reconcile persisted state first. |

use vstd::prelude::*;

use crate::error::{ErrorMessage, RetryableStorageError};
use crate::indexeddb::error::{
    backend_failure, is_backend_with, same_text, DomFailure, IndexedDbError,
};
use crate::indexeddb::revision::{lemma_revision_value, Revision};
use crate::text::joined;

verus! {

/// What a finished session asks for.
pub enum CommitPlan {
    /// Nothing is pending: validate the fence, write nothing and leave the
    /// revision as it is.
    CheckFence {
        /// The revision that the session observed.
        expected: Revision,
    },
    /// Validate the fence, apply the operations and advance the revision, all
    /// in one transaction.
    Write {
        /// The revision that the session observed.
        expected: Revision,
        /// The revision that the commit leaves.
        next: Revision,
        /// The pending sets and tombstones, in key order.
        ops: Vec<(Vec<u8>, Option<Vec<u8>>)>,
    },
}

/// Whether the fence holds: the revision is still the one that the session
/// observed.
pub fn fence_result(revision: Revision, expected: Revision) -> (r: Result<(), IndexedDbError>)
    ensures
        match r {
            Ok(()) => revision.value() == expected.value(),
            Err(e) => revision.value() != expected.value() && e is Conflict,
        },
{
    if revision.get() == expected.get() {
        Ok(())
    } else {
        Err(IndexedDbError::Conflict)
    }
}

/// Why an abort of the transaction was asked for.
pub enum RequestedAbort {
    /// It was not.
    NotRequested,
    /// The fence did not hold.
    Conflict,
    /// An error came up.
    Return(IndexedDbError),
}

/// What to do after the revision was read.
#[derive(Debug, Clone, Copy, PartialEq, Eq, Structural)]
pub enum CommitStep {
    /// Enqueue every write and the next revision.
    Enqueue,
    /// Abort the transaction.
    Abort,
}

/// A commit while its transaction runs.
pub struct CommitState {
    expected: Revision,
    requested: RequestedAbort,
    abort_failed: bool,
    enqueue_started: bool,
}

impl CommitState {
    /// The revision that the session observed.
    pub closed spec fn expected(&self) -> Revision {
        self.expected
    }

    /// Why an abort was asked for.
    pub closed spec fn requested(&self) -> RequestedAbort {
        self.requested
    }

    /// Whether asking for the abort failed.
    pub closed spec fn abort_failed(&self) -> bool {
        self.abort_failed
    }

    /// Whether a write has been handed to the browser.
    pub closed spec fn enqueue_started(&self) -> bool {
        self.enqueue_started
    }

    /// A conflict is only ever found before the first write.
    pub open spec fn wf(&self) -> bool {
        self.requested() is Conflict ==> !self.enqueue_started()
    }

    /// A commit that has just begun.
    pub fn new(expected: Revision) -> (r: Self)
        ensures
            r.wf(),
            r.expected() == expected,
            r.requested() is NotRequested,
            !r.abort_failed(),
            !r.enqueue_started(),
    {
        CommitState {
            expected,
            requested: RequestedAbort::NotRequested,
            abort_failed: false,
            enqueue_started: false,
        }
    }

    /// Whether the revision can still decide: no write has been handed to the
    /// browser.
    pub fn is_open(&self) -> (r: bool)
        ensures
            r == !self.enqueue_started(),
    {
        !self.enqueue_started
    }

    /// Whether nothing asked for an abort so far.
    pub fn is_unasked(&self) -> (r: bool)
        ensures
            r == (self.requested() is NotRequested),
    {
        match self.requested {
            RequestedAbort::NotRequested => true,
            _ => false,
        }
    }

    /// Whether the fence was found not to hold, so that no write may follow.
    pub fn is_refused(&self) -> (r: bool)
        ensures
            r == (self.requested() is Conflict),
    {
        match self.requested {
            RequestedAbort::Conflict => true,
            _ => false,
        }
    }

    /// Records why an abort is asked for. The first cause counts.
    fn request(&mut self, cause: RequestedAbort)
        ensures
            final(self).expected() == old(self).expected(),
            final(self).abort_failed() == old(self).abort_failed(),
            final(self).enqueue_started() == old(self).enqueue_started(),
            final(self).requested() == if old(self).requested() is NotRequested {
                cause
            } else {
                old(self).requested()
            },
    {
        match self.requested {
            RequestedAbort::NotRequested => {
                self.requested = cause;
            },
            _ => {},
        }
    }

    /// The revision was read, or reading it failed. Writes are enqueued only if
    /// it is the one that the session observed.
    pub fn on_revision(&mut self, revision: Result<Revision, IndexedDbError>) -> (r: CommitStep)
        requires
            old(self).wf(),
            !old(self).enqueue_started(),
        ensures
            final(self).wf(),
            final(self).expected() == old(self).expected(),
            final(self).abort_failed() == old(self).abort_failed(),
            !final(self).enqueue_started(),
            r == CommitStep::Enqueue <==> (revision matches Ok(v) && v.value() == old(
                self,
            ).expected().value()),
            final(self).requested() == if r == CommitStep::Enqueue || !(old(
                self,
            ).requested() is NotRequested) {
                old(self).requested()
            } else {
                match revision {
                    Ok(_) => RequestedAbort::Conflict,
                    Err(e) => RequestedAbort::Return(e),
                }
            },
    {
        match revision {
            Ok(revision) => {
                if revision.get() == self.expected.get() {
                    CommitStep::Enqueue
                } else {
                    self.request(RequestedAbort::Conflict);
                    CommitStep::Abort
                }
            },
            Err(error) => {
                self.request(RequestedAbort::Return(error));
                CommitStep::Abort
            },
        }
    }

    /// The first write is about to be handed to the browser.
    pub fn on_enqueue(&mut self)
        requires
            old(self).wf(),
            !(old(self).requested() is Conflict),
        ensures
            final(self).wf(),
            final(self).expected() == old(self).expected(),
            final(self).requested() == old(self).requested(),
            final(self).abort_failed() == old(self).abort_failed(),
            final(self).enqueue_started(),
    {
        self.enqueue_started = true;
    }

    /// Something failed on the way: the transaction is to be aborted.
    pub fn on_failure(&mut self, error: IndexedDbError)
        requires
            old(self).wf(),
        ensures
            final(self).wf(),
            final(self).expected() == old(self).expected(),
            final(self).abort_failed() == old(self).abort_failed(),
            final(self).enqueue_started() == old(self).enqueue_started(),
            final(self).requested() == if old(self).requested() is NotRequested {
                RequestedAbort::Return(error)
            } else {
                old(self).requested()
            },
    {
        self.request(RequestedAbort::Return(error));
    }

    /// Asking for the abort failed.
    pub fn on_abort_failed(&mut self)
        requires
            old(self).wf(),
        ensures
            final(self).wf(),
            final(self).expected() == old(self).expected(),
            final(self).requested() == old(self).requested(),
            final(self).enqueue_started() == old(self).enqueue_started(),
            final(self).abort_failed(),
    {
        self.abort_failed = true;
    }

    /// What a completion of the transaction means for the commit: success where
    /// nothing asked for an abort; otherwise the cause of the requested abort, and
    /// where writes may have been applied in spite of it, an unknown outcome.
    pub open spec fn ends_as(&self, r: Result<(), IndexedDbError>) -> bool {
        match self.requested() {
            RequestedAbort::NotRequested => if self.abort_failed() {
                r is Err && is_backend_with(
                    r->Err_0,
                    "AbortError"@,
                    "transaction completed after an abort failed without a recorded cause"@,
                )
            } else {
                r is Ok
            },
            RequestedAbort::Conflict => r is Err && r->Err_0 is Conflict,
            RequestedAbort::Return(e) => r is Err && if self.enqueue_started() {
                is_backend_with(
                    r->Err_0,
                    "UnexpectedComplete"@,
                    "transaction completed after a requested abort; outcome unknown: "@
                        + e.text(),
                )
            } else {
                r->Err_0 == e
            },
        }
    }

    /// What the commit comes to when the transaction completed.
    ///
    /// A commit that was to be aborted but completed all the same reports its
    /// cause as long as no write had been enqueued; after that its outcome is
    /// unknown.
    pub fn completed(self) -> (r: Result<(), IndexedDbError>)
        requires
            self.wf(),
        ensures
            self.ends_as(r),
    {
        match self.requested {
            RequestedAbort::NotRequested => {
                if self.abort_failed {
                    Err(
                        backend_failure(
                            "AbortError",
                            "transaction completed after an abort failed without a recorded cause",
                        ),
                    )
                } else {
                    Ok(())
                }
            },
            RequestedAbort::Conflict => Err(IndexedDbError::Conflict),
            RequestedAbort::Return(error) => {
                if self.enqueue_started {
                    let message = joined(
                        "transaction completed after a requested abort; outcome unknown: ",
                        error.message().as_str(),
                    );
                    Err(
                        IndexedDbError::Backend {
                            name: "UnexpectedComplete".to_owned(),
                            message,
                        },
                    )
                } else {
                    Err(error)
                }
            },
        }
    }

    /// What the commit comes to when the transaction was aborted: the cause that
    /// the abort was asked for, or what the browser says of it.
    pub fn aborted(self, failure: Option<DomFailure>) -> (r: IndexedDbError)
        requires
            self.wf(),
        ensures
            match self.requested() {
                RequestedAbort::Conflict => r is Conflict,
                RequestedAbort::Return(e) => r == e,
                RequestedAbort::NotRequested => is_abort_error(failure, r),
            },
    {
        match self.requested {
            RequestedAbort::Conflict => IndexedDbError::Conflict,
            RequestedAbort::Return(error) => error,
            RequestedAbort::NotRequested => abort_error(failure),
        }
    }
}

/// Whether `e` is what an abort that nobody asked for means: an exhausted quota,
/// or an abort that the caller may retry, with the browser's reason.
pub open spec fn is_abort_error(failure: Option<DomFailure>, e: IndexedDbError) -> bool {
    match failure {
        Some(f) => if f.name@ == "QuotaExceededError"@ {
            e is QuotaExceeded
        } else {
            e matches IndexedDbError::CommitAborted { reason } && reason@ == f.name@ + ": "@
                + f.message@
        },
        None => e matches IndexedDbError::CommitAborted { reason } && reason@
            == "transaction aborted without an error"@,
    }
}

/// The error of an abort that nobody asked for.
pub fn abort_error(failure: Option<DomFailure>) -> (r: IndexedDbError)
    ensures
        is_abort_error(failure, r),
{
    match failure {
        Some(f) => {
            if same_text(f.name.as_str(), "QuotaExceededError") {
                IndexedDbError::QuotaExceeded
            } else {
                let head = joined(f.name.as_str(), ": ");
                IndexedDbError::CommitAborted {
                    reason: joined(head.as_str(), f.message.as_str()),
                }
            }
        },
        None => IndexedDbError::CommitAborted {
            reason: "transaction aborted without an error".to_owned(),
        },
    }
}

/// A commit whose transaction completed reports a retryable error only if no
/// write had been enqueued: what the caller may replay left nothing behind.
pub proof fn law_retryable_left_nothing(state: CommitState, r: Result<(), IndexedDbError>)
    requires
        state.wf(),
        state.ends_as(r),
        r is Err,
        (r->Err_0).retryable(),
    ensures
        !state.enqueue_started(),
{
}

/// A stale session never commits. Every commit takes the stored revision one up,
/// so a session that captured an earlier one finds another at its commit, and is
/// refused with a conflict.
pub proof fn law_fence(history: Seq<Revision>, captured: int, now: int)
    requires
        0 <= captured < now < history.len(),
        forall|i: int|
            0 <= i < history.len() - 1 ==> (#[trigger] history[i + 1]).value() == history[i].value()
                + 1,
    ensures
        history[now].value() != history[captured].value(),
        history[now] != history[captured],
{
    lemma_history_grows(history, captured, now);
    lemma_revision_value(history[now], history[captured]);
}

/// The stored revision grows with every commit.
proof fn lemma_history_grows(history: Seq<Revision>, i: int, j: int)
    requires
        0 <= i <= j < history.len(),
        forall|n: int|
            0 <= n < history.len() - 1 ==> (#[trigger] history[n + 1]).value() == history[n].value()
                + 1,
    ensures
        history[j].value() == history[i].value() + (j - i),
    decreases j - i,
{
    if i < j {
        lemma_history_grows(history, i, j - 1);
        assert(history[(j - 1) + 1].value() == history[j - 1].value() + 1);
    }
}

} // verus!
