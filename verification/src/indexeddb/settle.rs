//! What callbacks record: one outcome at most, one page at a time.
//!
//! Requests and transactions report completion through event handlers. A shared
//! settled bit makes sure that duplicate or late events cannot produce a second
//! result.

use vstd::prelude::*;

use crate::indexeddb::error::{corrupt, is_corrupt_with, IndexedDbError};

verus! {

/// An outcome that is recorded once and taken once.
pub struct Settlement<T> {
    settled: bool,
    outcome: Option<T>,
}

impl<T> Settlement<T> {
    /// Whether an outcome has been recorded.
    pub closed spec fn is_settled(&self) -> bool {
        self.settled
    }

    /// The recorded outcome, until it is taken.
    pub closed spec fn waiting(&self) -> Option<T> {
        self.outcome
    }

    /// Nothing is recorded before the settlement.
    pub open spec fn wf(&self) -> bool {
        !self.is_settled() ==> self.waiting() is None
    }

    /// Nothing recorded yet.
    pub fn pending() -> (r: Self)
        ensures
            r.wf(),
            !r.is_settled(),
    {
        Settlement { settled: false, outcome: None }
    }

    /// Whether an outcome has been recorded.
    pub fn settled(&self) -> (r: bool)
        ensures
            r == self.is_settled(),
    {
        self.settled
    }

    /// Records an outcome: `true` for the first one, which counts; any later one
    /// is ignored.
    pub fn settle(&mut self, outcome: T) -> (r: bool)
        requires
            old(self).wf(),
        ensures
            final(self).wf(),
            r == !old(self).is_settled(),
            final(self).is_settled(),
            final(self).waiting() == if r {
                Some(outcome)
            } else {
                old(self).waiting()
            },
    {
        if self.settled {
            return false;
        }
        self.settled = true;
        self.outcome = Some(outcome);
        true
    }

    /// Takes the outcome, if one is recorded and not taken yet.
    pub fn take(&mut self) -> (r: Option<T>)
        requires
            old(self).wf(),
        ensures
            final(self).wf(),
            r == old(self).waiting(),
            final(self).waiting() is None,
            final(self).is_settled() == old(self).is_settled(),
    {
        let mut out: Option<T> = None;
        core::mem::swap(&mut self.outcome, &mut out);
        out
    }
}

/// A page of rows read by one cursor.
pub struct CursorPage<R> {
    /// The rows, in cursor order.
    pub rows: Vec<R>,
    /// Whether the cursor ran out of rows.
    pub exhausted: bool,
}

/// What a cursor's callback reports.
pub enum CursorEvent<R> {
    /// The request, or a read of the cursor, failed.
    Failed(IndexedDbError),
    /// The cursor has no more rows.
    End,
    /// The request's result is not a cursor.
    NotACursor,
    /// The cursor is at a row.
    Row(R),
}

/// What a cursor's callback does next.
#[derive(Debug, Clone, Copy, PartialEq, Eq, Structural)]
pub enum CursorStep {
    /// Nothing: the page was settled before.
    Ignore,
    /// Take the handlers off: the page is settled now.
    Settled,
    /// Ask the cursor for the next row.
    Continue,
}

/// The rows of a page while the cursor walks.
pub struct CursorState<R> {
    rows: Vec<R>,
    page: Settlement<Result<CursorPage<R>, IndexedDbError>>,
}

impl<R> CursorState<R> {
    /// The rows gathered for the page.
    pub closed spec fn gathered(&self) -> Seq<R> {
        self.rows@
    }

    /// The page's settlement.
    pub closed spec fn settlement(&self) -> Settlement<Result<CursorPage<R>, IndexedDbError>> {
        self.page
    }

    /// The settlement's invariant.
    pub open spec fn wf(&self) -> bool {
        self.settlement().wf()
    }

    /// No rows yet.
    pub fn pending() -> (r: Self)
        ensures
            r.wf(),
            r.gathered().len() == 0,
            !r.settlement().is_settled(),
    {
        CursorState { rows: Vec::new(), page: Settlement::pending() }
    }

    /// Settles the page with the rows gathered so far. `false` when it was
    /// settled before.
    pub fn settle_page(&mut self, exhausted: bool) -> (r: bool)
        requires
            old(self).wf(),
        ensures
            final(self).wf(),
            r == !old(self).settlement().is_settled(),
            final(self).settlement().is_settled(),
            r ==> (final(self).settlement().waiting() matches Some(Ok(page)) && page.rows@ == old(
                self,
            ).gathered() && page.exhausted == exhausted),
            !r ==> final(self).settlement() == old(self).settlement(),
    {
        if self.page.settled() {
            return false;
        }
        let mut rows: Vec<R> = Vec::new();
        core::mem::swap(&mut self.rows, &mut rows);
        self.page.settle(Ok(CursorPage { rows, exhausted }))
    }

    /// Settles the page with a failure. `false` when it was settled before.
    pub fn settle_failure(&mut self, error: IndexedDbError) -> (r: bool)
        requires
            old(self).wf(),
        ensures
            final(self).wf(),
            r == !old(self).settlement().is_settled(),
            final(self).settlement().is_settled(),
            r ==> final(self).settlement().waiting() == Some(
                Err::<CursorPage<R>, IndexedDbError>(error),
            ),
            !r ==> final(self).settlement().waiting() == old(self).settlement().waiting(),
    {
        self.page.settle(Err(error))
    }

    /// Handles one report of the cursor: gathers rows until the page is full or
    /// the cursor ends, and settles the page once.
    pub fn on_event(&mut self, event: CursorEvent<R>, page_size: usize) -> (r: CursorStep)
        requires
            old(self).wf(),
        ensures
            final(self).wf(),
            if old(self).settlement().is_settled() {
                r == CursorStep::Ignore && *final(self) == *old(self)
            } else {
                match event {
                    CursorEvent::Failed(e) => {
                        &&& r == CursorStep::Settled
                        &&& final(self).settlement().waiting() == Some(
                            Err::<CursorPage<R>, IndexedDbError>(e),
                        )
                    },
                    CursorEvent::NotACursor => {
                        &&& r == CursorStep::Settled
                        &&& (final(self).settlement().waiting() matches Some(Err(e))
                            && is_corrupt_with(e, "cursor request returned a non-cursor value"@))
                    },
                    CursorEvent::End => {
                        &&& r == CursorStep::Settled
                        &&& (final(self).settlement().waiting() matches Some(Ok(page)) && page.rows@
                            == old(self).gathered() && page.exhausted)
                    },
                    CursorEvent::Row(row) => if old(self).gathered().len() + 1 >= page_size {
                        &&& r == CursorStep::Settled
                        &&& (final(self).settlement().waiting() matches Some(Ok(page)) && page.rows@
                            == old(self).gathered().push(row) && !page.exhausted)
                    } else {
                        &&& r == CursorStep::Continue
                        &&& final(self).gathered() == old(self).gathered().push(row)
                        &&& final(self).settlement() == old(self).settlement()
                    },
                }
            },
            r == CursorStep::Settled ==> final(self).settlement().is_settled(),
    {
        if self.page.settled() {
            return CursorStep::Ignore;
        }
        match event {
            CursorEvent::Failed(error) => {
                let _ = self.settle_failure(error);
                CursorStep::Settled
            },
            CursorEvent::NotACursor => {
                let _ = self.settle_failure(corrupt("cursor request returned a non-cursor value"));
                CursorStep::Settled
            },
            CursorEvent::End => {
                let _ = self.settle_page(true);
                CursorStep::Settled
            },
            CursorEvent::Row(row) => {
                self.rows.push(row);
                if self.rows.len() >= page_size {
                    let _ = self.settle_page(false);
                    CursorStep::Settled
                } else {
                    CursorStep::Continue
                }
            },
        }
    }

    /// Takes the settled page, if it is there.
    pub fn take(&mut self) -> (r: Option<Result<CursorPage<R>, IndexedDbError>>)
        requires
            old(self).wf(),
        ensures
            final(self).wf(),
            r == old(self).settlement().waiting(),
            final(self).settlement().waiting() is None,
            final(self).settlement().is_settled() == old(self).settlement().is_settled(),
            final(self).gathered() == old(self).gathered(),
    {
        self.page.take()
    }
}

/// What to do once an open request succeeded.
pub enum OpenAction {
    /// Close the connection and report the failure of the schema upgrade.
    CloseAndFail(IndexedDbError),
    /// Report the failure.
    Fail(IndexedDbError),
    /// Close the connection: nobody waits for it any more.
    Close,
    /// Hand the connection to the waiting caller.
    Deliver,
}

/// Decides what a successful open request leads to: an upgrade that failed wins,
/// then a connection that could not be read, then a caller that went away.
pub fn open_action(
    upgrade_error: Option<IndexedDbError>,
    database: Result<(), IndexedDbError>,
    attached: bool,
) -> (r: OpenAction)
    ensures
        match (upgrade_error, database) {
            (Some(e), Ok(_)) => r == OpenAction::CloseAndFail(e),
            (Some(e), Err(_)) => r == OpenAction::Fail(e),
            (None, Err(e)) => r == OpenAction::Fail(e),
            (None, Ok(_)) => r == if attached {
                OpenAction::Deliver
            } else {
                OpenAction::Close
            },
        },
{
    match upgrade_error {
        Some(error) => match database {
            Ok(()) => OpenAction::CloseAndFail(error),
            Err(_) => OpenAction::Fail(error),
        },
        None => match database {
            Err(error) => OpenAction::Fail(error),
            Ok(()) => {
                if attached {
                    OpenAction::Deliver
                } else {
                    OpenAction::Close
                }
            },
        },
    }
}

/// The identifier that follows another one in a registry: zero is never given.
pub fn following_id(id: u64) -> (r: u64)
    ensures
        r == if id == u64::MAX {
            1
        } else {
            (id + 1) as u64
        },
        r > 0,
{
    if id == u64::MAX {
        1
    } else {
        id + 1
    }
}

} // verus!
