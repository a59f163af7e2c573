//! The revision used to fence concurrent sessions.

use core::cmp::Ordering;

use vstd::prelude::*;

use crate::indexeddb::error::{corrupt, is_corrupt_with, IndexedDbError};

verus! {

/// The largest integer exactly representable by a JavaScript number.
pub const MAX_REVISION: u64 = 0x1F_FFFF_FFFF_FFFF;

/// A database revision exactly representable by a JavaScript number.
///
/// The type admits only integral values from zero through [`MAX_REVISION`],
/// inclusive.
#[derive(Debug, Clone, Copy, PartialEq, Eq, Ord, Structural)]
pub struct Revision(u64);

impl PartialOrd for Revision {
    fn partial_cmp(&self, other: &Self) -> (r: Option<Ordering>) {
        if self.0 < other.0 {
            Some(Ordering::Less)
        } else if self.0 > other.0 {
            Some(Ordering::Greater)
        } else {
            Some(Ordering::Equal)
        }
    }
}

impl vstd::std_specs::cmp::PartialOrdSpecImpl for Revision {
    open spec fn obeys_partial_cmp_spec() -> bool {
        true
    }

    open spec fn partial_cmp_spec(&self, other: &Self) -> Option<Ordering> {
        if self.value() < other.value() {
            Some(Ordering::Less)
        } else if self.value() > other.value() {
            Some(Ordering::Greater)
        } else {
            Some(Ordering::Equal)
        }
    }
}

/// A stored number, by what a revision can be made of.
#[derive(Debug, Clone, Copy, PartialEq, Eq, Structural)]
pub enum RevisionNumber {
    /// Not a number, or an infinity.
    NotFinite,
    /// Below zero.
    Negative,
    /// Not below zero, and not an integer.
    Fractional,
    /// An integer, not below zero; one beyond the range of `u64` is given as the
    /// largest of that range.
    Whole(u64),
}

impl RevisionNumber {
    /// The revision that the number stands for, if it is one.
    pub open spec fn revision(self) -> Option<u64> {
        match self {
            RevisionNumber::Whole(value) => if value <= MAX_REVISION {
                Some(value)
            } else {
                None
            },
            _ => None,
        }
    }
}

/// Whether an error says why a number is no revision.
pub open spec fn revision_refused(n: RevisionNumber, e: IndexedDbError) -> bool {
    match n {
        RevisionNumber::NotFinite => is_corrupt_with(e, "revision is not finite"@),
        RevisionNumber::Negative => is_corrupt_with(e, "revision is negative"@),
        RevisionNumber::Fractional => is_corrupt_with(e, "revision is not an integer"@),
        RevisionNumber::Whole(value) => value > MAX_REVISION && is_corrupt_with(
            e,
            "revision exceeds the JavaScript safe-integer range"@,
        ),
    }
}

impl Revision {
    /// The initial revision of a newly created database.
    pub fn zero() -> (r: Self)
        ensures
            r.value() == 0,
    {
        Revision(0)
    }

    /// The largest revision.
    pub fn max() -> (r: Self)
        ensures
            r.value() == MAX_REVISION,
    {
        Revision(MAX_REVISION)
    }

    /// The revision as a number.
    pub closed spec fn value(&self) -> u64 {
        self.0
    }

    /// A revision is at most [`MAX_REVISION`].
    #[verifier::type_invariant]
    pub closed spec fn inv(&self) -> bool {
        self.0 <= MAX_REVISION
    }

    /// The revision of this number; a number beyond the safe range is corrupt
    /// metadata.
    pub fn new(value: u64) -> (r: Result<Self, IndexedDbError>)
        ensures
            match r {
                Ok(v) => v.value() == value && value <= MAX_REVISION,
                Err(e) => value > MAX_REVISION && is_corrupt_with(
                    e,
                    "revision exceeds the JavaScript safe-integer range"@,
                ),
            },
    {
        if value > MAX_REVISION {
            Err(corrupt("revision exceeds the JavaScript safe-integer range"))
        } else {
            Ok(Revision(value))
        }
    }

    /// Converts a stored number into a checked revision.
    ///
    /// Anything but an integer that a JavaScript number holds exactly indicates
    /// corrupt metadata rather than a recoverable browser error.
    pub fn from_number(n: RevisionNumber) -> (r: Result<Self, IndexedDbError>)
        ensures
            match r {
                Ok(v) => n.revision() == Some(v.value()),
                Err(e) => n.revision() is None && revision_refused(n, e),
            },
    {
        match n {
            RevisionNumber::NotFinite => Err(corrupt("revision is not finite")),
            RevisionNumber::Negative => Err(corrupt("revision is negative")),
            RevisionNumber::Fractional => Err(corrupt("revision is not an integer")),
            RevisionNumber::Whole(value) => Revision::new(value),
        }
    }

    /// Returns the following revision.
    ///
    /// Exhaustion is treated as corrupt metadata and never wraps the fence,
    /// because wrapping could let a stale session commit.
    pub fn next(self) -> (r: Result<Self, IndexedDbError>)
        ensures
            match r {
                Ok(v) => v.value() == self.value() + 1 && v.value() <= MAX_REVISION,
                Err(e) => self.value() == MAX_REVISION && is_corrupt_with(
                    e,
                    "revision exhausted the JavaScript safe-integer range"@,
                ),
            },
            self.value() <= MAX_REVISION,
    {
        proof {
            use_type_invariant(&self);
        }
        if self.0 == MAX_REVISION {
            return Err(corrupt("revision exhausted the JavaScript safe-integer range"));
        }
        Ok(Revision(self.0 + 1))
    }

    /// Returns the revision as a native integer.
    pub fn get(self) -> (r: u64)
        ensures
            r == self.value(),
            r <= MAX_REVISION,
    {
        proof {
            use_type_invariant(&self);
        }
        self.0
    }
}

/// Revisions with the same number are the same.
pub proof fn lemma_revision_value(a: Revision, b: Revision)
    ensures
        a.value() == b.value() <==> a == b,
{
}

} // verus!
