//! Checked conversions between the browser's values and the library's.
//!
//! The browser hands values over in the shapes that are named here; what they
//! have to be, and which failure it is when they are not, is decided here.

use core::ops::Bound;

use vstd::prelude::*;

use crate::bytes::{copy_bytes, le, lt};
use crate::indexeddb::error::{corrupt, is_corrupt_with, IndexedDbError};
use crate::indexeddb::revision::{revision_refused, Revision, RevisionNumber};
use crate::keyspace::{bound_of, crossed, in_range, is_empty_range, law_crossed_is_empty};
use crate::text::joined;

verus! {

/// The cursor range that corresponds to a pair of bounds.
#[derive(Debug, PartialEq)]
pub enum KeyRange {
    /// The bounds contain no key, so callers must not issue a cursor or delete.
    Empty,
    /// Neither side is bounded, so callers should use an unbounded operation.
    All,
    /// Only the lower side is bounded.
    Lower {
        /// The lower bound.
        lower: Vec<u8>,
        /// Whether the bound itself is left out.
        open: bool,
    },
    /// Only the upper side is bounded.
    Upper {
        /// The upper bound.
        upper: Vec<u8>,
        /// Whether the bound itself is left out.
        open: bool,
    },
    /// Both sides are bounded.
    Both {
        /// The lower bound.
        lower: Vec<u8>,
        /// The upper bound.
        upper: Vec<u8>,
        /// Whether the lower bound itself is left out.
        lower_open: bool,
        /// Whether the upper bound itself is left out.
        upper_open: bool,
    },
}

/// A bound at a key, with or without the key itself.
pub open spec fn at(key: Seq<u8>, open: bool) -> Bound<Seq<u8>> {
    if open {
        Bound::Excluded(key)
    } else {
        Bound::Included(key)
    }
}

/// Whether a key range is the one for a pair of bounds.
pub open spec fn is_key_range(start: Bound<Seq<u8>>, end: Bound<Seq<u8>>, r: KeyRange) -> bool {
    if crossed(start, end) {
        r is Empty
    } else {
        match r {
            KeyRange::Empty => false,
            KeyRange::All => start is Unbounded && end is Unbounded,
            KeyRange::Lower { lower, open } => start == at(lower@, open) && end is Unbounded,
            KeyRange::Upper { upper, open } => start is Unbounded && end == at(upper@, open),
            KeyRange::Both { lower, upper, lower_open, upper_open } => {
                start == at(lower@, lower_open) && end == at(upper@, upper_open)
            },
        }
    }
}

/// Whether a cursor over a key range meets a key.
pub open spec fn selects(r: KeyRange, k: Seq<u8>) -> bool {
    match r {
        KeyRange::Empty => false,
        KeyRange::All => true,
        KeyRange::Lower { lower, open } => if open {
            lt(lower@, k)
        } else {
            le(lower@, k)
        },
        KeyRange::Upper { upper, open } => if open {
            lt(k, upper@)
        } else {
            le(k, upper@)
        },
        KeyRange::Both { lower, upper, lower_open, upper_open } => {
            &&& if lower_open {
                lt(lower@, k)
            } else {
                le(lower@, k)
            }
            &&& if upper_open {
                lt(k, upper@)
            } else {
                le(k, upper@)
            }
        },
    }
}

/// A cursor over the key range of two bounds meets exactly the keys between them.
pub proof fn law_key_range(start: Bound<Seq<u8>>, end: Bound<Seq<u8>>, r: KeyRange, k: Seq<u8>)
    requires
        is_key_range(start, end, r),
    ensures
        selects(r, k) <==> in_range(k, start, end),
{
    if crossed(start, end) {
        law_crossed_is_empty(start, end, k);
    }
}

/// Converts a pair of bounds into the cursor range for it.
///
/// Empty and inverted ranges are identified first because the browser would
/// throw on some of them. In particular, the empty byte string remains a valid
/// bound and is never treated as unbounded.
pub fn key_range(start: Bound<&[u8]>, end: Bound<&[u8]>) -> (r: KeyRange)
    ensures
        is_key_range(bound_of(start), bound_of(end), r),
{
    if is_empty_range(&start, &end) {
        return KeyRange::Empty;
    }
    let lower: Option<(Vec<u8>, bool)> = match start {
        Bound::Unbounded => None,
        Bound::Included(key) => Some((copy_bytes(key), false)),
        Bound::Excluded(key) => Some((copy_bytes(key), true)),
    };
    let upper: Option<(Vec<u8>, bool)> = match end {
        Bound::Unbounded => None,
        Bound::Included(key) => Some((copy_bytes(key), false)),
        Bound::Excluded(key) => Some((copy_bytes(key), true)),
    };
    match (lower, upper) {
        (None, None) => KeyRange::All,
        (Some((lower, open)), None) => KeyRange::Lower { lower, open },
        (None, Some((upper, open))) => KeyRange::Upper { upper, open },
        (Some((lower, lower_open)), Some((upper, upper_open))) => KeyRange::Both {
            lower,
            upper,
            lower_open,
            upper_open,
        },
    }
}

/// A value read from a place where only binary values are stored.
pub enum BinaryValue {
    /// A binary value, copied.
    Bytes(Vec<u8>),
    /// Anything else, with the name of its JavaScript type where it has one.
    Other(Option<String>),
}

/// The name that a JavaScript type is reported under.
pub open spec fn reported_type(name: Option<String>) -> Seq<char> {
    match name {
        Some(text) => text@,
        None => "unknown"@,
    }
}

/// The report on a value of the wrong type.
pub open spec fn wrong_type(head: Seq<char>, name: Option<String>) -> Seq<char> {
    head + " (JavaScript type: "@ + reported_type(name) + ")"@
}

/// Writes the report on a value of the wrong type.
fn wrong_type_text(head: &str, name: &Option<String>) -> (r: String)
    ensures
        r@ == wrong_type(head@, *name),
{
    let opened = joined(head, " (JavaScript type: ");
    let named = match name {
        Some(text) => joined(opened.as_str(), text.as_str()),
        None => joined(opened.as_str(), "unknown"),
    };
    joined(named.as_str(), ")")
}

/// The bytes of a value, if it is binary.
pub open spec fn bytes_in(value: BinaryValue) -> Option<Seq<u8>> {
    match value {
        BinaryValue::Bytes(bytes) => Some(bytes@),
        BinaryValue::Other(_) => None,
    }
}

/// Whether an error reports that a value in some role is not binary.
pub open spec fn is_not_binary(value: BinaryValue, what: Seq<char>, e: IndexedDbError) -> bool {
    match value {
        BinaryValue::Bytes(_) => false,
        BinaryValue::Other(name) => is_corrupt_with(
            e,
            wrong_type(what + " is not a binary value"@, name),
        ),
    }
}

/// Copies the bytes of a value that has to be binary. The error reports only the
/// role and the JavaScript type, never application bytes.
pub fn binary_bytes(value: &BinaryValue, what: &str) -> (r: Result<Vec<u8>, IndexedDbError>)
    ensures
        match r {
            Ok(bytes) => bytes_in(*value) == Some(bytes@),
            Err(e) => is_not_binary(*value, what@, e),
        },
{
    match value {
        BinaryValue::Bytes(bytes) => Ok(copy_bytes(bytes.as_slice())),
        BinaryValue::Other(name) => {
            let head = joined(what, " is not a binary value");
            Err(IndexedDbError::Corrupt { detail: wrong_type_text(head.as_str(), name) })
        },
    }
}

/// A value read from the place where the revision is stored.
pub enum RevisionRecord {
    /// There is none.
    Missing,
    /// A number.
    Number(RevisionNumber),
    /// Anything else, with the name of its JavaScript type where it has one.
    Other(Option<String>),
}

/// The revision in a record, if it holds one.
pub open spec fn revision_in(record: RevisionRecord) -> Option<u64> {
    match record {
        RevisionRecord::Number(n) => n.revision(),
        _ => None,
    }
}

/// Whether an error reports what is wrong with a revision record.
pub open spec fn is_bad_record(record: RevisionRecord, e: IndexedDbError) -> bool {
    match record {
        RevisionRecord::Missing => is_corrupt_with(e, "revision record is missing"@),
        RevisionRecord::Number(n) => revision_refused(n, e),
        RevisionRecord::Other(name) => is_corrupt_with(
            e,
            wrong_type("revision is not a number"@, name),
        ),
    }
}

/// Validates a revision record.
pub fn checked_revision(record: RevisionRecord) -> (r: Result<Revision, IndexedDbError>)
    ensures
        match r {
            Ok(revision) => revision_in(record) == Some(revision.value()),
            Err(e) => revision_in(record) is None && is_bad_record(record, e),
        },
{
    match record {
        RevisionRecord::Missing => Err(corrupt("revision record is missing")),
        RevisionRecord::Number(n) => Revision::from_number(n),
        RevisionRecord::Other(name) => Err(
            IndexedDbError::Corrupt { detail: wrong_type_text("revision is not a number", &name) },
        ),
    }
}

} // verus!
