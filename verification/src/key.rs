//! Directory-key validation and the owned key form.

use vstd::prelude::*;
use vstd::utf8::{encode_utf8_valid_utf8, valid_utf8};

use crate::bytes::string_from_utf8;
use crate::error::{ErrorMessage, RetryableStorageError};
use crate::text::{decimal, with_number};

verus! {

/// The owned `(dir, key)` form, for callers that hold a key across a wait, in
/// contrast to the borrowed forms the store operations take. `dir` must pass
/// [`validate_dir`]; `key` is arbitrary bytes.
#[derive(Debug, Clone, PartialEq, Eq)]
pub struct Key {
    /// The directory path (UTF-8 segments).
    pub dir: Vec<Vec<u8>>,
    /// The key within the directory (arbitrary bytes).
    pub key: Vec<u8>,
}

/// A directory path failed validation.
///
/// Both variants are input errors: the operation is just as wrong on a rerun,
/// so neither is retryable.
#[derive(Debug, Clone, Copy, PartialEq, Eq, Structural)]
pub enum KeyError {
    /// Segment `segment` is not valid UTF-8.
    DirSegmentNotUtf8 {
        /// The 0-based index of the offending segment.
        segment: usize,
    },
    /// A directory-removal operation was applied to the root `[]`.
    RootNotRemovable,
}

impl RetryableStorageError for KeyError {
    open spec fn retryable(&self) -> bool {
        false
    }

    fn is_retryable(&self) -> (r: bool) {
        false
    }
}

impl ErrorMessage for KeyError {
    open spec fn text(&self) -> Seq<char> {
        match self {
            KeyError::DirSegmentNotUtf8 { segment } => "directory segment "@ + decimal(
                *segment as nat,
            ) + " is not valid UTF-8"@,
            KeyError::RootNotRemovable => "the root directory cannot be removed"@,
        }
    }

    fn message(&self) -> (r: String) {
        match self {
            KeyError::DirSegmentNotUtf8 { segment } => {
                with_number("directory segment ", *segment as u64, " is not valid UTF-8")
            },
            KeyError::RootNotRemovable => "the root directory cannot be removed".to_owned(),
        }
    }
}

/// The segments of a directory path, as byte strings.
pub open spec fn path_of(dir: Seq<&[u8]>) -> Seq<Seq<u8>> {
    Seq::new(dir.len(), |i: int| dir[i]@)
}

/// Whether every segment of a path is valid UTF-8.
pub open spec fn valid_path(path: Seq<Seq<u8>>) -> bool {
    forall|i: int| 0 <= i < path.len() ==> valid_utf8(#[trigger] path[i])
}

/// The index of the first segment that is not valid UTF-8, if there is one.
pub open spec fn first_bad_segment(path: Seq<Seq<u8>>, i: int) -> bool {
    &&& 0 <= i < path.len()
    &&& !valid_utf8(path[i])
    &&& forall|j: int| 0 <= j < i ==> valid_utf8(#[trigger] path[j])
}

/// Validate a directory path: every segment must be valid UTF-8.
///
/// Every backend calls this before touching its engine, so an invalid path
/// fails with one answer on every backend. An empty segment is valid (the
/// empty string is valid UTF-8), and the empty path (the root) is valid.
pub fn validate_dir(dir: &[&[u8]]) -> (r: Result<(), KeyError>)
    ensures
        match r {
            Ok(()) => valid_path(path_of(dir@)),
            Err(KeyError::DirSegmentNotUtf8 { segment }) => first_bad_segment(
                path_of(dir@),
                segment as int,
            ),
            Err(KeyError::RootNotRemovable) => false,
        },
        r is Ok <==> valid_path(path_of(dir@)),
{
    let mut i: usize = 0;
    while i < dir.len()
        invariant
            i <= dir.len(),
            forall|j: int| 0 <= j < i ==> valid_utf8(#[trigger] path_of(dir@)[j]),
        decreases dir.len() - i,
    {
        let seg = dir[i];
        assert(path_of(dir@)[i as int] == seg@);
        match string_from_utf8(seg) {
            Some(text) => {
                proof {
                    encode_utf8_valid_utf8(text@);
                }
            },
            None => {
                assert(!valid_utf8(path_of(dir@)[i as int]));
                return Err(KeyError::DirSegmentNotUtf8 { segment: i });
            },
        }
        i = i + 1;
    }
    Ok(())
}

} // verus!
