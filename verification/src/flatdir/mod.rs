//! The flat directory layout.
//!
//! The layout and its algorithms are those of FoundationDB's directory layer:
//! the node tree, the High Contention Allocator, the version row, the tuple byte
//! encoding. A store written in this layout and one written by that layer agree
//! on the form of every row.
//!
//! Key regions: `0x00`–`0xFD` data, `0xFE` directory nodes, `0xFF` reserved.
//! Allocated prefixes are packed `i64`s (prefix-free, first byte `0x0c..=0x1c`),
//! so data keys need no separator and cannot collide with meta or reserved rows.
//!
//! A view has exactly one writer. A store with no version row is fresh: reads
//! answer empty, and the first create writes the version row. A store whose
//! version row this layout does not read fails closed.
//!
//! The operations are in [`ops`] and [`hca`], what they mean in [`model`],
//! [`prune`], [`rows`] and [`touch`]. [`health`] states the invariant that they keep;
//! [`removal`] and [`soundness`] prove what it is good for.

pub mod error;
pub mod hca;
pub mod health;
pub mod layout;
pub mod model;
pub mod ops;
pub mod prune;
pub mod removal;
pub mod rows;
pub mod soundness;
pub mod touch;
pub mod tuple;

pub use error::FlatError;
pub use layout::{parse_version, LAYOUT_VERSION, ROOT_PATH_SEGMENT, VERSION_KEY};
