//! The durable backend: the flat directory layout over one redb table.
//!
//! A transaction's table is the raw byte map that the directory engine works
//! over. Reads of a write transaction see its own writes; nothing is durable
//! before the transaction is committed, and dropping it rolls it back.

pub mod error;
pub mod reader;
pub mod scan;
pub mod table;
pub mod transaction;
pub mod view;

pub use error::{RedbBackendError, RedbStorageError};
pub use reader::RedbReader;
pub use table::TABLE_NAME;
pub use transaction::RedbTransaction;
pub use view::{engine_result, probe_layout_version, scan_result, version_result};
