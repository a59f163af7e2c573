//! The browser backend: sessions over an owned snapshot, committed behind a
//! revision fence.

pub mod commit;
pub mod convert;
pub mod error;
pub mod revision;
pub mod session;
pub mod settle;
pub mod snapshot;
