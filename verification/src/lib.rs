//! Ordered key-value storage over byte strings, scoped by directory.
//!
//! A store is a byte-to-byte map in which every operation names a directory and
//! a key. The library holds what every backend needs: the byte order and its
//! range arithmetic ([`keyspace`]), the flat directory layout and its engine
//! ([`flatdir`], [`flatengine`]), the store traits ([`store`], [`nav`],
//! [`commit`]), the directory-pinned view ([`scoped`]), and the backends' own
//! logic: in memory ([`btreemap`]), durable ([`durable`]), in the browser
//! ([`indexeddb`]) and on a cluster ([`fdb`]).
//!
//! What holds of the directory operations together is stated and proved in
//! [`directory_laws`]; what holds of calls, by their arguments and results, in
//! [`call_laws`].

pub mod btreemap;
pub mod bytemap;
pub mod bytes;
pub mod call_laws;
pub mod commit;
pub mod cursor;
pub mod directory_laws;
pub mod durable;
pub mod error;
pub mod fdb;
pub mod flatdir;
pub mod flatengine;
pub mod indexeddb;
pub mod key;
pub mod keyspace;
pub mod maybe_send;
pub mod nav;
pub mod overlay;
pub mod rawkv;
pub mod scoped;
pub mod store;
pub mod stream;
pub mod text;

pub use commit::Commit;
pub use error::{ErrorMessage, RetryableStorageError};
pub use flatdir::error::FlatError;
pub use flatengine::{DataBounds, FlatEngine};
pub use key::{validate_dir, Key, KeyError};
pub use keyspace::{bound_as_slice, bound_to_owned, is_empty_range, next_prefix, prefix_range};
pub use maybe_send::{MaybeSend, MaybeSync};
pub use nav::KvDirNav;
pub use rawkv::RawKv;
pub use scoped::ScopedKvStore;
pub use store::KvStore;
pub use stream::{KvPair, KvStream};
