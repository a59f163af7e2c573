//! What holds of calls.
//!
//! Every other module states what a function does over the model of its own data.
//! The laws here speak of the arguments that go into a call and of the result that
//! comes out of it, in terms of bytes, texts and numbers, or of how the results of
//! several calls relate: what is written is what is read, a scan lists what the
//! single reads give, and what is taken apart can be put together again.

pub mod allocator;
pub mod backends;
pub mod browser;
pub mod cluster;
pub mod creation;
pub mod directories;
pub mod encoding;
pub mod engine;
pub mod failures;
pub mod maps;
pub mod order;
pub mod pending;
pub mod stores;
pub mod texts;
pub mod validation;
pub mod views;
