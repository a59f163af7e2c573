//! Marker bounds of native storage implementations.

use vstd::prelude::*;

verus! {

/// A portability bound that requires [`Send`].
///
/// Executors move storage sessions between tasks, so those values must be
/// `Send`. Naming the bound in one place keeps it out of the storage traits.
pub trait MaybeSend: Send {

}

impl<T: Send> MaybeSend for T {

}

/// A portability bound that requires [`Sync`].
///
/// Executors may share storage sessions between tasks, so session and error
/// values at storage boundaries must be `Sync`.
pub trait MaybeSync: Sync {

}

impl<T: Sync> MaybeSync for T {

}

} // verus!
