//! Directory navigation: the extension trait over [`KvStore`].

use vstd::prelude::*;
use vstd::utf8::valid_utf8;

use crate::bytes::lt;
use crate::directory_laws::extends;
use crate::flatengine::byte_strings;
use crate::key::{path_of, valid_path};
use crate::store::KvStore;

verus! {

/// Whether a list of byte strings rises strictly.
pub open spec fn ascending(names: Seq<Seq<u8>>) -> bool {
    forall|i: int, j: int|
        #![trigger names[i], names[j]]
        0 <= i < j < names.len() ==> lt(names[i], names[j])
}

/// Directory navigation over a [`KvStore`].
///
/// The data plane addresses data within a directory; this trait addresses the
/// directories themselves.
///
/// All three methods validate their directory path with
/// [`validate_dir`](crate::key::validate_dir) before touching the engine.
pub trait KvDirNav: KvStore {
    /// Whether a directory can be removed at all: the root of the store cannot.
    spec fn removable(&self, dir: Seq<Seq<u8>>) -> bool;

    /// List the immediate child directory names under `dir`, as segment bytes,
    /// sorted ascending.
    ///
    /// A missing `dir` yields an empty list, not an error;
    /// [`dir_exists`](KvDirNav::dir_exists) is how to tell "no children" from
    /// "not there".
    fn list_dirs(&self, dir: &[&[u8]]) -> (r: Result<Vec<Vec<u8>>, Self::Error>)
        requires
            self.wf(),
        ensures
            match r {
                Ok(names) => {
                    &&& valid_path(path_of(dir@))
                    &&& ascending(byte_strings(names@))
                    &&& forall|i: int|
                        0 <= i < names@.len() ==> valid_utf8(#[trigger] byte_strings(names@)[i])
                    &&& !self.dir_there(path_of(dir@)) ==> names@.len() == 0
                    &&& self.in_order() ==> forall|seg: Seq<u8>|
                        valid_utf8(seg) ==> (#[trigger] byte_strings(names@).contains(seg)
                            <==> self.dir_there(path_of(dir@)) && self.dir_there(
                            path_of(dir@).push(seg),
                        ))
                },
                Err(_) => !valid_path(path_of(dir@)) || !self.in_order() || !self.can_read(),
            },
    ;

    /// Whether the directory exists.
    ///
    /// "Exists" means the directory is materialised: its child row is present
    /// (a directory with zero data keys still exists); the root exists iff the
    /// store's anchor node exists, so a fresh, never-written store's root does
    /// not.
    fn dir_exists(&self, dir: &[&[u8]]) -> (r: Result<bool, Self::Error>)
        requires
            self.wf(),
        ensures
            match r {
                Ok(b) => valid_path(path_of(dir@)) && b == self.dir_there(path_of(dir@)),
                Err(_) => !valid_path(path_of(dir@)) || !self.in_order() || !self.can_read(),
            },
    ;

    /// Remove `dir` **recursively**: its subdirectories and all of `dir`'s own
    /// key data.
    ///
    /// `Ok(true)` if a directory existed and was removed, `Ok(false)` if it did
    /// not exist. The root `[]` is not removable.
    fn remove_dir(&mut self, dir: &[&[u8]]) -> (r: Result<bool, Self::Error>)
        requires
            old(self).wf(),
        ensures
            final(self).wf(),
            final(self).origin() == old(self).origin(),
            final(self).can_read() == old(self).can_read(),
            final(self).can_write() == old(self).can_write(),
            !valid_path(path_of(dir@)) ==> {
                &&& forall|other: Seq<Seq<u8>>|
                    (#[trigger] (final(self).content_of(other))) == old(self).content_of(other)
                &&& forall|other: Seq<Seq<u8>>|
                    (#[trigger] (final(self).dir_there(other))) == old(self).dir_there(other)
            },
            match r {
                Ok(removed) => {
                    &&& valid_path(path_of(dir@))
                    &&& old(self).removable(path_of(dir@))
                    &&& removed == old(self).dir_there(path_of(dir@))
                    &&& old(self).in_order() ==> {
                        &&& final(self).in_order()
                        &&& forall|other: Seq<Seq<u8>>|
                            valid_path(other) ==> (#[trigger] (final(self).dir_there(other))) == (old(
                                self,
                            ).dir_there(other) && !extends(other, path_of(dir@)))
                        &&& forall|other: Seq<Seq<u8>>|
                            valid_path(other) ==> (#[trigger] (final(self).content_of(other)))
                                == if extends(other, path_of(dir@)) {
                                Map::empty()
                            } else {
                                old(self).content_of(other)
                            }
                    }
                },
                Err(_) => {
                    ||| !valid_path(path_of(dir@))
                    ||| !old(self).removable(path_of(dir@))
                    ||| !old(self).in_order()
                    ||| !old(self).can_write()
                },
            },
    ;
}

} // verus!
