//! [`ScopedKvStore`]: a directory-pinned view over any [`KvStore`].

use core::ops::Bound;

use vstd::prelude::*;
use vstd::utf8::valid_utf8;

use crate::commit::Commit;
use crate::directory_laws::extends;
use crate::flatengine::byte_strings;
use crate::key::{path_of, valid_path};
use crate::nav::KvDirNav;
use crate::rawkv::Rows;
use crate::store::{KvStore, Origin};
use crate::stream::KvStream;
use crate::text::{decimal, with_number};

verus! {

/// A view over an inner store in which every directory path is relative to a
/// pinned directory.
///
/// The pin is prepended to every operation's directory, so the caller addresses
/// the pinned directory as the root and cannot name anything outside of it. Each
/// operation is the inner store's own on the joined path and hands on what that
/// one answers; what lies outside of the pin stays as it is. Committing the view
/// commits the inner store, unwrapped.
pub struct ScopedKvStore<KV> {
    inner: KV,
    dir: Vec<Vec<u8>>,
}

impl<KV> ScopedKvStore<KV> {
    /// The inner store.
    pub closed spec fn store(&self) -> KV {
        self.inner
    }

    /// The pinned directory.
    pub closed spec fn pin(&self) -> Seq<Seq<u8>> {
        byte_strings(self.dir@)
    }

    /// Pin `inner` to `dir`.
    pub fn new(inner: KV, dir: Vec<Vec<u8>>) -> (r: Self)
        ensures
            r.store() == inner,
            r.pin() == byte_strings(dir@),
    {
        ScopedKvStore { inner, dir }
    }

    /// The pinned directory.
    pub fn dir(&self) -> (r: &[Vec<u8>])
        ensures
            byte_strings(r@) == self.pin(),
    {
        self.dir.as_slice()
    }

    /// The inner store.
    pub fn inner(&self) -> (r: &KV)
        ensures
            *r == self.store(),
    {
        &self.inner
    }

    /// The mutable inner store.
    pub fn inner_mut(&mut self) -> (r: &mut KV)
        ensures
            *r == old(self).store(),
            final(self).store() == *final(r),
            final(self).pin() == old(self).pin(),
    {
        &mut self.inner
    }

    /// The inner store, given back.
    pub fn into_inner(self) -> (r: KV)
        ensures
            r == self.store(),
    {
        self.inner
    }

    /// The view pinned one segment deeper.
    pub fn nested(self, seg: Vec<u8>) -> (r: Self)
        ensures
            r.store() == self.store(),
            r.pin() == self.pin().push(seg@),
    {
        let ghost before = self.dir@;
        let mut dir = self.dir;
        dir.push(seg);
        assert(byte_strings(dir@) =~= byte_strings(before).push(seg@));
        ScopedKvStore { inner: self.inner, dir }
    }

    /// A rendering that gives the number of pinned segments only.
    pub fn describe(&self) -> (r: String)
        ensures
            r@ == "ScopedKvStore { dir_segments: "@ + decimal(self.pin().len()) + " }"@,
    {
        with_number("ScopedKvStore { dir_segments: ", self.dir.len() as u64, " }")
    }
}

/// The pinned directory followed by a relative one.
pub fn join_dir<'a>(pin: &'a Vec<Vec<u8>>, rel: &[&'a [u8]]) -> (r: Vec<&'a [u8]>)
    ensures
        path_of(r@) == byte_strings(pin@) + path_of(rel@),
{
    let mut joined: Vec<&'a [u8]> = Vec::new();
    let mut i: usize = 0;
    while i < pin.len()
        invariant
            i <= pin@.len(),
            joined@.len() == i,
            forall|j: int| 0 <= j < i ==> (#[trigger] joined@[j])@ == pin@[j]@,
        decreases pin.len() - i,
    {
        joined.push(pin[i].as_slice());
        i = i + 1;
    }
    let mut n: usize = 0;
    while n < rel.len()
        invariant
            n <= rel@.len(),
            joined@.len() == pin@.len() + n,
            forall|j: int| 0 <= j < pin@.len() ==> (#[trigger] joined@[j])@ == pin@[j]@,
            forall|j: int| 0 <= j < n ==> joined@[pin@.len() + j]@ == (#[trigger] rel@[j])@,
        decreases rel.len() - n,
    {
        joined.push(rel[n]);
        n = n + 1;
    }
    proof {
        let a = path_of(joined@);
        let b = byte_strings(pin@) + path_of(rel@);
        assert forall|j: int| 0 <= j < a.len() implies a[j] == b[j] by {
            if j >= pin@.len() {
                assert(rel@[j - pin@.len()]@ == joined@[j]@);
            } else {
                assert(joined@[j]@ == pin@[j]@);
            }
        }
        assert(a =~= b);
    }
    joined
}

/// A path behind a pin is valid just if both are.
proof fn lemma_joined_valid(pin: Seq<Seq<u8>>, rel: Seq<Seq<u8>>)
    ensures
        valid_path(pin + rel) <==> valid_path(pin) && valid_path(rel),
{
    if valid_path(pin + rel) {
        assert forall|i: int| 0 <= i < pin.len() implies valid_utf8(#[trigger] pin[i]) by {
            assert(valid_utf8((pin + rel)[i]));
        }
        assert forall|i: int| 0 <= i < rel.len() implies valid_utf8(#[trigger] rel[i]) by {
            assert(valid_utf8((pin + rel)[pin.len() + i]));
        }
    }
    if valid_path(pin) && valid_path(rel) {
        assert forall|i: int| 0 <= i < (pin + rel).len() implies valid_utf8(
            #[trigger] (pin + rel)[i],
        ) by {
            if i < pin.len() {
                assert(valid_utf8(pin[i]));
            } else {
                assert(valid_utf8(rel[i - pin.len()]));
            }
        }
    }
}

/// Behind one pin, different paths stay different, and extensions stay
/// extensions.
pub proof fn law_pin_keeps_apart(pin: Seq<Seq<u8>>, a: Seq<Seq<u8>>, b: Seq<Seq<u8>>)
    ensures
        pin + a == pin + b <==> a == b,
        extends(pin + a, pin + b) <==> extends(a, b),
{
    let n = pin.len() as int;
    if pin + a == pin + b {
        assert(a =~= (pin + a).subrange(n, (pin + a).len() as int));
        assert(b =~= (pin + b).subrange(n, (pin + b).len() as int));
    }
    if extends(pin + a, pin + b) {
        assert(a.subrange(0, b.len() as int) =~= b) by {
            assert forall|i: int| 0 <= i < b.len() implies a[i] == b[i] by {
                assert((pin + a).subrange(0, (pin + b).len() as int)[n + i] == (pin + a)[n + i]);
                assert((pin + b)[n + i] == b[i]);
            }
        }
    }
    if extends(a, b) {
        assert((pin + a).subrange(0, (pin + b).len() as int) =~= pin + b) by {
            assert forall|i: int| 0 <= i < (pin + b).len() implies (pin + a)[i] == (pin + b)[i] by {
                if i >= n {
                    assert(a.subrange(0, b.len() as int)[i - n] == a[i - n]);
                }
            }
        }
    }
}

impl<KV: KvStore> KvStore for ScopedKvStore<KV> {
    type Error = KV::Error;

    open spec fn wf(&self) -> bool {
        self.store().wf()
    }

    open spec fn in_order(&self) -> bool {
        self.store().in_order() && valid_path(self.pin())
    }

    open spec fn can_read(&self) -> bool {
        self.store().can_read()
    }

    open spec fn can_write(&self) -> bool {
        self.store().can_write()
    }

    open spec fn content_of(&self, dir: Seq<Seq<u8>>) -> Rows {
        self.store().content_of(self.pin() + dir)
    }

    open spec fn dir_there(&self, dir: Seq<Seq<u8>>) -> bool {
        self.store().dir_there(self.pin() + dir)
    }

    open spec fn origin(&self) -> Origin {
        self.store().origin()
    }

    open spec fn has_room(&self, dir: Seq<Seq<u8>>) -> bool {
        self.store().has_room(self.pin() + dir)
    }

    fn get(&self, dir: &[&[u8]], key: &[u8]) -> (r: Result<Option<Vec<u8>>, KV::Error>)
        ensures
            exists|joined: &[&[u8]]|
                path_of(joined@) == self.pin() + path_of(dir@) && #[trigger] call_ensures(
                    KV::get,
                    (&self.store(), joined, key),
                    r,
                ),
    {
        proof {
            lemma_joined_valid(self.pin(), path_of(dir@));
        }
        let joined = join_dir(&self.dir, dir);
        let inner_get = KV::get;
        inner_get(&self.inner, joined.as_slice(), key)
    }

    fn set(&mut self, dir: &[&[u8]], key: &[u8], value: &[u8]) -> (r: Result<(), KV::Error>)
        ensures
            final(self).pin() == old(self).pin(),
            r is Ok && old(self).in_order() ==> {
                &&& forall|other: Seq<Seq<u8>>|
                    valid_path(other) && other != old(self).pin() + path_of(dir@)
                        ==> (#[trigger] (final(self).store().content_of(other))) == old(
                        self,
                    ).store().content_of(other)
                &&& forall|other: Seq<Seq<u8>>|
                    valid_path(other) ==> ((#[trigger] (final(self).store().dir_there(other)))
                        <==> old(self).store().dir_there(other) || extends(
                        old(self).pin() + path_of(dir@),
                        other,
                    ))
            },
            exists|inner: &mut KV, joined: &[&[u8]]|
                *inner == old(self).store() && *final(inner) == final(self).store() && path_of(
                    joined@,
                ) == old(self).pin() + path_of(dir@) && #[trigger] call_ensures(
                    KV::set,
                    (inner, joined, key, value),
                    r,
                ),
    {
        proof {
            let pin = self.pin();
            let path = path_of(dir@);
            lemma_joined_valid(pin, path);
            assert forall|other: Seq<Seq<u8>>|
                #![trigger pin + other]
                (valid_path(pin + other) <==> valid_path(pin) && valid_path(other)) && (pin + other
                    == pin + path <==> other == path) && (extends(pin + path, pin + other)
                    <==> extends(path, other)) by {
                lemma_joined_valid(pin, other);
                law_pin_keeps_apart(pin, other, path);
                law_pin_keeps_apart(pin, path, other);
            }
        }
        let joined = join_dir(&self.dir, dir);
        let inner_set = KV::set;
        inner_set(&mut self.inner, joined.as_slice(), key, value)
    }

    fn delete(&mut self, dir: &[&[u8]], key: &[u8]) -> (r: Result<(), KV::Error>)
        ensures
            final(self).pin() == old(self).pin(),
            r is Ok && old(self).in_order() ==> {
                &&& forall|other: Seq<Seq<u8>>|
                    valid_path(other) && other != old(self).pin() + path_of(dir@)
                        ==> (#[trigger] (final(self).store().content_of(other))) == old(
                        self,
                    ).store().content_of(other)
                &&& forall|other: Seq<Seq<u8>>|
                    valid_path(other) ==> ((#[trigger] (final(self).store().dir_there(other)))
                        <==> old(self).store().dir_there(other))
            },
            exists|inner: &mut KV, joined: &[&[u8]]|
                *inner == old(self).store() && *final(inner) == final(self).store() && path_of(
                    joined@,
                ) == old(self).pin() + path_of(dir@) && #[trigger] call_ensures(
                    KV::delete,
                    (inner, joined, key),
                    r,
                ),
    {
        proof {
            let pin = self.pin();
            let path = path_of(dir@);
            lemma_joined_valid(pin, path);
            assert forall|other: Seq<Seq<u8>>|
                #![trigger pin + other]
                (valid_path(pin + other) <==> valid_path(pin) && valid_path(other)) && (pin + other
                    == pin + path <==> other == path) by {
                lemma_joined_valid(pin, other);
                law_pin_keeps_apart(pin, other, path);
            }
        }
        let joined = join_dir(&self.dir, dir);
        let inner_delete = KV::delete;
        inner_delete(&mut self.inner, joined.as_slice(), key)
    }

    fn contains_key(&self, dir: &[&[u8]], key: &[u8]) -> (r: Result<bool, KV::Error>)
        ensures
            exists|joined: &[&[u8]]|
                path_of(joined@) == self.pin() + path_of(dir@) && #[trigger] call_ensures(
                    KV::contains_key,
                    (&self.store(), joined, key),
                    r,
                ),
    {
        proof {
            lemma_joined_valid(self.pin(), path_of(dir@));
        }
        let joined = join_dir(&self.dir, dir);
        let inner_contains_key = KV::contains_key;
        inner_contains_key(&self.inner, joined.as_slice(), key)
    }

    fn range(&self, dir: &[&[u8]], start: Bound<&[u8]>, end: Bound<&[u8]>, reverse: bool) -> (r:
        KvStream<KV::Error>)
        ensures
            exists|joined: &[&[u8]]|
                path_of(joined@) == self.pin() + path_of(dir@) && #[trigger] call_ensures(
                    KV::range,
                    (&self.store(), joined, start, end, reverse),
                    r,
                ),
    {
        proof {
            lemma_joined_valid(self.pin(), path_of(dir@));
        }
        let joined = join_dir(&self.dir, dir);
        let inner_range = KV::range;
        inner_range(&self.inner, joined.as_slice(), start, end, reverse)
    }

    fn clear_range(&mut self, dir: &[&[u8]], start: Bound<&[u8]>, end: Bound<&[u8]>) -> (r: Result<
        (),
        KV::Error,
    >)
        ensures
            final(self).pin() == old(self).pin(),
            r is Ok && old(self).in_order() ==> {
                &&& forall|other: Seq<Seq<u8>>|
                    valid_path(other) && other != old(self).pin() + path_of(dir@)
                        ==> (#[trigger] (final(self).store().content_of(other))) == old(
                        self,
                    ).store().content_of(other)
                &&& forall|other: Seq<Seq<u8>>|
                    valid_path(other) ==> ((#[trigger] (final(self).store().dir_there(other)))
                        <==> old(self).store().dir_there(other))
            },
            exists|inner: &mut KV, joined: &[&[u8]]|
                *inner == old(self).store() && *final(inner) == final(self).store() && path_of(
                    joined@,
                ) == old(self).pin() + path_of(dir@) && #[trigger] call_ensures(
                    KV::clear_range,
                    (inner, joined, start, end),
                    r,
                ),
    {
        proof {
            let pin = self.pin();
            let path = path_of(dir@);
            lemma_joined_valid(pin, path);
            assert forall|other: Seq<Seq<u8>>|
                #![trigger pin + other]
                (valid_path(pin + other) <==> valid_path(pin) && valid_path(other)) && (pin + other
                    == pin + path <==> other == path) by {
                lemma_joined_valid(pin, other);
                law_pin_keeps_apart(pin, other, path);
            }
        }
        let joined = join_dir(&self.dir, dir);
        let inner_clear_range = KV::clear_range;
        inner_clear_range(&mut self.inner, joined.as_slice(), start, end)
    }
}

impl<KV: KvDirNav> KvDirNav for ScopedKvStore<KV> {
    open spec fn removable(&self, dir: Seq<Seq<u8>>) -> bool {
        self.store().removable(self.pin() + dir)
    }

    fn list_dirs(&self, dir: &[&[u8]]) -> (r: Result<Vec<Vec<u8>>, KV::Error>)
        ensures
            exists|joined: &[&[u8]]|
                path_of(joined@) == self.pin() + path_of(dir@) && #[trigger] call_ensures(
                    KV::list_dirs,
                    (&self.store(), joined),
                    r,
                ),
    {
        proof {
            let pin = self.pin();
            let path = path_of(dir@);
            lemma_joined_valid(pin, path);
            assert forall|seg: Seq<u8>| #[trigger] (pin + path).push(seg) == pin + path.push(seg) by {
                assert((pin + path).push(seg) =~= pin + path.push(seg));
            }
        }
        let joined = join_dir(&self.dir, dir);
        let inner_list_dirs = KV::list_dirs;
        inner_list_dirs(&self.inner, joined.as_slice())
    }

    fn dir_exists(&self, dir: &[&[u8]]) -> (r: Result<bool, KV::Error>)
        ensures
            exists|joined: &[&[u8]]|
                path_of(joined@) == self.pin() + path_of(dir@) && #[trigger] call_ensures(
                    KV::dir_exists,
                    (&self.store(), joined),
                    r,
                ),
    {
        proof {
            lemma_joined_valid(self.pin(), path_of(dir@));
        }
        let joined = join_dir(&self.dir, dir);
        let inner_dir_exists = KV::dir_exists;
        inner_dir_exists(&self.inner, joined.as_slice())
    }

    fn remove_dir(&mut self, dir: &[&[u8]]) -> (r: Result<bool, KV::Error>)
        ensures
            final(self).pin() == old(self).pin(),
            r is Ok && old(self).in_order() ==> {
                &&& forall|other: Seq<Seq<u8>>|
                    valid_path(other) && !extends(other, old(self).pin() + path_of(dir@))
                        ==> (#[trigger] (final(self).store().content_of(other))) == old(
                        self,
                    ).store().content_of(other)
                &&& forall|other: Seq<Seq<u8>>|
                    valid_path(other) && !extends(other, old(self).pin() + path_of(dir@))
                        ==> ((#[trigger] (final(self).store().dir_there(other))) <==> old(
                        self,
                    ).store().dir_there(other))
            },
            exists|inner: &mut KV, joined: &[&[u8]]|
                *inner == old(self).store() && *final(inner) == final(self).store() && path_of(
                    joined@,
                ) == old(self).pin() + path_of(dir@) && #[trigger] call_ensures(
                    KV::remove_dir,
                    (inner, joined),
                    r,
                ),
    {
        proof {
            let pin = self.pin();
            let path = path_of(dir@);
            lemma_joined_valid(pin, path);
            assert forall|other: Seq<Seq<u8>>|
                #![trigger pin + other]
                (valid_path(pin + other) <==> valid_path(pin) && valid_path(other)) && (extends(
                    pin + other,
                    pin + path,
                ) <==> extends(other, path)) by {
                lemma_joined_valid(pin, other);
                law_pin_keeps_apart(pin, other, path);
            }
        }
        let joined = join_dir(&self.dir, dir);
        let inner_remove_dir = KV::remove_dir;
        inner_remove_dir(&mut self.inner, joined.as_slice())
    }
}

impl<KV: Commit> Commit for ScopedKvStore<KV> {
    type Error = KV::Error;

    type Outcome = KV::Outcome;

    open spec fn ready(&self) -> bool {
        self.store().ready()
    }

    open spec fn ends_with(&self, outcome: KV::Outcome) -> bool {
        self.store().ends_with(outcome)
    }

    open spec fn may_fail(&self) -> bool {
        self.store().may_fail()
    }

    fn commit(self) -> (r: Result<KV::Outcome, KV::Error>)
        ensures
            call_ensures(KV::commit, (self.store(),), r),
    {
        let inner_commit = KV::commit;
        inner_commit(self.inner)
    }
}

} // verus!
