//! Key-value pairs and the consuming continuation that range scans return.

use vstd::prelude::*;

use crate::bytes::copy_bytes;
use crate::text::{decimal, with_number};

verus! {

/// A key-value pair produced by a range scan.
///
/// Keys are always reported in the caller's own key space: a directory scan
/// strips the directory's prefix before handing the pair back.
#[derive(Clone, PartialEq, Eq)]
pub struct KvPair {
    /// The key bytes.
    pub key: Vec<u8>,
    /// The value bytes.
    pub value: Vec<u8>,
}

/// A pair with copies of a key and a value.
pub(crate) fn pair_of(key: &[u8], value: &[u8]) -> (r: KvPair)
    ensures
        r.key@ == key@,
        r.value@ == value@,
{
    KvPair { key: copy_bytes(key), value: copy_bytes(value) }
}

impl KvPair {
    /// A rendering that elides the key and gives the size of the value only.
    pub fn describe(&self) -> (r: String)
        ensures
            r@ == "KvPair { key: <elided>, value: <"@ + decimal(self.value@.len()) + " bytes> }"@,
    {
        with_number("KvPair { key: <elided>, value: <", self.value.len() as u64, " bytes> }")
    }
}

/// A stream of key-value pairs.
///
/// This is a *consuming cons-list*: taking its next item yields either `None`
/// (exhausted), one [`KvPair`] together with the stream carrying the
/// remainder, or the failure that ends the stream. Consuming rather than
/// borrowing means nothing of a backend leaks into the caller's borrow graph.
#[must_use]
pub struct KvStream<E> {
    /// The remaining pairs, the next one last.
    rest: Vec<KvPair>,
    /// What the stream ends with once the pairs are gone.
    failure: Option<E>,
}

/// Something that is shown pairs one by one.
pub trait PairVisitor {
    /// The pairs it was shown, in order.
    spec fn seen(&self) -> Seq<KvPair>;

    /// Shows it one pair.
    fn visit(&mut self, pair: KvPair)
        ensures
            final(self).seen() == old(self).seen().push(pair),
    ;
}

impl PairVisitor for Vec<KvPair> {
    open spec fn seen(&self) -> Seq<KvPair> {
        self@
    }

    fn visit(&mut self, pair: KvPair) {
        self.push(pair);
    }
}

/// What the stream of a head and a tail holds.
pub open spec fn cons<E>(
    head: Result<Option<(KvPair, KvStream<E>)>, E>,
    s: KvStream<E>,
) -> bool {
    match head {
        Ok(Some((pair, tail))) => {
            &&& s.items() == seq![pair] + tail.items()
            &&& s.failure() == tail.failure()
        },
        Ok(None) => s.items().len() == 0 && s.failure() is None,
        Err(e) => s.items().len() == 0 && s.failure() == Some(e),
    }
}

impl<E> KvStream<E> {
    /// The remaining pairs, in order.
    pub closed spec fn items(&self) -> Seq<KvPair> {
        self.rest@.reverse()
    }

    /// The failure that ends the stream, if one does.
    pub closed spec fn failure(&self) -> Option<E> {
        self.failure
    }

    /// Create a new stream from the head pair and the tail.
    pub fn new(head: Result<Option<(KvPair, KvStream<E>)>, E>) -> (r: Self)
        ensures
            cons(head, r),
    {
        match head {
            Ok(Some((pair, tail))) => {
                let KvStream { mut rest, failure } = tail;
                let ghost before = rest@;
                rest.push(pair);
                assert(rest@.reverse() =~= seq![pair] + before.reverse());
                KvStream { rest, failure }
            },
            Ok(None) => KvStream { rest: Vec::new(), failure: None },
            Err(e) => KvStream { rest: Vec::new(), failure: Some(e) },
        }
    }

    /// Create an empty stream (no items).
    pub fn empty() -> (r: Self)
        ensures
            r.items() == Seq::<KvPair>::empty(),
            r.failure() is None,
    {
        let r = KvStream { rest: Vec::new(), failure: None };
        assert(r.items() =~= Seq::<KvPair>::empty());
        r
    }

    /// Create a stream that fails on its first item.
    ///
    /// Useful for backends whose `range` cannot return a `Result` but which can
    /// fail while *setting up* the scan; the failure is deferred into the
    /// stream instead of being swallowed.
    pub fn failed(err: E) -> (r: Self)
        ensures
            r.items() == Seq::<KvPair>::empty(),
            r.failure() == Some(err),
    {
        let r = KvStream { rest: Vec::new(), failure: Some(err) };
        assert(r.items() =~= Seq::<KvPair>::empty());
        r
    }

    /// Create a stream over a list of pairs, front to back, or back to front
    /// when `reverse`.
    pub fn from_pairs(pairs: Vec<KvPair>, reverse: bool) -> (r: Self)
        ensures
            r.items() == if reverse {
                pairs@.reverse()
            } else {
                pairs@
            },
            r.failure() is None,
    {
        let ghost all = pairs@;
        if reverse {
            return KvStream { rest: pairs, failure: None };
        }
        let mut left = pairs;
        let mut rest: Vec<KvPair> = Vec::with_capacity(left.len());
        while left.len() > 0
            invariant
                left@ == all.subrange(0, left@.len() as int),
                left@.len() + rest@.len() == all.len(),
                forall|i: int| 0 <= i < rest@.len() ==> #[trigger] rest@[i] == all[all.len() - 1 - i],
            decreases left@.len(),
        {
            let ghost n = left@.len();
            match left.pop() {
                Some(pair) => {
                    assert(pair == all[n - 1]);
                    assert(left@ =~= all.subrange(0, n - 1));
                    rest.push(pair);
                },
                None => {},
            }
        }
        let r = KvStream { rest, failure: None };
        assert(r.items() =~= all);
        r
    }

    /// Create a stream over a list of pairs, front to back, that ends with a
    /// failure.
    pub fn from_pairs_then(pairs: Vec<KvPair>, err: E) -> (r: Self)
        ensures
            r.items() == pairs@,
            r.failure() == Some(err),
    {
        let s: KvStream<E> = KvStream::from_pairs(pairs, false);
        KvStream { rest: s.rest, failure: Some(err) }
    }

    /// Get the next item in the stream.
    ///
    /// Returns `Ok(Some((pair, next)))` if there is another item, or `Ok(None)`
    /// if the stream is exhausted.
    pub fn next(self) -> (r: Result<Option<(KvPair, KvStream<E>)>, E>)
        ensures
            cons(r, self),
    {
        let ghost before = self.rest@;
        let KvStream { mut rest, failure } = self;
        match rest.pop() {
            Some(pair) => {
                assert(before.reverse() =~= seq![pair] + rest@.reverse());
                Ok(Some((pair, KvStream { rest, failure })))
            },
            None => match failure {
                Some(e) => Err(e),
                None => Ok(None),
            },
        }
    }

    /// Collect all remaining items into a vector.
    pub fn collect(self) -> (r: Result<Vec<KvPair>, E>)
        ensures
            match r {
                Ok(list) => self.failure() is None && list@ == self.items(),
                Err(e) => self.failure() == Some(e),
            },
    {
        let n = self.rest.len();
        let ghost all = self.items();
        match self.failure {
            Some(e) => Err(e),
            None => {
                let mut rest = self.rest;
                let mut list: Vec<KvPair> = Vec::with_capacity(n);
                move_pairs(&mut rest, &mut list, n);
                assert(list@ =~= all);
                Ok(list)
            },
        }
    }

    /// Collect up to `limit` items into a vector.
    ///
    /// Stops as soon as `limit` items have been produced, so a failure behind
    /// them does not show.
    pub fn take(self, limit: usize) -> (r: Result<Vec<KvPair>, E>)
        ensures
            match r {
                Ok(list) => {
                    &&& limit <= self.items().len() || self.failure() is None
                    &&& list@ == if limit <= self.items().len() {
                        self.items().subrange(0, limit as int)
                    } else {
                        self.items()
                    }
                },
                Err(e) => limit > self.items().len() && self.failure() == Some(e),
            },
    {
        let n = self.rest.len();
        let ghost all = self.items();
        let KvStream { mut rest, failure } = self;
        let mut list: Vec<KvPair> = Vec::new();
        if limit <= n {
            move_pairs(&mut rest, &mut list, limit);
            assert(list@ =~= all.subrange(0, limit as int));
            Ok(list)
        } else {
            match failure {
                Some(e) => Err(e),
                None => {
                    move_pairs(&mut rest, &mut list, n);
                    assert(list@ =~= all);
                    Ok(list)
                },
            }
        }
    }

    /// Show each item to a visitor, stopping on the first *stream* error.
    pub fn for_each<V: PairVisitor>(self, visitor: &mut V) -> (r: Result<(), E>)
        ensures
            final(visitor).seen() == old(visitor).seen() + self.items(),
            match r {
                Ok(()) => self.failure() is None,
                Err(e) => self.failure() == Some(e),
            },
    {
        let ghost all = self.items();
        let ghost before = visitor.seen();
        let KvStream { mut rest, failure } = self;
        let ghost whole = rest@;
        while rest.len() > 0
            invariant
                rest@ == whole.subrange(0, rest@.len() as int),
                rest@.len() <= whole.len(),
                all == whole.reverse(),
                visitor.seen() == before + all.subrange(0, all.len() - rest@.len()),
            decreases rest@.len(),
        {
            let ghost n = rest@.len();
            match rest.pop() {
                Some(pair) => {
                    assert(pair == whole[n - 1]);
                    assert(rest@ =~= whole.subrange(0, n - 1));
                    visitor.visit(pair);
                    assert(visitor.seen() =~= before + all.subrange(0, all.len() - rest@.len()));
                },
                None => {},
            }
        }
        assert(all.subrange(0, all.len() as int) =~= all);
        match failure {
            Some(e) => Err(e),
            None => Ok(()),
        }
    }
}

/// Moves the last `n` pairs of one list, last first, to the end of an empty
/// one.
fn move_pairs(from: &mut Vec<KvPair>, to: &mut Vec<KvPair>, n: usize)
    requires
        old(to)@.len() == 0,
        n <= old(from)@.len(),
    ensures
        final(to)@ == old(from)@.reverse().subrange(0, n as int),
{
    let ghost all = from@;
    let mut i: usize = 0;
    while i < n
        invariant
            i <= n <= all.len(),
            from@ == all.subrange(0, all.len() - i),
            to@ == all.reverse().subrange(0, i as int),
        decreases n - i,
    {
        match from.pop() {
            Some(pair) => {
                assert(from@ =~= all.subrange(0, all.len() - i - 1));
                to.push(pair);
                assert(to@ =~= all.reverse().subrange(0, i + 1));
            },
            None => {},
        }
        i = i + 1;
    }
}

} // verus!
