//! Byte strings and their lexicographic order.
//!
//! Every store in this crate keeps its rows ordered by the lexicographic order
//! of their keys. This module states that order, proves that it is a strict
//! total order compatible with common prefixes, and decides it on slices.

use vstd::prelude::*;
use vstd::utf8::{encode_utf8, valid_utf8};

verus! {

/// The two byte strings agree below `i`, and at `i` the first one has ended or
/// holds the smaller byte.
pub open spec fn parts_at(a: Seq<u8>, b: Seq<u8>, i: int) -> bool {
    &&& 0 <= i <= a.len()
    &&& i < b.len()
    &&& forall|j: int| 0 <= j < i ==> a[j] == b[j]
    &&& i < a.len() ==> a[i] < b[i]
}

/// Whether `a` sorts strictly before `b`.
pub open spec fn lt(a: Seq<u8>, b: Seq<u8>) -> bool {
    exists|i: int| parts_at(a, b, i)
}

/// Whether `a` sorts before `b` or is `b`.
pub open spec fn le(a: Seq<u8>, b: Seq<u8>) -> bool {
    a == b || lt(a, b)
}

/// Whether `s` begins with `p`.
pub open spec fn starts_with(s: Seq<u8>, p: Seq<u8>) -> bool {
    p.len() <= s.len() && s.subrange(0, p.len() as int) == p
}

/// What is left of `s` behind its first `n` bytes.
pub open spec fn tail(s: Seq<u8>, n: nat) -> Seq<u8> {
    s.subrange(n as int, s.len() as int)
}

/// No byte string sorts before itself.
pub proof fn lemma_lt_irreflexive(a: Seq<u8>)
    ensures
        !lt(a, a),
{
}

/// The order is transitive.
pub proof fn lemma_lt_transitive(a: Seq<u8>, b: Seq<u8>, c: Seq<u8>)
    requires
        lt(a, b),
        lt(b, c),
    ensures
        lt(a, c),
{
    let i = choose|i: int| parts_at(a, b, i);
    let j = choose|j: int| parts_at(b, c, j);
    let k = if i < j {
        i
    } else {
        j
    };
    assert(parts_at(a, c, k));
}

/// Two byte strings that agree below `n` are ordered or equal.
proof fn lemma_lt_total_from(a: Seq<u8>, b: Seq<u8>, n: int)
    requires
        0 <= n <= a.len(),
        n <= b.len(),
        forall|j: int| 0 <= j < n ==> a[j] == b[j],
    ensures
        lt(a, b) || a == b || lt(b, a),
    decreases a.len() - n,
{
    if n == a.len() && n == b.len() {
        assert(a =~= b);
    } else if n == a.len() {
        assert(parts_at(a, b, n));
    } else if n == b.len() {
        assert(parts_at(b, a, n));
    } else if a[n] < b[n] {
        assert(parts_at(a, b, n));
    } else if b[n] < a[n] {
        assert(parts_at(b, a, n));
    } else {
        lemma_lt_total_from(a, b, n + 1);
    }
}

/// The order is total: of two different byte strings one sorts before the other.
pub proof fn lemma_lt_total(a: Seq<u8>, b: Seq<u8>)
    ensures
        lt(a, b) || a == b || lt(b, a),
{
    lemma_lt_total_from(a, b, 0);
}

/// Of two byte strings at most one sorts before the other.
pub proof fn lemma_lt_asymmetric(a: Seq<u8>, b: Seq<u8>)
    requires
        lt(a, b),
    ensures
        !lt(b, a),
        a != b,
{
    if lt(b, a) {
        lemma_lt_transitive(a, b, a);
    }
}

/// All facts of the order on three byte strings at once.
pub proof fn lemma_order(a: Seq<u8>, b: Seq<u8>, c: Seq<u8>)
    ensures
        !lt(a, a),
        lt(a, b) || a == b || lt(b, a),
        lt(a, b) ==> !lt(b, a),
        lt(a, b) && lt(b, c) ==> lt(a, c),
        le(a, b) && lt(b, c) ==> lt(a, c),
        lt(a, b) && le(b, c) ==> lt(a, c),
        le(a, b) && le(b, c) ==> le(a, c),
{
    lemma_lt_total(a, b);
    if lt(a, b) {
        lemma_lt_asymmetric(a, b);
    }
    if lt(a, b) && lt(b, c) {
        lemma_lt_transitive(a, b, c);
    }
}

/// A common prefix does not matter to the order.
pub proof fn lemma_lt_common_prefix(p: Seq<u8>, a: Seq<u8>, b: Seq<u8>)
    ensures
        lt(p + a, p + b) <==> lt(a, b),
{
    let n = p.len() as int;
    if lt(a, b) {
        let i = choose|i: int| parts_at(a, b, i);
        assert(parts_at(p + a, p + b, n + i)) by {
            assert forall|j: int| 0 <= j < n + i implies (p + a)[j] == (p + b)[j] by {
                if j >= n {
                    assert(a[j - n] == b[j - n]);
                }
            }
        }
    }
    if lt(p + a, p + b) {
        let i = choose|i: int| parts_at(p + a, p + b, i);
        if i < n {
            assert((p + a)[i] == p[i]);
            assert((p + b)[i] == p[i]);
        }
        assert(parts_at(a, b, i - n)) by {
            assert forall|j: int| 0 <= j < i - n implies a[j] == b[j] by {
                assert((p + a)[n + j] == (p + b)[n + j]);
            }
            assert(i - n < a.len() ==> (p + a)[i] == a[i - n]);
            assert((p + b)[i] == b[i - n]);
        }
    }
}

/// A byte string sorts at or after each of its prefixes.
pub proof fn lemma_prefix_le(p: Seq<u8>, s: Seq<u8>)
    requires
        starts_with(s, p),
    ensures
        le(p, s),
{
    if p.len() == s.len() {
        assert(s =~= p);
    } else {
        assert forall|j: int| 0 <= j < p.len() implies p[j] == s[j] by {
            assert(s.subrange(0, p.len() as int)[j] == s[j]);
        }
        assert(parts_at(p, s, p.len() as int));
    }
}

/// `a` with a zero byte behind it is the very next byte string after `a`.
pub proof fn lemma_lt_push_zero(a: Seq<u8>, k: Seq<u8>)
    ensures
        lt(a, k) <==> le(a.push(0), k),
        lt(a, a.push(0)),
{
    let s = a.push(0);
    assert(parts_at(a, s, a.len() as int));
    if le(s, k) {
        if s != k {
            lemma_lt_transitive(a, s, k);
        }
    }
    if lt(a, k) {
        let i = choose|i: int| parts_at(a, k, i);
        if i < a.len() {
            assert(parts_at(s, k, i));
        } else if k[i] > 0 {
            assert(parts_at(s, k, i));
        } else if k.len() == s.len() {
            assert(s =~= k);
        } else {
            assert(parts_at(s, k, i + 1));
        }
    }
}

/// A byte string that begins with `p` is `p` followed by its tail.
pub proof fn lemma_starts_with_split(s: Seq<u8>, p: Seq<u8>)
    requires
        starts_with(s, p),
    ensures
        s == p + tail(s, p.len()),
{
    assert(s =~= s.subrange(0, p.len() as int) + tail(s, p.len()));
}

/// `p` followed by anything begins with `p`, and its tail is what followed.
pub proof fn lemma_starts_with_concat(p: Seq<u8>, t: Seq<u8>)
    ensures
        starts_with(p + t, p),
        tail(p + t, p.len()) == t,
{
    assert((p + t).subrange(0, p.len() as int) =~= p);
    assert(tail(p + t, p.len()) =~= t);
}

/// What begins with `p + t` begins with `p`, and its tail behind `p` begins with `t`.
pub proof fn lemma_starts_with_nested(s: Seq<u8>, p: Seq<u8>, t: Seq<u8>)
    ensures
        starts_with(s, p + t) <==> starts_with(s, p) && starts_with(tail(s, p.len()), t),
{
    if starts_with(s, p + t) {
        assert(s.subrange(0, p.len() as int) =~= (p + t).subrange(0, p.len() as int));
        assert((p + t).subrange(0, p.len() as int) =~= p);
        assert(tail(s, p.len()).subrange(0, t.len() as int) =~= tail(p + t, p.len())) by {
            assert forall|j: int| 0 <= j < t.len() implies tail(s, p.len())[j] == (p + t)[p.len()
                + j] by {
                assert(s.subrange(0, (p + t).len() as int)[p.len() + j] == s[p.len() + j]);
            }
        }
        assert(tail(p + t, p.len()) =~= t);
    }
    if starts_with(s, p) && starts_with(tail(s, p.len()), t) {
        assert(s.subrange(0, (p + t).len() as int) =~= p + t) by {
            assert forall|j: int| 0 <= j < p.len() + t.len() implies s[j] == (p + t)[j] by {
                if j < p.len() {
                    assert(s.subrange(0, p.len() as int)[j] == s[j]);
                } else {
                    assert(tail(s, p.len()).subrange(0, t.len() as int)[j - p.len()] == s[j]);
                }
            }
        }
    }
}

/// Two prefixes of one byte string: the shorter one begins the longer one.
pub proof fn lemma_prefixes_nest(s: Seq<u8>, p: Seq<u8>, q: Seq<u8>)
    requires
        starts_with(s, p),
        starts_with(s, q),
        p.len() <= q.len(),
    ensures
        starts_with(q, p),
{
    assert(q.subrange(0, p.len() as int) =~= s.subrange(0, p.len() as int)) by {
        assert(q =~= s.subrange(0, q.len() as int));
    }
}

/// Decides whether `a` sorts strictly before `b`.
pub fn bytes_lt(a: &[u8], b: &[u8]) -> (r: bool)
    ensures
        r == lt(a@, b@),
{
    let mut i: usize = 0;
    while i < a.len() && i < b.len()
        invariant
            i <= a.len(),
            i <= b.len(),
            forall|j: int| 0 <= j < i ==> a@[j] == b@[j],
        decreases a.len() - i,
    {
        if a[i] < b[i] {
            assert(parts_at(a@, b@, i as int));
            return true;
        }
        if b[i] < a[i] {
            proof {
                assert(parts_at(b@, a@, i as int));
                lemma_lt_asymmetric(b@, a@);
            }
            return false;
        }
        i = i + 1;
    }
    if i < b.len() {
        assert(parts_at(a@, b@, i as int));
        true
    } else {
        proof {
            if i < a.len() {
                assert(parts_at(b@, a@, i as int));
                lemma_lt_asymmetric(b@, a@);
            } else {
                assert(a@ =~= b@);
                lemma_lt_irreflexive(a@);
            }
        }
        false
    }
}

/// Decides whether two slices hold the same bytes.
pub fn bytes_eq(a: &[u8], b: &[u8]) -> (r: bool)
    ensures
        r == (a@ == b@),
{
    if a.len() != b.len() {
        return false;
    }
    let mut i: usize = 0;
    while i < a.len()
        invariant
            i <= a.len(),
            a.len() == b.len(),
            forall|j: int| 0 <= j < i ==> a@[j] == b@[j],
        decreases a.len() - i,
    {
        if a[i] != b[i] {
            return false;
        }
        i = i + 1;
    }
    assert(a@ =~= b@);
    true
}

/// Decides whether `s` begins with `p`.
pub fn has_prefix(s: &[u8], p: &[u8]) -> (r: bool)
    ensures
        r == starts_with(s@, p@),
{
    if s.len() < p.len() {
        return false;
    }
    let mut i: usize = 0;
    while i < p.len()
        invariant
            i <= p.len(),
            p.len() <= s.len(),
            forall|j: int| 0 <= j < i ==> s@[j] == p@[j],
        decreases p.len() - i,
    {
        if s[i] != p[i] {
            assert(s@.subrange(0, p@.len() as int)[i as int] == s@[i as int]);
            return false;
        }
        i = i + 1;
    }
    assert(s@.subrange(0, p@.len() as int) =~= p@);
    true
}

/// An owned copy of a slice.
pub fn copy_bytes(s: &[u8]) -> (v: Vec<u8>)
    ensures
        v@ == s@,
{
    let mut v: Vec<u8> = Vec::new();
    v.extend_from_slice(s);
    assert(v@ =~= s@);
    v
}

/// The bytes of `a` followed by the bytes of `b`.
pub fn concat_bytes(a: &[u8], b: &[u8]) -> (v: Vec<u8>)
    ensures
        v@ == a@ + b@,
{
    let mut v = copy_bytes(a);
    v.extend_from_slice(b);
    assert(v@ =~= a@ + b@);
    v
}

/// An owned copy of the bytes of `s` behind its first `n`.
pub fn copy_tail(s: &[u8], n: usize) -> (v: Vec<u8>)
    requires
        n <= s@.len(),
    ensures
        v@ == tail(s@, n as nat),
{
    let mut v: Vec<u8> = Vec::new();
    let mut i: usize = n;
    while i < s.len()
        invariant
            n <= i <= s.len(),
            v@ == s@.subrange(n as int, i as int),
        decreases s.len() - i,
    {
        v.push(s[i]);
        i = i + 1;
        assert(v@ =~= s@.subrange(n as int, i as int));
    }
    v
}

/// `core::str::from_utf8`, as an owned string: it succeeds exactly on valid
/// UTF-8, and the string's UTF-8 encoding is the input.
#[verifier::external_body]
pub(crate) fn string_from_utf8(bytes: &[u8]) -> (r: Option<String>)
    ensures
        match r {
            Some(s) => encode_utf8(s@) == bytes@,
            None => !valid_utf8(bytes@),
        },
{
    core::str::from_utf8(bytes).ok().map(str::to_owned)
}

} // verus!
