//! The tuple byte encoding the flat directory layout uses for its row keys.
//!
//! The encoding is the subset of the FoundationDB tuple format that the
//! directory layout produces and consumes: integer elements, byte-string
//! elements and string (UTF-8) elements, so that keys built here are
//! byte-identical to the keys the FoundationDB directory layer writes for the
//! same paths. A row whose encoding needs any other element cannot be a valid
//! row of the layout, and the strict decoders here reject it.
//!
//! | Code | Meaning |
//! |------|---------|
//! | `0x00` | terminator of a byte/string payload (after escaping) |
//! | `0x01` | BYTES element |
//! | `0x02` | STRING element |
//! | `0x14` | INT zero; `0x14+len` / `0x14-len` carry positive / negative integers |
//! | `0xff` | escape: inside a byte/string payload, `0x00` is written as `0x00 0xff` |
//!
//! Byte/string payloads carry no length prefix: they end at the first unescaped
//! `0x00`. An element is therefore self-delimiting, which is what makes the row
//! keys decodable one element at a time.

use vstd::prelude::*;
use vstd::utf8::{decode_utf8, encode_utf8};

use crate::bytes::{
    copy_bytes, copy_tail, lemma_lt_asymmetric, lemma_lt_common_prefix, lemma_lt_irreflexive,
    lemma_lt_total, lemma_starts_with_concat, lt, parts_at, starts_with, string_from_utf8, tail,
};

verus! {

/// Code for a BYTES element.
pub const CODE_BYTES: u8 = 0x01;

/// Code for a STRING element.
pub const CODE_STRING: u8 = 0x02;

/// Code for the integer `0`; `0x14 ± len` carries other integers.
pub const CODE_INT_ZERO: u8 = 0x14;

/// Escape byte: inside a payload, `0x00 0xff` stands for one `0x00`.
pub const ESCAPE: u8 = 0xff;

// ---------------------------------------------------------------------------
// Big-endian numbers
// ---------------------------------------------------------------------------

/// The number of values that `n` bytes can hold.
pub open spec fn pow256(n: nat) -> nat
    decreases n,
{
    if n == 0 {
        1
    } else {
        256 * pow256((n - 1) as nat)
    }
}

/// The low `n` bytes of `v`, most significant first.
pub open spec fn be(v: nat, n: nat) -> Seq<u8>
    decreases n,
{
    if n == 0 {
        Seq::empty()
    } else {
        be(v / 256, (n - 1) as nat).push((v % 256) as u8)
    }
}

/// The number that a big-endian byte string stands for.
pub open spec fn be_value(s: Seq<u8>) -> nat
    decreases s.len(),
{
    if s.len() == 0 {
        0
    } else {
        be_value(s.drop_last()) * 256 + s.last() as nat
    }
}

/// The least number of bytes that holds `v`.
pub open spec fn byte_len(v: nat) -> nat
    decreases v,
{
    if v == 0 {
        0
    } else {
        1 + byte_len(v / 256)
    }
}

/// The powers of 256 within machine range, in figures.
pub proof fn lemma_pow256_values()
    ensures
        pow256(0) == 1,
        pow256(1) == 0x100,
        pow256(2) == 0x1_0000,
        pow256(3) == 0x100_0000,
        pow256(4) == 0x1_0000_0000,
        pow256(5) == 0x100_0000_0000,
        pow256(6) == 0x1_0000_0000_0000,
        pow256(7) == 0x100_0000_0000_0000,
        pow256(8) == 0x1_0000_0000_0000_0000,
{
    reveal_with_fuel(pow256, 9);
}

proof fn lemma_be_len(v: nat, n: nat)
    ensures
        be(v, n).len() == n,
    decreases n,
{
    if n > 0 {
        lemma_be_len(v / 256, (n - 1) as nat);
    }
}

proof fn lemma_be_value_bound(s: Seq<u8>)
    ensures
        be_value(s) < pow256(s.len()),
    decreases s.len(),
{
    if s.len() > 0 {
        lemma_be_value_bound(s.drop_last());
    }
}

/// Writing a number that fits and reading it back gives the number.
pub proof fn lemma_be_round_trip(v: nat, n: nat)
    requires
        v < pow256(n),
    ensures
        be(v, n).len() == n,
        be_value(be(v, n)) == v,
    decreases n,
{
    lemma_be_len(v, n);
    if n > 0 {
        assert(v / 256 < pow256((n - 1) as nat));
        lemma_be_round_trip(v / 256, (n - 1) as nat);
        assert(be(v, n).drop_last() =~= be(v / 256, (n - 1) as nat));
    }
}

/// Reading a byte string and writing the number back gives the byte string.
pub proof fn lemma_be_value_round_trip(s: Seq<u8>)
    ensures
        be(be_value(s), s.len()) == s,
    decreases s.len(),
{
    if s.len() > 0 {
        let v = be_value(s);
        let h = be_value(s.drop_last());
        assert(v == h * 256 + s.last() as nat);
        assert(v / 256 == h && v % 256 == s.last() as nat);
        lemma_be_value_round_trip(s.drop_last());
        assert(be(v, s.len()) =~= s.drop_last().push(s.last()));
        assert(s.drop_last().push(s.last()) =~= s);
    } else {
        assert(be(be_value(s), s.len()) =~= s);
    }
}

/// On byte strings of one length the numeric order is the lexicographic one.
pub proof fn lemma_be_value_order(a: Seq<u8>, b: Seq<u8>)
    requires
        a.len() == b.len(),
        be_value(a) < be_value(b),
    ensures
        lt(a, b),
    decreases a.len(),
{
    let x = a.drop_last();
    let y = b.drop_last();
    assert(be_value(a) == be_value(x) * 256 + a.last() as nat);
    assert(be_value(b) == be_value(y) * 256 + b.last() as nat);
    if be_value(x) < be_value(y) {
        lemma_be_value_order(x, y);
        let i = choose|i: int| parts_at(x, y, i);
        assert forall|j: int| 0 <= j < i implies a[j] == b[j] by {
            assert(x[j] == y[j]);
        }
        assert(x[i] == a[i] && y[i] == b[i]);
        assert(parts_at(a, b, i));
    } else {
        lemma_be_value_round_trip(x);
        lemma_be_value_round_trip(y);
        assert(x == y);
        assert forall|j: int| 0 <= j < a.len() - 1 implies a[j] == b[j] by {
            assert(x[j] == y[j]);
        }
        assert(parts_at(a, b, a.len() - 1));
    }
}

proof fn lemma_byte_len(v: nat)
    ensures
        v < pow256(byte_len(v)),
        v > 0 ==> byte_len(v) >= 1 && v >= pow256((byte_len(v) - 1) as nat),
    decreases v,
{
    if v > 0 {
        lemma_byte_len(v / 256);
    }
}

proof fn lemma_pow256_monotone(m: nat, n: nat)
    requires
        m <= n,
    ensures
        1 <= pow256(m) <= pow256(n),
    decreases n,
{
    if m < n {
        lemma_pow256_monotone(m, (n - 1) as nat);
    } else if m > 0 {
        lemma_pow256_monotone((m - 1) as nat, (m - 1) as nat);
    }
}

proof fn lemma_byte_len_monotone(v: nat, w: nat)
    requires
        v <= w,
    ensures
        byte_len(v) <= byte_len(w),
{
    lemma_byte_len(v);
    lemma_byte_len(w);
    if byte_len(w) < byte_len(v) {
        lemma_pow256_monotone(byte_len(w), (byte_len(v) - 1) as nat);
    }
}

/// A machine number takes at most eight bytes.
proof fn lemma_byte_len_machine(v: nat)
    requires
        v < 0x1_0000_0000_0000_0000,
    ensures
        byte_len(v) <= 8,
{
    lemma_pow256_values();
    lemma_byte_len(v);
    if byte_len(v) > 8 {
        lemma_pow256_monotone(8, (byte_len(v) - 1) as nat);
    }
}

/// Appends the low `n` bytes of `v`, most significant first.
fn push_be(out: &mut Vec<u8>, v: u64, n: usize)
    ensures
        final(out)@ == old(out)@ + be(v as nat, n as nat),
    decreases n,
{
    if n == 0 {
        assert(out@ =~= old(out)@ + be(v as nat, 0));
    } else {
        push_be(out, v / 256, n - 1);
        out.push((v % 256) as u8);
        assert(out@ =~= old(out)@ + be(v as nat, n as nat));
    }
}

/// The least number of bytes that holds `v`.
fn minimal_len(v: u64) -> (n: usize)
    ensures
        n == byte_len(v as nat),
        n <= 8,
{
    proof {
        lemma_byte_len_machine(v as nat);
    }
    let mut rest: u64 = v;
    let mut n: usize = 0;
    while rest > 0
        invariant
            n + byte_len(rest as nat) == byte_len(v as nat),
            byte_len(v as nat) <= 8,
        decreases rest,
    {
        rest = rest / 256;
        n = n + 1;
    }
    n
}

/// The largest number that `n` bytes hold.
fn max_of_len(n: usize) -> (m: u64)
    requires
        n <= 8,
    ensures
        m == pow256(n as nat) - 1,
{
    let mut m: u64 = 0;
    let mut i: usize = 0;
    proof {
        lemma_pow256_values();
    }
    while i < n
        invariant
            i <= n <= 8,
            m == pow256(i as nat) - 1,
        decreases n - i,
    {
        proof {
            lemma_pow256_values();
            lemma_pow256_monotone((i + 1) as nat, 8);
        }
        m = m * 256 + 255;
        i = i + 1;
    }
    m
}

/// The number that at most eight big-endian bytes stand for.
fn read_be(s: &[u8], from: usize) -> (v: u64)
    requires
        from <= s@.len() <= from + 8,
    ensures
        v == be_value(tail(s@, from as nat)),
{
    let ghost t = tail(s@, from as nat);
    let mut v: u64 = 0;
    let mut i: usize = from;
    while i < s.len()
        invariant
            from <= i <= s@.len() <= from + 8,
            t == tail(s@, from as nat),
            v == be_value(t.subrange(0, i - from)),
        decreases s.len() - i,
    {
        proof {
            lemma_be_value_bound(t.subrange(0, i - from));
            lemma_pow256_values();
            lemma_pow256_monotone((i - from + 1) as nat, 8);
            assert(t.subrange(0, i - from + 1).drop_last() =~= t.subrange(0, i - from));
        }
        v = v * 256 + s[i] as u64;
        i = i + 1;
    }
    assert(t.subrange(0, i - from) =~= t);
    v
}

// ---------------------------------------------------------------------------
// Integer elements
// ---------------------------------------------------------------------------

/// The element of an integer: zero is the bare code; a positive `v` is its
/// shortest big-endian form behind `0x14 + len`; a negative `v` is the
/// complement of its magnitude, in as many bytes, behind `0x14 - len`.
pub open spec fn int_element(v: int) -> Seq<u8> {
    if v == 0 {
        seq![CODE_INT_ZERO]
    } else if v > 0 {
        let n = byte_len(v as nat);
        seq![(CODE_INT_ZERO + n) as u8] + be(v as nat, n)
    } else {
        let n = byte_len((-v) as nat);
        seq![(CODE_INT_ZERO - n) as u8] + be((pow256(n) - 1 + v) as nat, n)
    }
}

/// The integer that `s` is the element of. Elements longer than need be stand
/// for the same integer; an integer outside of `i64` has none.
pub open spec fn int_of_element(s: Seq<u8>) -> Option<int> {
    if s.len() == 0 {
        None
    } else if s[0] == CODE_INT_ZERO {
        if s.len() == 1 {
            Some(0)
        } else {
            None
        }
    } else if CODE_INT_ZERO < s[0] <= CODE_INT_ZERO + 8 && s.len() == 1 + s[0] - CODE_INT_ZERO {
        let v = be_value(tail(s, 1)) as int;
        if v <= i64::MAX {
            Some(v)
        } else {
            None
        }
    } else if CODE_INT_ZERO - 8 <= s[0] < CODE_INT_ZERO && s.len() == 1 + CODE_INT_ZERO - s[0] {
        let v = be_value(tail(s, 1)) - pow256((s.len() - 1) as nat) + 1;
        if v >= i64::MIN {
            Some(v)
        } else {
            None
        }
    } else {
        None
    }
}

/// Whether `v` is within the machine range of an `i64`.
pub open spec fn is_i64(v: int) -> bool {
    i64::MIN <= v <= i64::MAX
}

/// The magnitude of a machine integer takes between one and eight bytes.
proof fn lemma_magnitude_len(v: int)
    requires
        is_i64(v),
        v != 0,
    ensures
        v > 0 ==> 1 <= byte_len(v as nat) <= 8 && v < pow256(byte_len(v as nat)),
        v < 0 ==> 1 <= byte_len((-v) as nat) <= 8 && 0 <= pow256(byte_len((-v) as nat)) - 1 + v
            < pow256(byte_len((-v) as nat)),
{
    let m: nat = if v > 0 {
        v as nat
    } else {
        (-v) as nat
    };
    lemma_byte_len_machine(m);
    lemma_byte_len(m);
}

/// The bytes behind the code of an integer's element.
pub proof fn lemma_integer_len(v: int)
    requires
        is_i64(v),
        v != 0,
    ensures
        v > 0 ==> 1 <= byte_len(v as nat) <= 8 && v < pow256(byte_len(v as nat)) && be(
            v as nat,
            byte_len(v as nat),
        ).len() == byte_len(v as nat),
        v < 0 ==> 1 <= byte_len((-v) as nat) <= 8 && -v < pow256(byte_len((-v) as nat)) && be(
            (pow256(byte_len((-v) as nat)) - 1 + v) as nat,
            byte_len((-v) as nat),
        ).len() == byte_len((-v) as nat),
{
    lemma_magnitude_len(v);
    if v > 0 {
        lemma_be_len(v as nat, byte_len(v as nat));
    } else {
        let n = byte_len((-v) as nat);
        lemma_be_len((pow256(n) - 1 + v) as nat, n);
    }
}

/// Every integer element has one to nine bytes, begins with `0x0c..=0x1c`, and
/// its first byte gives its length.
pub proof fn lemma_int_element_shape(v: int)
    requires
        is_i64(v),
    ensures
        1 <= int_element(v).len() <= 9,
        0x0c <= int_element(v)[0] <= 0x1c,
        int_element(v)[0] >= CODE_INT_ZERO ==> int_element(v).len() == 1 + int_element(v)[0]
            - CODE_INT_ZERO,
        int_element(v)[0] < CODE_INT_ZERO ==> int_element(v).len() == 1 + CODE_INT_ZERO
            - int_element(v)[0],
{
    if v > 0 {
        lemma_magnitude_len(v);
        lemma_be_len(v as nat, byte_len(v as nat));
    } else if v < 0 {
        lemma_magnitude_len(v);
        let n = byte_len((-v) as nat);
        lemma_be_len((pow256(n) - 1 + v) as nat, n);
    }
}

/// A decoded integer is one of machine range.
pub proof fn lemma_element_range(s: Seq<u8>)
    requires
        int_of_element(s) is Some,
    ensures
        is_i64(int_of_element(s)->0),
{
    lemma_be_value_bound(tail(s, 1));
}

/// Decoding an encoded integer gives the integer back.
pub proof fn law_integer_round_trip(v: int)
    requires
        is_i64(v),
    ensures
        int_of_element(int_element(v)) == Some(v),
{
    lemma_int_element_shape(v);
    let e = int_element(v);
    if v > 0 {
        lemma_magnitude_len(v);
        let n = byte_len(v as nat);
        lemma_be_round_trip(v as nat, n);
        assert(tail(e, 1) =~= be(v as nat, n));
    } else if v < 0 {
        lemma_magnitude_len(v);
        let n = byte_len((-v) as nat);
        lemma_be_round_trip((pow256(n) - 1 + v) as nat, n);
        assert(tail(e, 1) =~= be((pow256(n) - 1 + v) as nat, n));
    }
}

/// Integer elements sort as the integers do.
pub proof fn law_integer_order(v: int, w: int)
    requires
        is_i64(v),
        is_i64(w),
        v < w,
    ensures
        lt(int_element(v), int_element(w)),
{
    let a = int_element(v);
    let b = int_element(w);
    lemma_int_element_shape(v);
    lemma_int_element_shape(w);
    if v > 0 {
        lemma_magnitude_len(v);
        lemma_magnitude_len(w);
        lemma_byte_len_monotone(v as nat, w as nat);
        let n = byte_len(v as nat);
        if n == byte_len(w as nat) {
            lemma_be_round_trip(v as nat, n);
            lemma_be_round_trip(w as nat, n);
            lemma_be_value_order(be(v as nat, n), be(w as nat, n));
            lemma_lt_common_prefix(seq![(CODE_INT_ZERO + n) as u8], be(v as nat, n), be(w as nat, n));
        } else {
            assert(parts_at(a, b, 0));
        }
    } else if w < 0 {
        lemma_magnitude_len(v);
        lemma_magnitude_len(w);
        lemma_byte_len_monotone((-w) as nat, (-v) as nat);
        let n = byte_len((-v) as nat);
        if n == byte_len((-w) as nat) {
            let x = (pow256(n) - 1 + v) as nat;
            let y = (pow256(n) - 1 + w) as nat;
            lemma_be_round_trip(x, n);
            lemma_be_round_trip(y, n);
            lemma_be_value_order(be(x, n), be(y, n));
            lemma_lt_common_prefix(seq![(CODE_INT_ZERO - n) as u8], be(x, n), be(y, n));
        } else {
            assert(parts_at(a, b, 0));
        }
    } else {
        if v < 0 {
            lemma_magnitude_len(v);
        }
        if w > 0 {
            lemma_magnitude_len(w);
        }
        assert(parts_at(a, b, 0));
    }
}

/// No integer element begins another one: elements are prefix-free, and in
/// particular different integers have different elements.
pub proof fn law_integers_prefix_free(v: int, w: int)
    requires
        is_i64(v),
        is_i64(w),
        starts_with(int_element(v), int_element(w)),
    ensures
        v == w,
{
    let a = int_element(v);
    let b = int_element(w);
    lemma_int_element_shape(v);
    lemma_int_element_shape(w);
    assert(a.subrange(0, b.len() as int)[0] == a[0]);
    assert(a.len() == b.len());
    assert(a =~= a.subrange(0, b.len() as int));
    law_integer_round_trip(v);
    law_integer_round_trip(w);
}

/// Pack an `i64` as a top-level tuple element.
///
/// Every `i64` packs to 1..=9 bytes and the first byte alone determines the
/// length, so no packed `i64` is a byte-prefix of another.
pub fn pack_i64(value: i64) -> (r: Vec<u8>)
    ensures
        r@ == int_element(value as int),
{
    let mut out: Vec<u8> = Vec::with_capacity(9);
    if value == 0 {
        out.push(CODE_INT_ZERO);
        assert(out@ =~= int_element(0));
        return out;
    }
    proof {
        lemma_magnitude_len(value as int);
    }
    if value > 0 {
        let n = minimal_len(value as u64);
        out.push(CODE_INT_ZERO + n as u8);
        push_be(&mut out, value as u64, n);
        assert(out@ =~= int_element(value as int));
    } else {
        let magnitude: u64 = (-(value + 1)) as u64 + 1;
        let n = minimal_len(magnitude);
        out.push(CODE_INT_ZERO - n as u8);
        push_be(&mut out, max_of_len(n) - magnitude, n);
        assert(out@ =~= int_element(value as int));
    }
    out
}

/// Decode a top-level integer element that fills `bytes` exactly.
///
/// `None` when the bytes are not a well-formed single integer element (bad
/// code byte, truncated payload, or trailing bytes after it).
pub fn unpack_i64_full(bytes: &[u8]) -> (r: Option<i64>)
    ensures
        match r {
            Some(v) => int_of_element(bytes@) == Some(v as int),
            None => int_of_element(bytes@) is None,
        },
{
    if bytes.len() == 0 {
        return None;
    }
    let code = bytes[0];
    let len: usize = bytes.len() - 1;
    if code == CODE_INT_ZERO {
        return if len == 0 {
            Some(0)
        } else {
            None
        };
    }
    if code > CODE_INT_ZERO {
        let n: usize = (code - CODE_INT_ZERO) as usize;
        if n > 8 || len != n {
            return None;
        }
        let v = read_be(bytes, 1);
        if v <= i64::MAX as u64 {
            Some(v as i64)
        } else {
            None
        }
    } else {
        let n: usize = (CODE_INT_ZERO - code) as usize;
        if n > 8 || len != n {
            return None;
        }
        let v = read_be(bytes, 1);
        proof {
            lemma_be_value_bound(tail(bytes@, 1));
        }
        let magnitude: u64 = max_of_len(n) - v;
        if magnitude <= i64::MAX as u64 {
            Some(-(magnitude as i64))
        } else if magnitude == i64::MAX as u64 + 1 {
            Some(i64::MIN)
        } else {
            None
        }
    }
}

// ---------------------------------------------------------------------------
// Byte-string and string elements
// ---------------------------------------------------------------------------

/// How one payload byte is written: a zero is followed by the escape byte.
pub open spec fn escape_byte(b: u8) -> Seq<u8> {
    if b == 0 {
        seq![0u8, ESCAPE]
    } else {
        seq![b]
    }
}

/// A payload with every zero byte escaped.
pub open spec fn escape(p: Seq<u8>) -> Seq<u8>
    decreases p.len(),
{
    if p.len() == 0 {
        Seq::empty()
    } else {
        escape_byte(p[0]) + escape(tail(p, 1))
    }
}

/// An escaped payload and its terminator.
pub open spec fn terminated(p: Seq<u8>) -> Seq<u8> {
    escape(p).push(0)
}

/// The element of a payload under a code byte.
pub open spec fn element(code: u8, p: Seq<u8>) -> Seq<u8> {
    seq![code] + terminated(p)
}

/// The BYTES element of a payload.
pub open spec fn bytes_element(p: Seq<u8>) -> Seq<u8> {
    element(CODE_BYTES, p)
}

/// The STRING element of a text.
pub open spec fn string_element(s: Seq<char>) -> Seq<u8> {
    element(CODE_STRING, encode_utf8(s))
}

/// The payload that `s` begins with: what stands, unescaped, before the first
/// zero byte that no escape byte follows. `None` where there is no such byte.
pub open spec fn payload(s: Seq<u8>) -> Option<Seq<u8>>
    decreases s.len(),
{
    if s.len() == 0 {
        None
    } else if s[0] != 0 {
        match payload(tail(s, 1)) {
            Some(p) => Some(seq![s[0]] + p),
            None => None,
        }
    } else if s.len() > 1 && s[1] == ESCAPE {
        match payload(tail(s, 2)) {
            Some(p) => Some(seq![0u8] + p),
            None => None,
        }
    } else {
        Some(Seq::empty())
    }
}

/// Whether `code` opens a byte-string or string element.
pub open spec fn is_text_code(code: u8) -> bool {
    code == CODE_BYTES || code == CODE_STRING
}

/// The payload of the element that `key` begins with.
pub open spec fn leading_payload(key: Seq<u8>) -> Option<Seq<u8>> {
    if key.len() > 0 && is_text_code(key[0]) {
        payload(tail(key, 1))
    } else {
        None
    }
}

/// `t` may stand behind a terminator without turning it into an escaped zero.
pub open spec fn not_escape(t: Seq<u8>) -> bool {
    t.len() > 0 ==> t[0] != ESCAPE
}

/// Escaping works byte by byte, so it splits over concatenation.
pub proof fn lemma_escape_concat(p: Seq<u8>, q: Seq<u8>)
    ensures
        escape(p + q) == escape(p) + escape(q),
    decreases p.len(),
{
    if p.len() == 0 {
        assert(p + q =~= q);
        assert(escape(p) + escape(q) =~= escape(q));
    } else {
        lemma_escape_concat(tail(p, 1), q);
        assert(tail(p + q, 1) =~= tail(p, 1) + q);
        assert(escape(p + q) =~= escape(p) + escape(q));
    }
}

proof fn lemma_escape_push(p: Seq<u8>, b: u8)
    ensures
        escape(p.push(b)) == escape(p) + escape_byte(b),
{
    lemma_escape_concat(p, seq![b]);
    assert(p.push(b) =~= p + seq![b]);
    assert(tail(seq![b], 1) =~= Seq::<u8>::empty());
    assert(escape(tail(seq![b], 1)) =~= Seq::<u8>::empty());
    assert(escape(seq![b]) =~= escape_byte(b));
}

/// Escaping never shortens.
proof fn lemma_escape_len(p: Seq<u8>)
    ensures
        p.len() <= escape(p).len() <= 2 * p.len(),
    decreases p.len(),
{
    if p.len() > 0 {
        lemma_escape_len(tail(p, 1));
    }
}

/// Reading a terminated payload gives the payload back, whatever follows it.
pub proof fn lemma_payload_of_terminated(p: Seq<u8>, t: Seq<u8>)
    requires
        not_escape(t),
    ensures
        payload(terminated(p) + t) == Some(p),
    decreases p.len(),
{
    let s = terminated(p) + t;
    if p.len() == 0 {
        assert(escape(p) =~= Seq::<u8>::empty());
        assert(s[0] == 0);
        assert(s.len() > 1 ==> s[1] == t[0]);
        assert(p =~= Seq::<u8>::empty());
    } else {
        let q = tail(p, 1);
        lemma_payload_of_terminated(q, t);
        if p[0] == 0 {
            assert(s[0] == 0 && s[1] == ESCAPE);
            assert(tail(s, 2) =~= terminated(q) + t);
            assert(seq![0u8] + q =~= p);
        } else {
            assert(s[0] == p[0]);
            assert(tail(s, 1) =~= terminated(q) + t);
            assert(seq![p[0]] + q =~= p);
        }
    }
}

/// A byte string that has a leading payload begins with it, terminated.
pub proof fn lemma_payload_sound(s: Seq<u8>)
    requires
        payload(s) is Some,
    ensures
        starts_with(s, terminated(payload(s)->0)),
        not_escape(tail(s, terminated(payload(s)->0).len())),
    decreases s.len(),
{
    let p = payload(s)->0;
    if s[0] != 0 {
        lemma_payload_sound(tail(s, 1));
        let q = payload(tail(s, 1))->0;
        assert(p == seq![s[0]] + q);
        assert(tail(p, 1) =~= q);
        assert(terminated(p) =~= seq![s[0]] + terminated(q));
        assert(tail(s, 1).subrange(0, terminated(q).len() as int) =~= s.subrange(
            1,
            1 + terminated(q).len() as int,
        ));
        assert(s.subrange(0, terminated(p).len() as int) =~= seq![s[0]] + s.subrange(
            1,
            1 + terminated(q).len() as int,
        ));
        assert(tail(s, terminated(p).len()) =~= tail(tail(s, 1), terminated(q).len()));
    } else if s.len() > 1 && s[1] == ESCAPE {
        lemma_payload_sound(tail(s, 2));
        let q = payload(tail(s, 2))->0;
        assert(p == seq![0u8] + q);
        assert(tail(p, 1) =~= q);
        assert(terminated(p) =~= seq![0u8, ESCAPE] + terminated(q));
        assert(tail(s, 2).subrange(0, terminated(q).len() as int) =~= s.subrange(
            2,
            2 + terminated(q).len() as int,
        ));
        assert(s.subrange(0, terminated(p).len() as int) =~= seq![0u8, ESCAPE] + s.subrange(
            2,
            2 + terminated(q).len() as int,
        ));
        assert(tail(s, terminated(p).len()) =~= tail(tail(s, 2), terminated(q).len()));
    } else {
        assert(escape(p) =~= Seq::<u8>::empty());
        assert(s.subrange(0, 1) =~= terminated(p));
    }
}

/// Different payloads have different escaped forms.
pub proof fn lemma_escape_injective(p: Seq<u8>, q: Seq<u8>)
    requires
        escape(p) == escape(q),
    ensures
        p == q,
{
    lemma_payload_of_terminated(p, Seq::empty());
    lemma_payload_of_terminated(q, Seq::empty());
    assert(terminated(p) + Seq::<u8>::empty() =~= terminated(p));
    assert(terminated(q) + Seq::<u8>::empty() =~= terminated(q));
}

/// Different payloads have different elements.
pub proof fn law_element_injective(code: u8, p: Seq<u8>, q: Seq<u8>)
    requires
        element(code, p) == element(code, q),
    ensures
        p == q,
{
    assert(tail(element(code, p), 1) =~= terminated(p));
    assert(tail(element(code, q), 1) =~= terminated(q));
    assert(terminated(p).drop_last() =~= escape(p));
    assert(terminated(q).drop_last() =~= escape(q));
    lemma_escape_injective(p, q);
}

/// Reading an element gives its payload back, whatever follows it.
pub proof fn law_element_round_trip(code: u8, p: Seq<u8>, t: Seq<u8>)
    requires
        is_text_code(code),
        not_escape(t),
    ensures
        leading_payload(element(code, p) + t) == Some(p),
{
    lemma_payload_of_terminated(p, t);
    assert(tail(element(code, p) + t, 1) =~= terminated(p) + t);
}

/// A key with a leading payload begins with that payload's element.
pub proof fn lemma_leading_payload_sound(key: Seq<u8>)
    requires
        leading_payload(key) is Some,
    ensures
        starts_with(key, element(key[0], leading_payload(key)->0)),
        not_escape(tail(key, element(key[0], leading_payload(key)->0).len())),
{
    let p = leading_payload(key)->0;
    let rest = tail(key, 1);
    lemma_payload_sound(rest);
    let t = terminated(p);
    assert(key.subrange(0, element(key[0], p).len() as int) =~= seq![key[0]] + rest.subrange(
        0,
        t.len() as int,
    ));
    assert(tail(key, element(key[0], p).len()) =~= tail(rest, t.len()));
}

/// Terminated payloads sort as the payloads do.
pub proof fn lemma_terminated_order(p: Seq<u8>, q: Seq<u8>)
    requires
        lt(p, q),
    ensures
        lt(terminated(p), terminated(q)),
    decreases p.len(),
{
    let i = choose|i: int| parts_at(p, q, i);
    let s = terminated(p);
    let t = terminated(q);
    if p.len() == 0 {
        assert(escape(p) =~= Seq::<u8>::empty());
        lemma_escape_len(tail(q, 1));
        if q[0] == 0 {
            assert(parts_at(s, t, 1));
        } else {
            assert(parts_at(s, t, 0));
        }
    } else if p[0] != q[0] {
        assert(i == 0);
        assert(s[0] == p[0]);
        assert(t[0] == q[0]);
        assert(parts_at(s, t, 0));
    } else {
        let x = tail(p, 1);
        let y = tail(q, 1);
        assert(i > 0);
        assert(parts_at(x, y, i - 1)) by {
            assert forall|j: int| 0 <= j < i - 1 implies x[j] == y[j] by {
                assert(p[j + 1] == q[j + 1]);
            }
        }
        lemma_terminated_order(x, y);
        lemma_lt_common_prefix(escape_byte(p[0]), terminated(x), terminated(y));
        assert(s =~= escape_byte(p[0]) + terminated(x));
        assert(t =~= escape_byte(q[0]) + terminated(y));
    }
}

/// Elements under one code sort as their payloads do.
pub proof fn law_element_order(code: u8, p: Seq<u8>, q: Seq<u8>)
    ensures
        lt(element(code, p), element(code, q)) <==> lt(p, q),
{
    lemma_lt_total(p, q);
    lemma_lt_common_prefix(seq![code], terminated(p), terminated(q));
    if lt(p, q) {
        lemma_terminated_order(p, q);
    } else if lt(q, p) {
        lemma_terminated_order(q, p);
        lemma_lt_asymmetric(terminated(q), terminated(p));
    } else {
        lemma_lt_irreflexive(terminated(p));
    }
}

/// Pack a byte string as a top-level BYTES element.
///
/// `0x01`, the payload with every `0x00` written as `0x00 0xff`, and a
/// terminating `0x00`. No length prefix.
pub fn pack_bytes(payload: &[u8]) -> (r: Vec<u8>)
    ensures
        r@ == bytes_element(payload@),
{
    pack_element(CODE_BYTES, payload)
}

/// Pack a payload as an element under `code`.
fn pack_element(code: u8, payload: &[u8]) -> (r: Vec<u8>)
    ensures
        r@ == element(code, payload@),
{
    let mut out: Vec<u8> = Vec::new();
    out.push(code);
    let mut i: usize = 0;
    assert(payload@.subrange(0, 0) =~= Seq::<u8>::empty());
    assert(out@ =~= seq![code] + escape(payload@.subrange(0, 0)));
    while i < payload.len()
        invariant
            i <= payload.len(),
            out@ == seq![code] + escape(payload@.subrange(0, i as int)),
        decreases payload.len() - i,
    {
        let b = payload[i];
        proof {
            lemma_escape_push(payload@.subrange(0, i as int), b);
            assert(payload@.subrange(0, i + 1) =~= payload@.subrange(0, i as int).push(b));
        }
        out.push(b);
        if b == 0 {
            out.push(ESCAPE);
        }
        i = i + 1;
        assert(out@ =~= seq![code] + escape(payload@.subrange(0, i as int)));
    }
    assert(payload@.subrange(0, i as int) =~= payload@);
    out.push(0x00);
    assert(out@ =~= element(code, payload@));
    out
}

/// Pack a string as a top-level STRING element (UTF-8 bytes with the same
/// escaping as [`pack_bytes`]).
pub fn pack_string(payload: &str) -> (r: Vec<u8>)
    ensures
        r@ == string_element(payload@),
{
    pack_element(CODE_STRING, payload.as_bytes())
}

/// Walks the payload that `bytes` holds from `from` on, up to and past its
/// terminator: the unescaped payload and the position behind the terminator.
/// `None` when the payload runs off the end without a terminator.
fn read_payload(bytes: &[u8], from: usize) -> (r: Option<(Vec<u8>, usize)>)
    requires
        from <= bytes@.len(),
    ensures
        match r {
            Some((p, end)) => {
                &&& payload(tail(bytes@, from as nat)) == Some(p@)
                &&& end == from + terminated(p@).len()
                &&& end <= bytes@.len()
            },
            None => payload(tail(bytes@, from as nat)) is None,
        },
{
    let mut out: Vec<u8> = Vec::new();
    let mut i: usize = from;
    let ghost whole = payload(tail(bytes@, from as nat));
    proof {
        let rest = payload(tail(bytes@, i as nat));
        if rest is Some {
            assert(out@ + rest->0 =~= rest->0);
        }
        assert(escape(out@) =~= Seq::<u8>::empty());
    }
    while i < bytes.len()
        invariant
            from <= i <= bytes@.len(),
            whole == payload(tail(bytes@, from as nat)),
            i == from + escape(out@).len(),
            match payload(tail(bytes@, i as nat)) {
                Some(p) => whole == Some(out@ + p),
                None => whole is None,
            },
        decreases bytes.len() - i,
    {
        let b = bytes[i];
        let ghost before = out@;
        let ghost at = tail(bytes@, i as nat);
        assert(at[0] == b);
        if b == 0 {
            if i + 1 < bytes.len() && bytes[i + 1] == ESCAPE {
                proof {
                    assert(at[1] == ESCAPE);
                    assert(tail(at, 2) =~= tail(bytes@, (i + 2) as nat));
                    lemma_escape_push(before, 0);
                    if payload(tail(at, 2)) is Some {
                        let p = payload(tail(at, 2))->0;
                        assert(before + (seq![0u8] + p) =~= before.push(0) + p);
                    }
                }
                out.push(0);
                i = i + 2;
            } else {
                proof {
                    assert(at.len() > 1 ==> at[1] == bytes@[i + 1]);
                    assert(before + Seq::<u8>::empty() =~= before);
                }
                return Some((out, i + 1));
            }
        } else {
            proof {
                assert(tail(at, 1) =~= tail(bytes@, (i + 1) as nat));
                lemma_escape_push(before, b);
                if payload(tail(at, 1)) is Some {
                    let p = payload(tail(at, 1))->0;
                    assert(before + (seq![b] + p) =~= before.push(b) + p);
                }
            }
            out.push(b);
            i = i + 1;
        }
    }
    None
}

/// Unescape a payload (the element bytes without the terminator). `None` when
/// `escaped` is not the escaped form of any payload.
pub fn unescape_payload(escaped: &[u8]) -> (r: Option<Vec<u8>>)
    ensures
        match r {
            Some(p) => escaped@ == escape(p@),
            None => forall|q: Seq<u8>| escaped@ != #[trigger] escape(q),
        },
{
    let mut closed = copy_bytes(escaped);
    closed.push(0x00);
    let read = read_payload(closed.as_slice(), 0);
    proof {
        assert(tail(closed@, 0) =~= closed@);
        assert forall|p: Seq<u8>| escaped@ == #[trigger] escape(p) implies payload(closed@) == Some(
            p,
        ) by {
            lemma_payload_of_terminated(p, Seq::empty());
            assert(terminated(p) + Seq::<u8>::empty() =~= closed@);
        }
    }
    match read {
        Some((p, end)) => {
            if end == closed.len() {
                proof {
                    lemma_payload_sound(closed@);
                    assert(closed@ =~= closed@.subrange(0, terminated(p@).len() as int));
                    assert(closed@.drop_last() =~= escaped@);
                    assert(terminated(p@).drop_last() =~= escape(p@));
                }
                Some(p)
            } else {
                None
            }
        },
        None => None,
    }
}

/// Decode a top-level BYTES or STRING element that fills `bytes` exactly,
/// returning the unescaped payload.
///
/// `None` on a bad code byte, an unterminated payload, or trailing bytes after
/// the terminator.
pub fn unpack_element_full(bytes: &[u8]) -> (r: Option<Vec<u8>>)
    ensures
        match r {
            Some(p) => is_text_code(bytes@[0]) && bytes@ == element(bytes@[0], p@),
            None => forall|code: u8, q: Seq<u8>|
                is_text_code(code) ==> bytes@ != #[trigger] element(code, q),
        },
{
    proof {
        assert forall|code: u8, p: Seq<u8>|
            is_text_code(code) && bytes@ == #[trigger] element(code, p) implies leading_payload(
            bytes@,
        ) == Some(p) && bytes@[0] == code by {
            law_element_round_trip(code, p, Seq::empty());
            assert(element(code, p) + Seq::<u8>::empty() =~= bytes@);
        }
    }
    if bytes.len() == 0 {
        return None;
    }
    if bytes[0] != CODE_BYTES && bytes[0] != CODE_STRING {
        return None;
    }
    match read_payload(bytes, 1) {
        Some((p, end)) => {
            if end == bytes.len() {
                proof {
                    lemma_leading_payload_sound(bytes@);
                    assert(bytes@ =~= bytes@.subrange(0, element(bytes@[0], p@).len() as int));
                }
                Some(p)
            } else {
                None
            }
        },
        None => None,
    }
}

/// Decode the leading BYTES or STRING element of `key` (up to its terminator)
/// and return the unescaped payload; the bytes after the terminator are
/// ignored. `None` on a bad code byte or an unterminated payload.
pub fn first_element_payload(key: &[u8]) -> (r: Option<Vec<u8>>)
    ensures
        match r {
            Some(p) => leading_payload(key@) == Some(p@),
            None => leading_payload(key@) is None,
        },
{
    if key.len() == 0 {
        return None;
    }
    if key[0] != CODE_BYTES && key[0] != CODE_STRING {
        return None;
    }
    match read_payload(key, 1) {
        Some((p, _)) => Some(p),
        None => None,
    }
}

/// Decode a top-level STRING element that fills `bytes` exactly, as UTF-8.
pub fn unpack_string_full(bytes: &[u8]) -> (r: Option<String>)
    ensures
        match r {
            Some(s) => bytes@ == string_element(s@),
            None => forall|t: Seq<char>| bytes@ != #[trigger] string_element(t),
        },
{
    broadcast use vstd::utf8::encode_utf8_valid_utf8;

    proof {
        assert forall|s: Seq<char>| bytes@ == #[trigger] string_element(s) implies bytes@.len() > 0
            && bytes@[0] == CODE_STRING by {}
    }
    if bytes.len() == 0 {
        return None;
    }
    if bytes[0] != CODE_STRING {
        return None;
    }
    match unpack_element_full(bytes) {
        Some(p) => {
            proof {
                assert forall|s: Seq<char>| bytes@ == #[trigger] string_element(s) implies p@
                    == encode_utf8(s) by {
                    law_element_injective(CODE_STRING, p@, encode_utf8(s));
                }
            }
            string_from_utf8(p.as_slice())
        },
        None => {
            proof {
                assert forall|s: Seq<char>| bytes@ != #[trigger] string_element(s) by {
                    assert(string_element(s) == element(CODE_STRING, encode_utf8(s)));
                }
            }
            None
        },
    }
}

/// The tuple `(0, name)` that a child-row key carries behind its node.
pub open spec fn child_tuple(name: Seq<char>) -> Seq<u8> {
    int_element(0) + string_element(name)
}

/// Decode the child-row key trailing a node subspace: the tuple `(0, name)`
/// filling `bytes` exactly.
///
/// Returns the segment name. `None` when the first element is not the integer
/// `0` or the second is not a well-formed string element.
pub fn unpack_child_name(bytes: &[u8]) -> (r: Option<String>)
    ensures
        match r {
            Some(s) => bytes@ == child_tuple(s@),
            None => forall|t: Seq<char>| bytes@ != #[trigger] child_tuple(t),
        },
{
    proof {
        assert forall|s: Seq<char>| bytes@ == #[trigger] child_tuple(s) implies bytes@.len() > 0
            && bytes@[0] == CODE_INT_ZERO && tail(bytes@, 1) == string_element(s) by {
            lemma_starts_with_concat(int_element(0), string_element(s));
        }
    }
    if bytes.len() == 0 {
        return None;
    }
    if bytes[0] != CODE_INT_ZERO {
        return None;
    }
    let rest = copy_tail(bytes, 1);
    assert(bytes@ =~= int_element(0) + tail(bytes@, 1));
    unpack_string_full(rest.as_slice())
}

/// Decode the first element of a key and return its payload as it stands in
/// the key, still escaped, without requiring the rest to be well-formed.
///
/// The element must be BYTES or STRING; a key starting with any other element
/// has no leading byte string and gives `None`.
pub fn first_bytes_element(key: &[u8]) -> (r: Option<&[u8]>)
    ensures
        match r {
            Some(s) => leading_payload(key@) is Some && s@ == escape(leading_payload(key@)->0),
            None => leading_payload(key@) is None,
        },
{
    if key.len() == 0 {
        return None;
    }
    if key[0] != CODE_BYTES && key[0] != CODE_STRING {
        return None;
    }
    match read_payload(key, 1) {
        Some((p, end)) => {
            proof {
                lemma_leading_payload_sound(key@);
                let e = element(key@[0], p@);
                assert(key@.subrange(0, e.len() as int).subrange(1, end - 1) =~= key@.subrange(
                    1,
                    end - 1,
                ));
                assert(e.subrange(1, end - 1) =~= escape(p@));
            }
            Some(&key[1..end - 1])
        },
        None => None,
    }
}

/// Different texts have different STRING elements.
pub proof fn law_string_injective(s: Seq<char>, t: Seq<char>)
    requires
        string_element(s) == string_element(t),
    ensures
        s == t,
{
    broadcast use vstd::utf8::encode_utf8_decode_utf8;

    law_element_injective(CODE_STRING, encode_utf8(s), encode_utf8(t));
    assert(decode_utf8(encode_utf8(s)) == decode_utf8(encode_utf8(t)));
}

} // verus!
