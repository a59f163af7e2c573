//! The tuple encoding, row keys and versions.

use core::ops::Bound;

use vstd::prelude::*;
use vstd::utf8::{encode_utf8, encode_utf8_decode_utf8};

use crate::bytes::{lemma_lt_asymmetric, lemma_lt_irreflexive, lt, starts_with, tail};
use crate::call_laws::order::law_prefix;
use crate::flatdir::layout::{
    child_key, children_key_range, counter_key, data_region, inside, layer_key, le_value,
    lemma_layout_constants, node_key_range, node_subspace, parse_version, recent_key, COUNTERS_BASE,
    HCA_SUBSPACE, LAYER_TAG, NODE_PREFIX, RECENT_BASE, ROOT_NODE, ROOT_PATH_SEGMENT, VERSION_KEY,
};
use crate::flatdir::tuple::{
    be, be_value, byte_len, bytes_element, child_tuple, element, escape, escape_byte,
    first_bytes_element, first_element_payload, int_element, law_element_injective,
    law_element_order, law_element_round_trip, law_integer_order, law_integer_round_trip,
    law_integers_prefix_free, law_string_injective, lemma_escape_concat, lemma_int_element_shape,
    pack_bytes, pack_i64, pack_string, pow256, string_element, terminated, unescape_payload,
    unpack_child_name, unpack_element_full, unpack_i64_full, unpack_string_full, CODE_BYTES,
    CODE_STRING,
};
use crate::keyspace::{in_range, owned_bound_of};

verus! {

// ---------------------------------------------------------------------------
// Integers
// ---------------------------------------------------------------------------

/// A packed integer unpacks to itself, takes as many bytes as its first byte says, and
/// that byte lies between `0x0c` and `0x1c`.
pub proof fn law_pack_round_trip(v: i64, packed: Vec<u8>, bytes: &[u8], r: Option<i64>)
    requires
        call_ensures(pack_i64, (v,), packed),
        bytes@ == packed@,
        call_ensures(unpack_i64_full, (bytes,), r),
    ensures
        r == Some(v),
        1 <= packed@.len() <= 9,
        v >= 0 ==> packed@[0] == 0x14 + (packed@.len() - 1),
        v <= 0 ==> packed@[0] == 0x14 - (packed@.len() - 1),
{
    law_integer_round_trip(v as int);
    lemma_int_element_shape(v as int);
    if v > 0 {
        assert(packed@[0] != 0x14 || packed@.len() == 1);
        lemma_positive(v as int);
    }
    if v < 0 {
        lemma_negative(v as int);
    }
}

/// Packed integers sort as the integers do, and none of them begins another one.
pub proof fn law_pack_order(a: i64, b: i64, x: Vec<u8>, y: Vec<u8>)
    requires
        call_ensures(pack_i64, (a,), x),
        call_ensures(pack_i64, (b,), y),
    ensures
        lt(x@, y@) <==> a < b,
        (exists|t: Seq<u8>| x@ == #[trigger] (y@ + t)) <==> a == b,
{
    if a < b {
        law_integer_order(a as int, b as int);
    } else if b < a {
        law_integer_order(b as int, a as int);
        lemma_lt_asymmetric(y@, x@);
    } else {
        lemma_lt_irreflexive(x@);
    }
    law_prefix(x@, y@);
    if starts_with(x@, y@) {
        law_integers_prefix_free(a as int, b as int);
    }
    if a == b {
        assert(x@ == y@ + Seq::<u8>::empty()) by {
            assert(y@ + Seq::<u8>::empty() =~= y@);
        }
    }
}

/// How integers are written: zero is one byte; one more digit to the base 256 is one
/// more byte at the end and one more in the first byte; a negative integer is written
/// in the complements of the bytes of its magnitude.
pub proof fn law_pack_digits(
    v: i64,
    digit: u8,
    w: i64,
    n: i64,
    zero: Vec<u8>,
    x: Vec<u8>,
    y: Vec<u8>,
    z: Vec<u8>,
)
    requires
        call_ensures(pack_i64, (0i64,), zero),
        call_ensures(pack_i64, (v,), x),
        call_ensures(pack_i64, (w,), y),
        call_ensures(pack_i64, (n,), z),
        v >= 0,
        w > 0,
        w == 256 * v + digit,
        n == -w,
    ensures
        zero@ == seq![0x14u8],
        y@ == seq![(x@[0] + 1) as u8] + x@.subrange(1, x@.len() as int) + seq![digit],
        z@.len() == y@.len(),
        z@[0] + y@[0] == 0x28,
        forall|i: int| 1 <= i < z@.len() ==> #[trigger] z@[i] + y@[i] == 0xFF,
{
    lemma_positive(w as int);
    lemma_negative(n as int);
    lemma_int_element_shape(v as int);
    assert((w as nat) / 256 == v as nat && (w as nat) % 256 == digit as nat);
    assert(byte_len(w as nat) == 1 + byte_len(v as nat));
    if v > 0 {
        lemma_positive(v as int);
        assert(x@.subrange(1, x@.len() as int) =~= be(v as nat, byte_len(v as nat)));
    } else {
        assert(byte_len(0) == 0);
        assert(be(0, 0) =~= Seq::<u8>::empty());
        assert(x@.subrange(1, 1) =~= Seq::<u8>::empty());
    }
    assert(y@ =~= seq![(x@[0] + 1) as u8] + x@.subrange(1, x@.len() as int) + seq![digit]);
    let len = byte_len(w as nat);
    lemma_complement(w as nat, len);
    assert forall|i: int| 1 <= i < z@.len() implies #[trigger] z@[i] + y@[i] == 0xFF by {
        let a = be((pow256(len) - 1 - w) as nat, len);
        let b = be(w as nat, len);
        assert(z@[i] == a[i - 1]);
        assert(y@[i] == b[i - 1]);
    }
}

/// The element of a positive integer.
proof fn lemma_positive(v: int)
    requires
        0 < v <= i64::MAX,
    ensures
        1 <= byte_len(v as nat) <= 8,
        v < pow256(byte_len(v as nat)),
        be(v as nat, byte_len(v as nat)).len() == byte_len(v as nat),
        int_element(v) == seq![(0x14 + byte_len(v as nat)) as u8] + be(
            v as nat,
            byte_len(v as nat),
        ),
        int_element(v)[0] == 0x14 + byte_len(v as nat),
{
    crate::flatdir::tuple::lemma_integer_len(v);
}

/// The element of a negative integer.
proof fn lemma_negative(v: int)
    requires
        i64::MIN <= v < 0,
    ensures
        1 <= byte_len((-v) as nat) <= 8,
        -v < pow256(byte_len((-v) as nat)),
        be((pow256(byte_len((-v) as nat)) - 1 + v) as nat, byte_len((-v) as nat)).len()
            == byte_len((-v) as nat),
        int_element(v) == seq![(0x14 - byte_len((-v) as nat)) as u8] + be(
            (pow256(byte_len((-v) as nat)) - 1 + v) as nat,
            byte_len((-v) as nat),
        ),
        int_element(v)[0] == 0x14 - byte_len((-v) as nat),
{
    crate::flatdir::tuple::lemma_integer_len(v);
}

/// The digits of the complement are the complements of the digits.
proof fn lemma_complement(v: nat, n: nat)
    requires
        v < pow256(n),
    ensures
        be((pow256(n) - 1 - v) as nat, n).len() == n,
        be(v, n).len() == n,
        forall|i: int|
            0 <= i < n ==> #[trigger] be((pow256(n) - 1 - v) as nat, n)[i] + be(v, n)[i] == 0xFF,
    decreases n,
{
    if n > 0 {
        let less = (n - 1) as nat;
        let c = (pow256(n) - 1 - v) as nat;
        let h = v / 256;
        let d = v % 256;
        assert(pow256(n) == 256 * pow256(less));
        assert(h < pow256(less));
        lemma_complement(h, less);
        assert(c == 256 * (pow256(less) - 1 - h) + (255 - d));
        assert(c / 256 == (pow256(less) - 1 - h) as nat && c % 256 == (255 - d) as nat);
        assert forall|i: int| 0 <= i < n implies #[trigger] be(c, n)[i] + be(v, n)[i] == 0xFF by {
            if i < less {
                assert(be(c, n)[i] == be((pow256(less) - 1 - h) as nat, less)[i]);
                assert(be(v, n)[i] == be(h, less)[i]);
            }
        }
    }
}

/// How bytes are read as an integer: the first byte gives the length and nothing may
/// follow; one more byte behind is one more digit to the base 256.
pub proof fn law_unpack_digits(
    bytes: &[u8],
    r: Option<i64>,
    longer: &[u8],
    s: Option<i64>,
    digit: u8,
)
    requires
        call_ensures(unpack_i64_full, (bytes,), r),
        call_ensures(unpack_i64_full, (longer,), s),
        bytes@.len() > 0 && bytes@[0] < 0xFF ==> longer@ == seq![(bytes@[0] + 1) as u8]
            + bytes@.subrange(1, bytes@.len() as int) + seq![digit],
    ensures
        r is Some ==> bytes@.len() > 0 && 0x0c <= bytes@[0] <= 0x1c,
        r is Some && bytes@[0] >= 0x14 ==> bytes@.len() == 1 + (bytes@[0] - 0x14),
        r is Some && bytes@[0] <= 0x14 ==> bytes@.len() == 1 + (0x14 - bytes@[0]),
        bytes@ == seq![0x14u8] ==> r == Some(0i64),
        (r matches Some(v) && bytes@[0] >= 0x14 && bytes@[0] < 0x1c && 256 * v + digit <= i64::MAX)
            ==> s == Some((256 * (r->0) + digit) as i64),
{
    if bytes@ == seq![0x14u8] {
        assert(bytes@.len() == 1 && bytes@[0] == 0x14);
    }
    if r is Some && bytes@[0] >= 0x14 && bytes@[0] < 0x1c {
        let a = tail(bytes@, 1);
        let b = tail(longer@, 1);
        assert(b =~= a.push(digit));
        assert(b.drop_last() =~= a);
        assert(be_value(b) == be_value(a) * 256 + digit);
        if bytes@[0] == 0x14 {
            assert(a =~= Seq::<u8>::empty());
        }
    }
}

// ---------------------------------------------------------------------------
// Byte strings and texts
// ---------------------------------------------------------------------------

/// A packed byte string unpacks to itself, and whatever stands behind it is not taken
/// for a part of it.
pub proof fn law_bytes_round_trip(
    p: &[u8],
    packed: Vec<u8>,
    bytes: &[u8],
    whole: Option<Vec<u8>>,
    rest: Seq<u8>,
    longer: &[u8],
    first: Option<Vec<u8>>,
)
    requires
        call_ensures(pack_bytes, (p,), packed),
        bytes@ == packed@,
        call_ensures(unpack_element_full, (bytes,), whole),
        longer@ == packed@ + rest,
        rest.len() > 0 ==> rest[0] != 0xFF,
        call_ensures(first_element_payload, (longer,), first),
    ensures
        whole matches Some(q) && q@ == p@,
        first matches Some(q) && q@ == p@,
{
    law_element_round_trip(CODE_BYTES, p@, rest);
    if whole is None {
        assert(bytes@ == element(CODE_BYTES, p@));
    } else {
        assert(bytes@[0] == CODE_BYTES);
        law_element_injective(CODE_BYTES, p@, (whole->0)@);
    }
}

/// How byte strings are written: a code, the bytes with every zero escaped, and a zero.
/// Texts are written as their bytes, under another code.
pub proof fn law_bytes_written(
    p: &[u8],
    q: &[u8],
    b: u8,
    x: Vec<u8>,
    y: Vec<u8>,
    text: &str,
    z: Vec<u8>,
)
    requires
        call_ensures(pack_bytes, (p,), x),
        call_ensures(pack_bytes, (q,), y),
        call_ensures(pack_string, (text,), z),
        q@ == p@.push(b),
    ensures
        p@.len() == 0 ==> x@ == seq![0x01u8, 0x00u8],
        y@ == x@.drop_last() + (if b == 0 {
            seq![0x00u8, 0xFFu8, 0x00u8]
        } else {
            seq![b, 0x00u8]
        }),
        p@ == encode_utf8(text@) ==> z@ == seq![0x02u8] + x@.subrange(1, x@.len() as int),
{
    if p@.len() == 0 {
        assert(escape(p@) =~= Seq::<u8>::empty());
        assert(x@ =~= seq![0x01u8, 0x00u8]);
    }
    lemma_escape_concat(p@, seq![b]);
    assert(p@ + seq![b] =~= q@);
    assert(tail(seq![b], 1) =~= Seq::<u8>::empty());
    assert(escape(Seq::<u8>::empty()) =~= Seq::<u8>::empty());
    assert(escape(seq![b]) =~= escape_byte(b));
    assert(y@ =~= x@.drop_last() + (if b == 0 {
        seq![0x00u8, 0xFFu8, 0x00u8]
    } else {
        seq![b, 0x00u8]
    }));
    if p@ == encode_utf8(text@) {
        assert(z@ =~= seq![0x02u8] + x@.subrange(1, x@.len() as int));
    }
}

/// What unpacks as a byte string is what packing it gives, but for the code.
pub proof fn law_unpack_exact(
    bytes: &[u8],
    r: Option<Vec<u8>>,
    p: &[u8],
    packed: Vec<u8>,
)
    requires
        call_ensures(unpack_element_full, (bytes,), r),
        r matches Some(q) ==> p@ == q@,
        call_ensures(pack_bytes, (p,), packed),
    ensures
        r is Some ==> (bytes@[0] == 0x01 || bytes@[0] == 0x02) && bytes@.subrange(
            1,
            bytes@.len() as int,
        ) == packed@.subrange(1, packed@.len() as int),
{
    if r is Some {
        assert(bytes@.subrange(1, bytes@.len() as int) =~= terminated(p@));
        assert(packed@.subrange(1, packed@.len() as int) =~= terminated(p@));
    }
}

/// Packed byte strings sort as the byte strings do.
pub proof fn law_bytes_order(p: &[u8], q: &[u8], x: Vec<u8>, y: Vec<u8>)
    requires
        call_ensures(pack_bytes, (p,), x),
        call_ensures(pack_bytes, (q,), y),
    ensures
        lt(x@, y@) <==> lt(p@, q@),
        x@ == y@ <==> p@ == q@,
{
    law_element_order(CODE_BYTES, p@, q@);
    if x@ == y@ {
        law_element_injective(CODE_BYTES, p@, q@);
    }
}

/// A packed text unpacks to itself, and so does a name in a child row.
pub proof fn law_text_round_trip(
    text: &str,
    packed: Vec<u8>,
    bytes: &[u8],
    whole: Option<String>,
    zero: Vec<u8>,
    tuple: &[u8],
    name: Option<String>,
)
    requires
        call_ensures(pack_string, (text,), packed),
        bytes@ == packed@,
        call_ensures(unpack_string_full, (bytes,), whole),
        call_ensures(pack_i64, (0i64,), zero),
        tuple@ == zero@ + packed@,
        call_ensures(unpack_child_name, (tuple,), name),
    ensures
        whole matches Some(s) && s@ == text@,
        name matches Some(s) && s@ == text@,
{
    if whole is Some {
        law_string_injective((whole->0)@, text@);
    }
    if name is Some {
        let s = (name->0)@;
        assert(child_tuple(s) == child_tuple(text@));
        assert(tail(child_tuple(s), 1) =~= string_element(s));
        assert(tail(child_tuple(text@), 1) =~= string_element(text@));
        law_string_injective(s, text@);
    } else {
        assert(tuple@ == child_tuple(text@));
    }
}

/// What unpacks as a text, or as a name, is what packing it gives.
pub proof fn law_unpack_text_exact(
    bytes: &[u8],
    r: Option<String>,
    text: &str,
    packed: Vec<u8>,
    name: Option<String>,
    other: &str,
    renamed: Vec<u8>,
)
    requires
        call_ensures(unpack_string_full, (bytes,), r),
        r matches Some(s) ==> s@ == text@,
        call_ensures(pack_string, (text,), packed),
        call_ensures(unpack_child_name, (bytes,), name),
        name matches Some(s) ==> s@ == other@,
        call_ensures(pack_string, (other,), renamed),
    ensures
        r is Some ==> bytes@ == packed@,
        name is Some ==> bytes@ == seq![0x14u8] + renamed@,
{
}

/// Escaping is undone, and what is no escaped byte string is refused.
pub proof fn law_unescape(p: &[u8], packed: Vec<u8>, inner: &[u8], r: Option<Vec<u8>>)
    requires
        call_ensures(pack_bytes, (p,), packed),
        inner@ == packed@.subrange(1, packed@.len() - 1),
        call_ensures(unescape_payload, (inner,), r),
    ensures
        r matches Some(q) && q@ == p@,
{
    assert(inner@ =~= escape(p@));
    if r is Some {
        crate::flatdir::tuple::lemma_escape_injective((r->0)@, p@);
    }
}

/// The first element of a key, as it stands there and unescaped, is the same one.
pub proof fn law_first_element(
    key: &[u8],
    raw: Option<&[u8]>,
    payload: Option<Vec<u8>>,
    inner: Option<Vec<u8>>,
)
    requires
        call_ensures(first_bytes_element, (key,), raw),
        call_ensures(first_element_payload, (key,), payload),
        raw matches Some(s) ==> call_ensures(unescape_payload, (s,), inner),
    ensures
        raw is Some <==> payload is Some,
        raw is Some ==> inner is Some && (inner->0)@ == (payload->0)@,
        key@.len() == 0 || (key@[0] != 0x01 && key@[0] != 0x02) ==> payload is None,
{
    if raw is Some && inner is Some {
        crate::flatdir::tuple::lemma_escape_injective((inner->0)@, (payload->0)@);
    }
}

/// The first packed string of a key is read whatever stands behind it, unless that begins
/// with the byte of an escaped zero.
pub proof fn law_first_element_read(
    payload: &[u8],
    packed: Vec<u8>,
    text: &str,
    packed_text: Vec<u8>,
    rest: Seq<u8>,
    key: &[u8],
    r: Option<Vec<u8>>,
    text_key: &[u8],
    t: Option<Vec<u8>>,
)
    requires
        call_ensures(pack_bytes, (payload,), packed),
        call_ensures(pack_string, (text,), packed_text),
        rest.len() > 0 ==> rest[0] != 0xFF,
        key@ == packed@ + rest,
        text_key@ == packed_text@ + rest,
        call_ensures(first_element_payload, (key,), r),
        call_ensures(first_element_payload, (text_key,), t),
    ensures
        r matches Some(p) && p@ == payload@,
        t matches Some(p) && p@ == encode_utf8(text@),
{
    law_element_round_trip(CODE_BYTES, payload@, rest);
    law_element_round_trip(CODE_STRING, encode_utf8(text@), rest);
}

// ---------------------------------------------------------------------------
// Rows
// ---------------------------------------------------------------------------

/// A version value states three little-endian numbers; a value of less than twelve bytes
/// states none.
pub proof fn law_parse_version(value: &[u8], r: Option<(u32, u32, u32)>)
    requires
        call_ensures(parse_version, (value,), r),
    ensures
        match r {
            Some((major, minor, patch)) => {
                let v = value@;
                &&& v.len() >= 12
                &&& major == v[0] + 0x100 * v[1] + 0x1_0000 * v[2] + 0x100_0000 * v[3]
                &&& minor == v[4] + 0x100 * v[5] + 0x1_0000 * v[6] + 0x100_0000 * v[7]
                &&& patch == v[8] + 0x100 * v[9] + 0x1_0000 * v[10] + 0x100_0000 * v[11]
            },
            None => value@.len() < 12,
        },
{
    if value@.len() >= 12 {
        lemma_four(value@, 0);
        lemma_four(value@, 4);
        lemma_four(value@, 8);
    }
}

/// Four little-endian bytes.
proof fn lemma_four(v: Seq<u8>, at: int)
    requires
        0 <= at,
        at + 4 <= v.len(),
    ensures
        le_value(v.subrange(at, at + 4)) == v[at] + 0x100 * v[at + 1] + 0x1_0000 * v[at + 2]
            + 0x100_0000 * v[at + 3],
{
    let t = v.subrange(at, at + 4);
    reveal_with_fuel(le_value, 5);
    assert(tail(t, 1)[0] == t[1]);
    assert(tail(tail(t, 1), 1)[0] == t[2]);
    assert(tail(tail(tail(t, 1), 1), 1)[0] == t[3]);
}

/// Row keys are the node prefix and the elements of their parts.
pub proof fn law_row_keys(
    prefix: &[u8],
    packed: Vec<u8>,
    node_key: Vec<u8>,
    n: &[u8],
    name: &str,
    text: Vec<u8>,
    child: Vec<u8>,
    layer: Vec<u8>,
)
    requires
        call_ensures(pack_bytes, (prefix,), packed),
        call_ensures(node_subspace, (prefix,), node_key),
        call_ensures(pack_string, (name,), text),
        call_ensures(child_key, (n, name), child),
        call_ensures(layer_key, (n,), layer),
    ensures
        node_key@ == seq![0xFEu8] + packed@,
        child@ == n@ + seq![0x14u8] + text@,
        layer@ == n@ + seq![0x01u8, 0x6Cu8, 0x61u8, 0x79u8, 0x65u8, 0x72u8, 0x00u8],
{
    lemma_layout_constants();
    assert(crate::flatdir::layout::LAYER_TAG@ =~= seq![
        0x01u8, 0x6Cu8, 0x61u8, 0x79u8, 0x65u8, 0x72u8, 0x00u8,
    ]);
    assert(int_element(0) =~= seq![0x14u8]);
}

/// The allocator's keys are their bases and the packed integer, so that they sort as the
/// integers do.
pub proof fn law_allocator_keys(
    v: i64,
    w: i64,
    packed: Vec<u8>,
    counter: Vec<u8>,
    recent: Vec<u8>,
    counter_of: Vec<u8>,
    recent_of: Vec<u8>,
)
    requires
        call_ensures(pack_i64, (v,), packed),
        call_ensures(counter_key, (v,), counter),
        call_ensures(recent_key, (v,), recent),
        call_ensures(counter_key, (w,), counter_of),
        call_ensures(recent_key, (w,), recent_of),
    ensures
        counter@ == COUNTERS_BASE@ + packed@,
        recent@ == RECENT_BASE@ + packed@,
        lt(counter@, counter_of@) <==> v < w,
        lt(recent@, recent_of@) <==> v < w,
        counter@ == counter_of@ <==> v == w,
        recent@ == recent_of@ <==> v == w,
{
    let a = int_element(v as int);
    let b = int_element(w as int);
    crate::bytes::lemma_lt_common_prefix(COUNTERS_BASE@, a, b);
    crate::bytes::lemma_lt_common_prefix(RECENT_BASE@, a, b);
    if v < w {
        law_integer_order(v as int, w as int);
        lemma_lt_irreflexive(counter@);
        lemma_lt_irreflexive(recent@);
    } else if w < v {
        law_integer_order(w as int, v as int);
        lemma_lt_asymmetric(b, a);
        crate::bytes::lemma_lt_common_prefix(COUNTERS_BASE@, b, a);
        crate::bytes::lemma_lt_common_prefix(RECENT_BASE@, b, a);
        lemma_lt_irreflexive(counter@);
        lemma_lt_irreflexive(recent@);
    } else {
        lemma_lt_irreflexive(a);
    }
}

/// Different directories, names and allocations have different rows.
pub proof fn law_row_keys_apart(
    p: &[u8],
    q: &[u8],
    x: Vec<u8>,
    y: Vec<u8>,
    n: &[u8],
    a: &str,
    b: &str,
    child_a: Vec<u8>,
    child_b: Vec<u8>,
)
    requires
        call_ensures(node_subspace, (p,), x),
        call_ensures(node_subspace, (q,), y),
        call_ensures(child_key, (n, a), child_a),
        call_ensures(child_key, (n, b), child_b),
    ensures
        x@ == y@ <==> p@ == q@,
        child_a@ == child_b@ <==> a@ == b@,
{
    lemma_layout_constants();
    if x@ == y@ {
        assert(tail(x@, 1) =~= bytes_element(p@));
        assert(tail(y@, 1) =~= bytes_element(q@));
        law_element_injective(CODE_BYTES, p@, q@);
    }
    if child_a@ == child_b@ {
        crate::flatdir::ops::lemma_child_row_injective(n@, encode_utf8(a@), encode_utf8(b@));
        encode_utf8_decode_utf8(a@);
        encode_utf8_decode_utf8(b@);
    }
}

/// Whether a key stands behind a base, with one byte more at least, and none behind that
/// where it is `0xFF`.
pub open spec fn stands_behind(base: Seq<u8>, k: Seq<u8>) -> bool {
    exists|b: u8, t: Seq<u8>|
        k == #[trigger] (base + seq![b] + t) && (b == 0xFF ==> t.len() == 0)
}

/// The two ways to say that a key stands behind a base agree.
pub proof fn lemma_stands_behind(base: Seq<u8>, k: Seq<u8>)
    ensures
        stands_behind(base, k) <==> inside(base, k),
{
    if inside(base, k) {
        let b = k[base.len() as int];
        let t = tail(k, base.len() + 1);
        crate::bytes::lemma_starts_with_split(k, base);
        assert(k =~= base + seq![b] + t);
    }
    if stands_behind(base, k) {
        let (b, t) = choose|b: u8, t: Seq<u8>|
            k == #[trigger] (base + seq![b] + t) && (b == 0xFF ==> t.len() == 0);
        assert(k.subrange(0, base.len() as int) =~= base);
        assert(k[base.len() as int] == b);
    }
}

/// The range of a node's rows, of its child rows and of a directory's data hold exactly
/// the keys behind the node, behind its zero element, and behind the prefix.
pub proof fn law_regions(
    n: &[u8],
    own: (Bound<Vec<u8>>, Bound<Vec<u8>>),
    children: (Bound<Vec<u8>>, Bound<Vec<u8>>),
    prefix: &[u8],
    data: (Bound<Vec<u8>>, Bound<Vec<u8>>),
    k: Seq<u8>,
)
    requires
        call_ensures(node_key_range, (n,), own),
        call_ensures(children_key_range, (n,), children),
        call_ensures(data_region, (prefix,), data),
    ensures
        in_range(k, owned_bound_of(own.0), owned_bound_of(own.1)) <==> stands_behind(n@, k),
        in_range(k, owned_bound_of(children.0), owned_bound_of(children.1)) <==> stands_behind(
            n@ + seq![0x14u8],
            k,
        ),
        in_range(k, owned_bound_of(data.0), owned_bound_of(data.1)) <==> exists|t: Seq<u8>|
            k == #[trigger] (prefix@ + t),
{
    assert(int_element(0) =~= seq![0x14u8]);
    lemma_stands_behind(n@, k);
    lemma_stands_behind(n@ + int_element(0), k);
    law_prefix(k, prefix@);
    assert(inside(n@, k) <==> stands_behind(n@, k));
    assert(starts_with(k, prefix@) || !starts_with(k, prefix@));
}

/// The fixed places of the layout, as they are packed: the root node under its own prefix,
/// and in it the version row, the allocator's two subspaces and the tag of a layer row.
pub proof fn law_fixed_places(
    prefix: &[u8],
    version: &[u8],
    hca: &[u8],
    layer: &[u8],
    packed_prefix: Vec<u8>,
    packed_version: Vec<u8>,
    packed_hca: Vec<u8>,
    packed_layer: Vec<u8>,
    zero: Vec<u8>,
    one: Vec<u8>,
)
    requires
        prefix@ == seq![0xFEu8],
        version@ == seq![0x76u8, 0x65u8, 0x72u8, 0x73u8, 0x69u8, 0x6Fu8, 0x6Eu8],
        hca@ == seq![0x68u8, 0x63u8, 0x61u8],
        layer@ == seq![0x6Cu8, 0x61u8, 0x79u8, 0x65u8, 0x72u8],
        call_ensures(pack_bytes, (prefix,), packed_prefix),
        call_ensures(pack_bytes, (version,), packed_version),
        call_ensures(pack_bytes, (hca,), packed_hca),
        call_ensures(pack_bytes, (layer,), packed_layer),
        call_ensures(pack_i64, (0i64,), zero),
        call_ensures(pack_i64, (1i64,), one),
    ensures
        NODE_PREFIX@ == prefix@,
        ROOT_NODE@ == prefix@ + packed_prefix@,
        VERSION_KEY@ == ROOT_NODE@ + packed_version@,
        HCA_SUBSPACE@ == ROOT_NODE@ + packed_hca@,
        COUNTERS_BASE@ == HCA_SUBSPACE@ + zero@,
        RECENT_BASE@ == HCA_SUBSPACE@ + one@,
        LAYER_TAG@ == packed_layer@,
        encode_utf8(ROOT_PATH_SEGMENT@) == seq![
            0x00u8, 0x66u8, 0x61u8, 0x73u8, 0x6Du8, 0x2Du8, 0x73u8, 0x74u8, 0x6Fu8, 0x72u8, 0x61u8,
            0x67u8, 0x65u8,
        ],
{
    lemma_layout_constants();
    reveal_strlit("\0fasm-storage");
    vstd::utf8::is_ascii_chars_encode_utf8(ROOT_PATH_SEGMENT@);
    assert(encode_utf8(ROOT_PATH_SEGMENT@) =~= seq![
        0x00u8, 0x66u8, 0x61u8, 0x73u8, 0x6Du8, 0x2Du8, 0x73u8, 0x74u8, 0x6Fu8, 0x72u8, 0x61u8,
        0x67u8, 0x65u8,
    ]);
}

} // verus!
