//! Byte-string ordering and fixed-width big-endian integer encodings.
//!
//! Keys in every partition are ordered lexicographically by their bytes;
//! `seq_lt` is that order, and the big-endian encodings below are chosen so
//! that numeric order and byte order agree.
use vstd::prelude::*;

verus! {

/// Strict lexicographic order on byte strings (a proper prefix sorts first).
pub open spec fn seq_lt(a: Seq<u8>, b: Seq<u8>) -> bool
    decreases a.len(),
{
    if b.len() == 0 {
        false
    } else if a.len() == 0 {
        true
    } else if a[0] != b[0] {
        a[0] < b[0]
    } else {
        seq_lt(a.drop_first(), b.drop_first())
    }
}

/// Non-strict lexicographic order.
pub open spec fn seq_le(a: Seq<u8>, b: Seq<u8>) -> bool {
    a == b || seq_lt(a, b)
}

pub proof fn lemma_seq_lt_irreflexive(a: Seq<u8>)
    ensures
        !seq_lt(a, a),
    decreases a.len(),
{
    if a.len() > 0 {
        lemma_seq_lt_irreflexive(a.drop_first());
    }
}

pub proof fn lemma_seq_lt_asymmetric(a: Seq<u8>, b: Seq<u8>)
    ensures
        !(seq_lt(a, b) && seq_lt(b, a)),
    decreases a.len(),
{
    if a.len() > 0 && b.len() > 0 && a[0] == b[0] {
        lemma_seq_lt_asymmetric(a.drop_first(), b.drop_first());
    }
}

pub proof fn lemma_seq_lt_total(a: Seq<u8>, b: Seq<u8>)
    ensures
        a == b || seq_lt(a, b) || seq_lt(b, a),
    decreases a.len(),
{
    if a.len() > 0 && b.len() > 0 && a[0] == b[0] {
        lemma_seq_lt_total(a.drop_first(), b.drop_first());
        if a.drop_first() == b.drop_first() {
            assert(a =~= seq![a[0]] + a.drop_first());
            assert(b =~= seq![b[0]] + b.drop_first());
        }
    } else if a.len() == 0 && b.len() == 0 {
        assert(a =~= b);
    }
}

pub proof fn lemma_seq_lt_transitive(a: Seq<u8>, b: Seq<u8>, c: Seq<u8>)
    requires
        seq_lt(a, b),
        seq_lt(b, c),
    ensures
        seq_lt(a, c),
    decreases a.len(),
{
    if a.len() > 0 && b.len() > 0 && c.len() > 0 && a[0] == b[0] && b[0] == c[0] {
        lemma_seq_lt_transitive(a.drop_first(), b.drop_first(), c.drop_first());
    }
}

/// The order is a total order: the facts above in one place.
pub proof fn lemma_seq_lt_strict_total_order()
    ensures
        forall|a: Seq<u8>| !seq_lt(a, a),
        forall|a: Seq<u8>, b: Seq<u8>| a == b || seq_lt(a, b) || seq_lt(b, a),
        forall|a: Seq<u8>, b: Seq<u8>, c: Seq<u8>|
            seq_lt(a, b) && seq_lt(b, c) ==> seq_lt(a, c),
{
    assert forall|a: Seq<u8>| !seq_lt(a, a) by {
        lemma_seq_lt_irreflexive(a);
    }
    assert forall|a: Seq<u8>, b: Seq<u8>| a == b || seq_lt(a, b) || seq_lt(b, a) by {
        lemma_seq_lt_total(a, b);
    }
    assert forall|a: Seq<u8>, b: Seq<u8>, c: Seq<u8>|
        seq_lt(a, b) && seq_lt(b, c) implies seq_lt(a, c) by {
        lemma_seq_lt_transitive(a, b, c);
    }
}

/// A common prefix does not change the order.
pub proof fn lemma_seq_lt_common_prefix(p: Seq<u8>, a: Seq<u8>, b: Seq<u8>)
    ensures
        seq_lt(p + a, p + b) == seq_lt(a, b),
    decreases p.len(),
{
    if p.len() > 0 {
        lemma_seq_lt_common_prefix(p.drop_first(), a, b);
        assert((p + a).drop_first() =~= p.drop_first() + a);
        assert((p + b).drop_first() =~= p.drop_first() + b);
    } else {
        assert(p + a =~= a);
        assert(p + b =~= b);
    }
}

/// When neither of two byte strings is a prefix of the other, what follows
/// them does not change their order.
pub proof fn lemma_seq_lt_no_prefix(a: Seq<u8>, b: Seq<u8>, x: Seq<u8>, y: Seq<u8>)
    requires
        !a.is_prefix_of(b),
        !b.is_prefix_of(a),
    ensures
        seq_lt(a + x, b + y) == seq_lt(a, b),
    decreases a.len(),
{
    if a.len() == 0 {
        assert(a.is_prefix_of(b));
    } else if b.len() == 0 {
        assert(b.is_prefix_of(a));
    } else {
        assert((a + x)[0] == a[0]);
        assert((b + y)[0] == b[0]);
        if a[0] == b[0] {
            assert((a + x).drop_first() =~= a.drop_first() + x);
            assert((b + y).drop_first() =~= b.drop_first() + y);
            if a.drop_first().is_prefix_of(b.drop_first()) {
                assert forall|i: int| 0 <= i < a.len() implies a[i] == b.subrange(0, a.len() as int)[i] by {
                    if i > 0 {
                        assert(a[i] == a.drop_first()[i - 1]);
                        assert(b[i] == b.drop_first()[i - 1]);
                        assert(a.drop_first()[i - 1] == b.drop_first().subrange(0, a.drop_first().len() as int)[i - 1]);
                    }
                }
                assert(a =~= b.subrange(0, a.len() as int));
                assert(false);
            }
            if b.drop_first().is_prefix_of(a.drop_first()) {
                assert forall|i: int| 0 <= i < b.len() implies b[i] == a.subrange(0, b.len() as int)[i] by {
                    if i > 0 {
                        assert(a[i] == a.drop_first()[i - 1]);
                        assert(b[i] == b.drop_first()[i - 1]);
                        assert(b.drop_first()[i - 1] == a.drop_first().subrange(0, b.drop_first().len() as int)[i - 1]);
                    }
                }
                assert(b =~= a.subrange(0, b.len() as int));
                assert(false);
            }
            lemma_seq_lt_no_prefix(a.drop_first(), b.drop_first(), x, y);
        }
    }
}

/// Stepping over an equal byte at position `i`.
proof fn lemma_seq_lt_skip(a: Seq<u8>, b: Seq<u8>, i: int)
    requires
        0 <= i < a.len(),
        i < b.len(),
        a[i] == b[i],
    ensures
        seq_lt(a.skip(i), b.skip(i)) == seq_lt(a.skip(i + 1), b.skip(i + 1)),
{
    assert(a.skip(i).drop_first() =~= a.skip(i + 1));
    assert(b.skip(i).drop_first() =~= b.skip(i + 1));
}

/// Lexicographic comparison of two byte strings.
pub fn bytes_lt(a: &[u8], b: &[u8]) -> (r: bool)
    ensures
        r == seq_lt(a@, b@),
{
    let mut i: usize = 0;
    assert(a@.skip(0) =~= a@);
    assert(b@.skip(0) =~= b@);
    while i < a.len() && i < b.len()
        invariant
            i <= a@.len(),
            i <= b@.len(),
            seq_lt(a@, b@) == seq_lt(a@.skip(i as int), b@.skip(i as int)),
        decreases a@.len() - i,
    {
        if a[i] != b[i] {
            return a[i] < b[i];
        }
        proof {
            lemma_seq_lt_skip(a@, b@, i as int);
        }
        i = i + 1;
    }
    i < b.len()
}

/// Byte-wise equality of two byte strings.
pub fn bytes_eq(a: &[u8], b: &[u8]) -> (r: bool)
    ensures
        r == (a@ == b@),
{
    if a.len() != b.len() {
        return false;
    }
    let mut i: usize = 0;
    while i < a.len()
        invariant
            a@.len() == b@.len(),
            i <= a@.len(),
            forall|j: int| 0 <= j < i ==> a@[j] == b@[j],
        decreases a@.len() - i,
    {
        if a[i] != b[i] {
            return false;
        }
        i = i + 1;
    }
    assert(a@ =~= b@);
    true
}

/// Big-endian bytes of a `u64`.
pub open spec fn u64_be(x: u64) -> Seq<u8> {
    seq![
        (x >> 56u64) as u8,
        (x >> 48u64) as u8,
        (x >> 40u64) as u8,
        (x >> 32u64) as u8,
        (x >> 24u64) as u8,
        (x >> 16u64) as u8,
        (x >> 8u64) as u8,
        x as u8,
    ]
}

/// The `u64` whose big-endian bytes are the first eight of `s`.
pub open spec fn u64_from_be(s: Seq<u8>) -> u64 {
    ((s[0] as u64) << 56u64) | ((s[1] as u64) << 48u64) | ((s[2] as u64) << 40u64) | ((
    s[3] as u64) << 32u64) | ((s[4] as u64) << 24u64) | ((s[5] as u64) << 16u64) | ((s[6] as u64)
        << 8u64) | (s[7] as u64)
}

/// Big-endian bytes of a `u32`.
pub open spec fn u32_be(x: u32) -> Seq<u8> {
    seq![(x >> 24u32) as u8, (x >> 16u32) as u8, (x >> 8u32) as u8, x as u8]
}

/// The `u32` whose big-endian bytes are the first four of `s`.
pub open spec fn u32_from_be(s: Seq<u8>) -> u32 {
    ((s[0] as u32) << 24u32) | ((s[1] as u32) << 16u32) | ((s[2] as u32) << 8u32) | (s[3] as u32)
}

proof fn lemma_u64_bytes_roundtrip_bv(x: u64)
    ensures
        ((((x >> 56u64) as u8) as u64) << 56u64) | ((((x >> 48u64) as u8) as u64) << 48u64) | (((
        (x >> 40u64) as u8) as u64) << 40u64) | ((((x >> 32u64) as u8) as u64) << 32u64) | ((((x
            >> 24u64) as u8) as u64) << 24u64) | ((((x >> 16u64) as u8) as u64) << 16u64) | ((((x
            >> 8u64) as u8) as u64) << 8u64) | ((x as u8) as u64) == x,
{
    assert(((((x >> 56u64) as u8) as u64) << 56u64) | ((((x >> 48u64) as u8) as u64) << 48u64) | ((
    ((x >> 40u64) as u8) as u64) << 40u64) | ((((x >> 32u64) as u8) as u64) << 32u64) | ((((x
        >> 24u64) as u8) as u64) << 24u64) | ((((x >> 16u64) as u8) as u64) << 16u64) | ((((x
        >> 8u64) as u8) as u64) << 8u64) | ((x as u8) as u64) == x) by (bit_vector);
}

/// Decoding the big-endian bytes of `x` gives back `x`.
pub proof fn lemma_u64_be_roundtrip(x: u64)
    ensures
        u64_be(x).len() == 8,
        u64_from_be(u64_be(x)) == x,
{
    lemma_u64_bytes_roundtrip_bv(x);
}

proof fn lemma_u64_value_bytes_bv(b0: u8, b1: u8, b2: u8, b3: u8, b4: u8, b5: u8, b6: u8, b7: u8)
    ensures
        ({
            let x: u64 = ((b0 as u64) << 56u64) | ((b1 as u64) << 48u64) | ((b2 as u64) << 40u64)
                | ((b3 as u64) << 32u64) | ((b4 as u64) << 24u64) | ((b5 as u64) << 16u64) | ((
            b6 as u64) << 8u64) | (b7 as u64);
            &&& (x >> 56u64) as u8 == b0
            &&& (x >> 48u64) as u8 == b1
            &&& (x >> 40u64) as u8 == b2
            &&& (x >> 32u64) as u8 == b3
            &&& (x >> 24u64) as u8 == b4
            &&& (x >> 16u64) as u8 == b5
            &&& (x >> 8u64) as u8 == b6
            &&& x as u8 == b7
        }),
{
    assert({
        let x: u64 = ((b0 as u64) << 56u64) | ((b1 as u64) << 48u64) | ((b2 as u64) << 40u64) | ((
        b3 as u64) << 32u64) | ((b4 as u64) << 24u64) | ((b5 as u64) << 16u64) | ((b6 as u64)
            << 8u64) | (b7 as u64);
        &&& (x >> 56u64) as u8 == b0
        &&& (x >> 48u64) as u8 == b1
        &&& (x >> 40u64) as u8 == b2
        &&& (x >> 32u64) as u8 == b3
        &&& (x >> 24u64) as u8 == b4
        &&& (x >> 16u64) as u8 == b5
        &&& (x >> 8u64) as u8 == b6
        &&& x as u8 == b7
    }) by (bit_vector);
}

/// Encoding the value of eight bytes gives back those bytes.
pub proof fn lemma_u64_from_be_roundtrip(s: Seq<u8>)
    requires
        s.len() == 8,
    ensures
        u64_be(u64_from_be(s)) == s,
{
    lemma_u64_value_bytes_bv(s[0], s[1], s[2], s[3], s[4], s[5], s[6], s[7]);
    assert(u64_be(u64_from_be(s)) =~= s);
}

proof fn lemma_u32_bytes_roundtrip_bv(x: u32)
    ensures
        ((((x >> 24u32) as u8) as u32) << 24u32) | ((((x >> 16u32) as u8) as u32) << 16u32) | (((
        (x >> 8u32) as u8) as u32) << 8u32) | ((x as u8) as u32) == x,
{
    assert(((((x >> 24u32) as u8) as u32) << 24u32) | ((((x >> 16u32) as u8) as u32) << 16u32) | ((
    ((x >> 8u32) as u8) as u32) << 8u32) | ((x as u8) as u32) == x) by (bit_vector);
}

/// Decoding the big-endian bytes of `x` gives back `x`.
pub proof fn lemma_u32_be_roundtrip(x: u32)
    ensures
        u32_be(x).len() == 4,
        u32_from_be(u32_be(x)) == x,
{
    lemma_u32_bytes_roundtrip_bv(x);
}

proof fn lemma_u32_value_bytes_bv(b0: u8, b1: u8, b2: u8, b3: u8)
    ensures
        ({
            let x: u32 = ((b0 as u32) << 24u32) | ((b1 as u32) << 16u32) | ((b2 as u32) << 8u32)
                | (b3 as u32);
            &&& (x >> 24u32) as u8 == b0
            &&& (x >> 16u32) as u8 == b1
            &&& (x >> 8u32) as u8 == b2
            &&& x as u8 == b3
        }),
{
    assert({
        let x: u32 = ((b0 as u32) << 24u32) | ((b1 as u32) << 16u32) | ((b2 as u32) << 8u32) | (
        b3 as u32);
        &&& (x >> 24u32) as u8 == b0
        &&& (x >> 16u32) as u8 == b1
        &&& (x >> 8u32) as u8 == b2
        &&& x as u8 == b3
    }) by (bit_vector);
}

/// Encoding the value of four bytes gives back those bytes.
pub proof fn lemma_u32_from_be_roundtrip(s: Seq<u8>)
    requires
        s.len() == 4,
    ensures
        u32_be(u32_from_be(s)) == s,
{
    lemma_u32_value_bytes_bv(s[0], s[1], s[2], s[3]);
    assert(u32_be(u32_from_be(s)) =~= s);
}

proof fn lemma_u64_order_bv(x: u64, y: u64)
    ensures
        (x < y) == (((x >> 56u64) as u8) < ((y >> 56u64) as u8) || (((x >> 56u64) as u8) == ((y
            >> 56u64) as u8) && (((x >> 48u64) as u8) < ((y >> 48u64) as u8) || (((x >> 48u64)
            as u8) == ((y >> 48u64) as u8) && (((x >> 40u64) as u8) < ((y >> 40u64) as u8) || ((
        (x >> 40u64) as u8) == ((y >> 40u64) as u8) && (((x >> 32u64) as u8) < ((y >> 32u64)
            as u8) || (((x >> 32u64) as u8) == ((y >> 32u64) as u8) && (((x >> 24u64) as u8) < ((
        y >> 24u64) as u8) || (((x >> 24u64) as u8) == ((y >> 24u64) as u8) && (((x >> 16u64)
            as u8) < ((y >> 16u64) as u8) || (((x >> 16u64) as u8) == ((y >> 16u64) as u8) && ((
        (x >> 8u64) as u8) < ((y >> 8u64) as u8) || (((x >> 8u64) as u8) == ((y >> 8u64) as u8)
            && (x as u8) < (y as u8))))))))))))))),
{
    assert((x < y) == (((x >> 56u64) as u8) < ((y >> 56u64) as u8) || (((x >> 56u64) as u8) == ((y
        >> 56u64) as u8) && (((x >> 48u64) as u8) < ((y >> 48u64) as u8) || (((x >> 48u64) as u8)
        == ((y >> 48u64) as u8) && (((x >> 40u64) as u8) < ((y >> 40u64) as u8) || (((x >> 40u64)
        as u8) == ((y >> 40u64) as u8) && (((x >> 32u64) as u8) < ((y >> 32u64) as u8) || (((x
        >> 32u64) as u8) == ((y >> 32u64) as u8) && (((x >> 24u64) as u8) < ((y >> 24u64) as u8)
        || (((x >> 24u64) as u8) == ((y >> 24u64) as u8) && (((x >> 16u64) as u8) < ((y >> 16u64)
        as u8) || (((x >> 16u64) as u8) == ((y >> 16u64) as u8) && (((x >> 8u64) as u8) < ((y
        >> 8u64) as u8) || (((x >> 8u64) as u8) == ((y >> 8u64) as u8) && (x as u8) < (y
        as u8)))))))))))))))) by (bit_vector);
}

/// Byte order of big-endian encodings agrees with numeric order.
pub proof fn lemma_u64_be_order(x: u64, y: u64)
    ensures
        seq_lt(u64_be(x), u64_be(y)) == (x < y),
{
    lemma_u64_order_bv(x, y);
    reveal_with_fuel(seq_lt, 9);
    let a = u64_be(x);
    let b = u64_be(y);
    assert(a.drop_first() =~= a.skip(1));
    assert(b.drop_first() =~= b.skip(1));
    assert(a.skip(1).drop_first() =~= a.skip(2));
    assert(b.skip(1).drop_first() =~= b.skip(2));
    assert(a.skip(2).drop_first() =~= a.skip(3));
    assert(b.skip(2).drop_first() =~= b.skip(3));
    assert(a.skip(3).drop_first() =~= a.skip(4));
    assert(b.skip(3).drop_first() =~= b.skip(4));
    assert(a.skip(4).drop_first() =~= a.skip(5));
    assert(b.skip(4).drop_first() =~= b.skip(5));
    assert(a.skip(5).drop_first() =~= a.skip(6));
    assert(b.skip(5).drop_first() =~= b.skip(6));
    assert(a.skip(6).drop_first() =~= a.skip(7));
    assert(b.skip(6).drop_first() =~= b.skip(7));
    assert(a.skip(7).drop_first() =~= a.skip(8));
    assert(b.skip(7).drop_first() =~= b.skip(8));
    assert(a.skip(8).len() == 0);
    assert(b.skip(8).len() == 0);
}

/// Writes the big-endian bytes of `x` at the end of `buf`.
pub fn push_u64_be(buf: &mut Vec<u8>, x: u64)
    ensures
        final(buf)@ == old(buf)@ + u64_be(x),
{
    buf.push((x >> 56u64) as u8);
    buf.push((x >> 48u64) as u8);
    buf.push((x >> 40u64) as u8);
    buf.push((x >> 32u64) as u8);
    buf.push((x >> 24u64) as u8);
    buf.push((x >> 16u64) as u8);
    buf.push((x >> 8u64) as u8);
    buf.push(x as u8);
    assert(buf@ =~= old(buf)@ + u64_be(x));
}

/// Writes the big-endian bytes of `x` at the end of `buf`.
pub fn push_u32_be(buf: &mut Vec<u8>, x: u32)
    ensures
        final(buf)@ == old(buf)@ + u32_be(x),
{
    buf.push((x >> 24u32) as u8);
    buf.push((x >> 16u32) as u8);
    buf.push((x >> 8u32) as u8);
    buf.push(x as u8);
    assert(buf@ =~= old(buf)@ + u32_be(x));
}

/// Reads the big-endian `u64` stored at `bytes[at..at + 8]`.
pub fn read_u64_be(bytes: &[u8], at: usize) -> (r: u64)
    requires
        at + 8 <= bytes@.len(),
    ensures
        r == u64_from_be(bytes@.subrange(at as int, at + 8)),
{
    ((bytes[at] as u64) << 56u64) | ((bytes[at + 1] as u64) << 48u64) | ((bytes[at + 2] as u64)
        << 40u64) | ((bytes[at + 3] as u64) << 32u64) | ((bytes[at + 4] as u64) << 24u64) | ((
    bytes[at + 5] as u64) << 16u64) | ((bytes[at + 6] as u64) << 8u64) | (bytes[at + 7] as u64)
}

/// Reads the big-endian `u32` stored at `bytes[at..at + 4]`.
pub fn read_u32_be(bytes: &[u8], at: usize) -> (r: u32)
    requires
        at + 4 <= bytes@.len(),
    ensures
        r == u32_from_be(bytes@.subrange(at as int, at + 4)),
{
    ((bytes[at] as u32) << 24u32) | ((bytes[at + 1] as u32) << 16u32) | ((bytes[at + 2] as u32)
        << 8u32) | (bytes[at + 3] as u32)
}

} // verus!
