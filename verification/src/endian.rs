//! Fixed-width integers as bytes.
//!
//! The layouts are opaque: proofs go by the lengths and the reading back, and
//! `reveal` them where single bytes matter.
use vstd::prelude::*;

verus! {

/// The little-endian bytes of a 32-bit number.
#[verifier::opaque]
pub open spec fn le32(v: u32) -> Seq<u8> {
    seq![
        (v % 0x100) as u8,
        (v / 0x100 % 0x100) as u8,
        (v / 0x1_0000 % 0x100) as u8,
        (v / 0x100_0000 % 0x100) as u8,
    ]
}

/// The number that four little-endian bytes stand for.
#[verifier::opaque]
pub open spec fn from_le32(s: Seq<u8>) -> u32 {
    (s[0] + 0x100 * s[1] + 0x1_0000 * s[2] + 0x100_0000 * s[3]) as u32
}

/// The big-endian bytes of a 32-bit number.
#[verifier::opaque]
pub open spec fn be32(v: u32) -> Seq<u8> {
    seq![
        (v / 0x100_0000 % 0x100) as u8,
        (v / 0x1_0000 % 0x100) as u8,
        (v / 0x100 % 0x100) as u8,
        (v % 0x100) as u8,
    ]
}

/// The number that four big-endian bytes stand for.
#[verifier::opaque]
pub open spec fn from_be32(s: Seq<u8>) -> u32 {
    (0x100_0000 * s[0] + 0x1_0000 * s[1] + 0x100 * s[2] + s[3]) as u32
}

/// The little-endian bytes of a 64-bit number.
#[verifier::opaque]
pub open spec fn le64(v: u64) -> Seq<u8> {
    seq![
        (v % 0x100) as u8,
        (v / 0x100 % 0x100) as u8,
        (v / 0x1_0000 % 0x100) as u8,
        (v / 0x100_0000 % 0x100) as u8,
        (v / 0x1_0000_0000 % 0x100) as u8,
        (v / 0x100_0000_0000 % 0x100) as u8,
        (v / 0x1_0000_0000_0000 % 0x100) as u8,
        (v / 0x100_0000_0000_0000 % 0x100) as u8,
    ]
}

/// The number that eight little-endian bytes stand for.
#[verifier::opaque]
pub open spec fn from_le64(s: Seq<u8>) -> u64 {
    (s[0] + 0x100 * s[1] + 0x1_0000 * s[2] + 0x100_0000 * s[3] + 0x1_0000_0000 * s[4]
        + 0x100_0000_0000 * s[5] + 0x1_0000_0000_0000 * s[6] + 0x100_0000_0000_0000 * s[7]) as u64
}

/// The two's complement bits of a signed number.
pub open spec fn twos(v: i64) -> u64 {
    if v < 0 {
        (v + 0x1_0000_0000_0000_0000) as u64
    } else {
        v as u64
    }
}

/// The signed number with the given two's complement bits.
pub open spec fn from_twos(v: u64) -> i64 {
    if v > 0x7fff_ffff_ffff_ffff {
        (v - 0x1_0000_0000_0000_0000) as i64
    } else {
        v as i64
    }
}

/// Reading back a signed number from its bits gives that number.
pub proof fn lemma_twos_roundtrip(v: i64)
    ensures
        from_twos(twos(v)) == v,
{
}

/// Reading back a 32-bit number from its little-endian bytes gives that number.
pub broadcast proof fn lemma_le32_roundtrip(v: u32)
    ensures
        (#[trigger] le32(v)).len() == 4,
        from_le32(le32(v)) == v,
{
    reveal(le32);
    reveal(from_le32);
    assert(v == v % 0x100 + 0x100 * (v / 0x100 % 0x100) + 0x1_0000 * (v / 0x1_0000 % 0x100)
        + 0x100_0000 * (v / 0x100_0000 % 0x100)) by (bit_vector);
}

/// Reading back a 32-bit number from its big-endian bytes gives that number.
pub broadcast proof fn lemma_be32_roundtrip(v: u32)
    ensures
        (#[trigger] be32(v)).len() == 4,
        from_be32(be32(v)) == v,
{
    reveal(be32);
    reveal(from_be32);
    assert(v == v % 0x100 + 0x100 * (v / 0x100 % 0x100) + 0x1_0000 * (v / 0x1_0000 % 0x100)
        + 0x100_0000 * (v / 0x100_0000 % 0x100)) by (bit_vector);
}

/// Reading back a 64-bit number from its little-endian bytes gives that number.
pub broadcast proof fn lemma_le64_roundtrip(v: u64)
    ensures
        (#[trigger] le64(v)).len() == 8,
        from_le64(le64(v)) == v,
{
    reveal(le64);
    reveal(from_le64);
    assert(v == v % 0x100 + 0x100 * (v / 0x100 % 0x100) + 0x1_0000 * (v / 0x1_0000 % 0x100)
        + 0x100_0000 * (v / 0x100_0000 % 0x100) + 0x1_0000_0000 * (v / 0x1_0000_0000 % 0x100)
        + 0x100_0000_0000 * (v / 0x100_0000_0000 % 0x100) + 0x1_0000_0000_0000 * (v
        / 0x1_0000_0000_0000 % 0x100) + 0x100_0000_0000_0000 * (v / 0x100_0000_0000_0000 % 0x100))
        by (bit_vector);
}

/// Numbers have bytes of a fixed length, from which they are read back.
pub broadcast group group_endian {
    lemma_le32_roundtrip,
    lemma_be32_roundtrip,
    lemma_le64_roundtrip,
}

/// Casts a signed number to its two's complement bits.
pub fn to_bits(v: i64) -> (r: u64)
    ensures
        r == twos(v),
{
    assert(v < 0 ==> v as u64 == v + 0x1_0000_0000_0000_0000) by (bit_vector);
    v as u64
}

/// Casts two's complement bits to the signed number.
pub fn of_bits(v: u64) -> (r: i64)
    ensures
        r == from_twos(v),
{
    assert(v > 0x7fff_ffff_ffff_ffff ==> v as i64 == v - 0x1_0000_0000_0000_0000) by (bit_vector);
    v as i64
}

/// Appends the little-endian bytes of a 32-bit number.
pub fn put_le32(b: &mut Vec<u8>, v: u32)
    ensures
        final(b)@ == old(b)@ + le32(v),
{
    reveal(le32);
    b.push((v % 0x100) as u8);
    b.push((v / 0x100 % 0x100) as u8);
    b.push((v / 0x1_0000 % 0x100) as u8);
    b.push((v / 0x100_0000 % 0x100) as u8);
    assert(b@ =~= old(b)@ + le32(v));
}

/// Appends the little-endian bytes of a 64-bit number.
pub fn put_le64(b: &mut Vec<u8>, v: u64)
    ensures
        final(b)@ == old(b)@ + le64(v),
{
    reveal(le64);
    b.push((v % 0x100) as u8);
    b.push((v / 0x100 % 0x100) as u8);
    b.push((v / 0x1_0000 % 0x100) as u8);
    b.push((v / 0x100_0000 % 0x100) as u8);
    b.push((v / 0x1_0000_0000 % 0x100) as u8);
    b.push((v / 0x100_0000_0000 % 0x100) as u8);
    b.push((v / 0x1_0000_0000_0000 % 0x100) as u8);
    b.push((v / 0x100_0000_0000_0000 % 0x100) as u8);
    assert(b@ =~= old(b)@ + le64(v));
}

/// Reads a little-endian 32-bit number at a position.
pub fn get_le32(s: &[u8], at: usize) -> (r: u32)
    requires
        at + 4 <= s@.len(),
    ensures
        r == from_le32(s@.subrange(at as int, at + 4)),
{
    reveal(from_le32);
    s[at] as u32 + 0x100 * s[at + 1] as u32 + 0x1_0000 * s[at + 2] as u32 + 0x100_0000 * s[at
        + 3] as u32
}

/// Reads a little-endian 64-bit number at a position.
pub fn get_le64(s: &[u8], at: usize) -> (r: u64)
    requires
        at + 8 <= s@.len(),
    ensures
        r == from_le64(s@.subrange(at as int, at + 8)),
{
    reveal(from_le64);
    s[at] as u64 + 0x100 * s[at + 1] as u64 + 0x1_0000 * s[at + 2] as u64 + 0x100_0000 * s[at
        + 3] as u64 + 0x1_0000_0000 * s[at + 4] as u64 + 0x100_0000_0000 * s[at + 5] as u64
        + 0x1_0000_0000_0000 * s[at + 6] as u64 + 0x100_0000_0000_0000 * s[at + 7] as u64
}

/// The bytes of a number are its digits to the base of 256: the least significant first,
/// or the most significant one.
pub proof fn bytes_are_digits(v: u32, w: u64)
    ensures
        ({
            let s = le32(v);
            s.len() == 4 && v == s[0] + 0x100 * s[1] + 0x1_0000 * s[2] + 0x100_0000 * s[3]
        }),
        ({
            let s = be32(v);
            s.len() == 4 && v == 0x100_0000 * s[0] + 0x1_0000 * s[1] + 0x100 * s[2] + s[3]
        }),
        ({
            let s = le64(w);
            s.len() == 8 && w == s[0] + 0x100 * s[1] + 0x1_0000 * s[2] + 0x100_0000 * s[3]
                + 0x1_0000_0000 * s[4] + 0x100_0000_0000 * s[5] + 0x1_0000_0000_0000 * s[6]
                + 0x100_0000_0000_0000 * s[7]
        }),
{
    lemma_le32_roundtrip(v);
    lemma_be32_roundtrip(v);
    lemma_le64_roundtrip(w);
    reveal(from_le32);
    reveal(from_be32);
    reveal(from_le64);
}

/// Bytes are read as digits to the base of 256.
pub proof fn digits_are_read(s: Seq<u8>)
    ensures
        from_le32(s) == s[0] + 0x100 * s[1] + 0x1_0000 * s[2] + 0x100_0000 * s[3],
        from_be32(s) == 0x100_0000 * s[0] + 0x1_0000 * s[1] + 0x100 * s[2] + s[3],
        from_le64(s) == s[0] + 0x100 * s[1] + 0x1_0000 * s[2] + 0x100_0000 * s[3] + 0x1_0000_0000
            * s[4] + 0x100_0000_0000 * s[5] + 0x1_0000_0000_0000 * s[6] + 0x100_0000_0000_0000
            * s[7],
{
    reveal(from_le32);
    reveal(from_be32);
    reveal(from_le64);
}

/// The bits of a signed number are those of the number that is congruent to it.
pub proof fn bits_are_congruent(v: i64)
    ensures
        twos(v) == v || twos(v) == v + 0x1_0000_0000_0000_0000,
{
}

/// A number is read where it was put, and what was there before stays.
pub proof fn get_inverts_put(
    b: &mut Vec<u8>,
    v: u64,
    s: &[u8],
    at: usize,
    r: u64,
    c: &mut Vec<u8>,
    w: u32,
    t: &[u8],
    there: usize,
    q: u32,
    i: i64,
    bits: u64,
    j: i64,
)
    requires
        call_ensures(put_le64, (b, v), ()),
        s@ == final(b)@,
        at == old(b)@.len(),
        call_ensures(get_le64, (s, at), r),
        call_ensures(put_le32, (c, w), ()),
        t@ == final(c)@,
        there == old(c)@.len(),
        call_ensures(get_le32, (t, there), q),
        call_ensures(to_bits, (i,), bits),
        call_ensures(of_bits, (bits,), j),
    ensures
        r == v,
        q == w,
        j == i,
        final(b)@.take(old(b)@.len() as int) == old(b)@,
        final(c)@.take(old(c)@.len() as int) == old(c)@,
{
    lemma_le64_roundtrip(v);
    lemma_le32_roundtrip(w);
    lemma_twos_roundtrip(i);
    assert(final(b)@.subrange(at as int, at + 8) =~= le64(v));
    assert(final(c)@.subrange(there as int, there + 4) =~= le32(w));
    assert(final(b)@.take(old(b)@.len() as int) =~= old(b)@);
    assert(final(c)@.take(old(c)@.len() as int) =~= old(c)@);
}

} // verus!
