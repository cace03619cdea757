//! Fixed-width unsigned integers as little-endian byte strings.

use vstd::prelude::*;

verus! {

/// The four bytes of `x`, least significant first.
pub open spec fn u32_le(x: u32) -> Seq<u8> {
    seq![
        (x % 256) as u8,
        (x / 256 % 256) as u8,
        (x / 65536 % 256) as u8,
        (x / 16777216 % 256) as u8,
    ]
}

/// The number that four little-endian bytes stand for.
pub open spec fn u32_from_le(s: Seq<u8>) -> int
    recommends
        s.len() == 4,
{
    s[0] + 256 * s[1] + 65536 * s[2] + 16777216 * s[3]
}

/// The eight bytes of `x`, least significant first.
pub open spec fn u64_le(x: u64) -> Seq<u8> {
    seq![
        (x % 256) as u8,
        (x / 256 % 256) as u8,
        (x / 65536 % 256) as u8,
        (x / 16777216 % 256) as u8,
        (x / 4294967296 % 256) as u8,
        (x / 1099511627776 % 256) as u8,
        (x / 281474976710656 % 256) as u8,
        (x / 72057594037927936 % 256) as u8,
    ]
}

/// The number that eight little-endian bytes stand for.
pub open spec fn u64_from_le(s: Seq<u8>) -> int
    recommends
        s.len() == 8,
{
    s[0] + 256 * s[1] + 65536 * s[2] + 16777216 * s[3] + 4294967296 * s[4] + 1099511627776 * s[5]
        + 281474976710656 * s[6] + 72057594037927936 * s[7]
}

/// Dividing by 256 and keeping the remainder undoes `256 * high + low`.
proof fn lemma_split_byte(v: int, high: int, low: int)
    requires
        v == 256 * high + low,
        0 <= low < 256,
    ensures
        v / 256 == high,
        v % 256 == low,
{
}

/// Decoding the encoding of a 32-bit number gives the number back.
pub proof fn lemma_u32_round_trip(x: u32)
    ensures
        u32_le(x).len() == 4,
        u32_from_le(u32_le(x)) == x,
{
    let q1: u32 = x / 256;
    let q2: u32 = q1 / 256;
    let q3: u32 = q2 / 256;
    assert(x / 65536 == x / 256 / 256) by (bit_vector);
    assert(x / 16777216 == x / 256 / 256 / 256) by (bit_vector);
    assert(q3 < 256);
}

/// Four bytes always decode to a number that fits in 32 bits, and encoding
/// that number gives the same four bytes.
pub proof fn lemma_u32_bytes_round_trip(s: Seq<u8>)
    requires
        s.len() == 4,
    ensures
        0 <= u32_from_le(s) <= u32::MAX,
        u32_le(u32_from_le(s) as u32) == s,
{
    let x: u32 = u32_from_le(s) as u32;
    let k3: int = s[3] as int;
    let k2: int = s[2] + 256 * k3;
    let k1: int = s[1] + 256 * k2;
    lemma_split_byte(x as int, k1, s[0] as int);
    lemma_split_byte(k1, k2, s[1] as int);
    lemma_split_byte(k2, k3, s[2] as int);
    assert(x / 65536 == x / 256 / 256) by (bit_vector);
    assert(x / 16777216 == x / 256 / 256 / 256) by (bit_vector);
    assert(u32_le(x) =~= s);
}

/// Decoding the encoding of a 64-bit number gives the number back.
pub proof fn lemma_u64_round_trip(x: u64)
    ensures
        u64_le(x).len() == 8,
        u64_from_le(u64_le(x)) == x,
{
    let q1: u64 = x / 256;
    let q2: u64 = q1 / 256;
    let q3: u64 = q2 / 256;
    let q4: u64 = q3 / 256;
    let q5: u64 = q4 / 256;
    let q6: u64 = q5 / 256;
    let q7: u64 = q6 / 256;
    assert(x / 65536 == x / 256 / 256) by (bit_vector);
    assert(x / 16777216 == x / 256 / 256 / 256) by (bit_vector);
    assert(x / 4294967296 == x / 256 / 256 / 256 / 256) by (bit_vector);
    assert(x / 1099511627776 == x / 256 / 256 / 256 / 256 / 256) by (bit_vector);
    assert(x / 281474976710656 == x / 256 / 256 / 256 / 256 / 256 / 256) by (bit_vector);
    assert(x / 72057594037927936 == x / 256 / 256 / 256 / 256 / 256 / 256 / 256) by (bit_vector);
    assert(q7 < 256);
    assert(q6 == 256 * q7 + q6 % 256);
    assert(q5 == 256 * q6 + q5 % 256);
    assert(q4 == 256 * q5 + q4 % 256);
    assert(q3 == 256 * q4 + q3 % 256);
    assert(q2 == 256 * q3 + q2 % 256);
    assert(q1 == 256 * q2 + q1 % 256);
    assert(x == 256 * q1 + x % 256);
}

/// Eight bytes always decode to a number that fits in 64 bits, and encoding
/// that number gives the same eight bytes.
pub proof fn lemma_u64_bytes_round_trip(s: Seq<u8>)
    requires
        s.len() == 8,
    ensures
        0 <= u64_from_le(s) <= u64::MAX,
        u64_le(u64_from_le(s) as u64) == s,
{
    let x: u64 = u64_from_le(s) as u64;
    let k7: int = s[7] as int;
    let k6: int = s[6] + 256 * k7;
    let k5: int = s[5] + 256 * k6;
    let k4: int = s[4] + 256 * k5;
    let k3: int = s[3] + 256 * k4;
    let k2: int = s[2] + 256 * k3;
    let k1: int = s[1] + 256 * k2;
    assert(x == s[0] + 256 * k1);
    lemma_split_byte(x as int, k1, s[0] as int);
    lemma_split_byte(k1, k2, s[1] as int);
    lemma_split_byte(k2, k3, s[2] as int);
    lemma_split_byte(k3, k4, s[3] as int);
    lemma_split_byte(k4, k5, s[4] as int);
    lemma_split_byte(k5, k6, s[5] as int);
    lemma_split_byte(k6, k7, s[6] as int);
    assert(x / 65536 == x / 256 / 256) by (bit_vector);
    assert(x / 16777216 == x / 256 / 256 / 256) by (bit_vector);
    assert(x / 4294967296 == x / 256 / 256 / 256 / 256) by (bit_vector);
    assert(x / 1099511627776 == x / 256 / 256 / 256 / 256 / 256) by (bit_vector);
    assert(x / 281474976710656 == x / 256 / 256 / 256 / 256 / 256 / 256) by (bit_vector);
    assert(x / 72057594037927936 == x / 256 / 256 / 256 / 256 / 256 / 256 / 256) by (bit_vector);
    assert(u64_le(x) =~= s);
}

/// Appends the four little-endian bytes of `x` to `out`.
pub fn push_u32_le(out: &mut Vec<u8>, x: u32)
    ensures
        final(out)@ == old(out)@ + u32_le(x),
{
    out.push((x % 256) as u8);
    out.push((x / 256 % 256) as u8);
    out.push((x / 65536 % 256) as u8);
    out.push((x / 16777216 % 256) as u8);
    assert(out@ =~= old(out)@ + u32_le(x));
}

/// Appends the eight little-endian bytes of `x` to `out`.
pub fn push_u64_le(out: &mut Vec<u8>, x: u64)
    ensures
        final(out)@ == old(out)@ + u64_le(x),
{
    out.push((x % 256) as u8);
    out.push((x / 256 % 256) as u8);
    out.push((x / 65536 % 256) as u8);
    out.push((x / 16777216 % 256) as u8);
    out.push((x / 4294967296 % 256) as u8);
    out.push((x / 1099511627776 % 256) as u8);
    out.push((x / 281474976710656 % 256) as u8);
    out.push((x / 72057594037927936 % 256) as u8);
    assert(out@ =~= old(out)@ + u64_le(x));
}

/// Reads the 32-bit little-endian number that starts at index `at`.
pub fn read_u32_le(bytes: &[u8], at: usize) -> (x: u32)
    requires
        at + 4 <= bytes@.len(),
    ensures
        x == u32_from_le(bytes@.subrange(at as int, at + 4)),
{
    let b0: u32 = bytes[at] as u32;
    let b1: u32 = bytes[at + 1] as u32;
    let b2: u32 = bytes[at + 2] as u32;
    let b3: u32 = bytes[at + 3] as u32;
    b0 + 256 * b1 + 65536 * b2 + 16777216 * b3
}

/// Reads the 64-bit little-endian number that starts at index `at`.
pub fn read_u64_le(bytes: &[u8], at: usize) -> (x: u64)
    requires
        at + 8 <= bytes@.len(),
    ensures
        x == u64_from_le(bytes@.subrange(at as int, at + 8)),
{
    let b0: u64 = bytes[at] as u64;
    let b1: u64 = bytes[at + 1] as u64;
    let b2: u64 = bytes[at + 2] as u64;
    let b3: u64 = bytes[at + 3] as u64;
    let b4: u64 = bytes[at + 4] as u64;
    let b5: u64 = bytes[at + 5] as u64;
    let b6: u64 = bytes[at + 6] as u64;
    let b7: u64 = bytes[at + 7] as u64;
    b0 + 256 * b1 + 65536 * b2 + 16777216 * b3 + 4294967296 * b4 + 1099511627776 * b5
        + 281474976710656 * b6 + 72057594037927936 * b7
}

} // verus!
