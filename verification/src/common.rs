//! Bit-mapping utilities shared by the encoder and the decoder: maps between
//! the "one bit of information" domain (0 or 1) and the "saturated byte lane"
//! domain (0x00 or 0xFF), and the two-bit codes built from two such values.

use vstd::prelude::*;

verus! {

/// Bit masks for the eight bit positions of a byte, least significant first.
pub const BIT_MASK: [u8; 8] = [1, 1 << 1, 1 << 2, 1 << 3, 1 << 4, 1 << 5, 1 << 6, 1 << 7];

/// The one-bit code of a byte-domain value: zero stays zero, anything else is one.
pub open spec fn one_bit(x: u8) -> u8 {
    if x == 0 {
        0
    } else {
        1
    }
}

/// The saturated byte-domain value of a byte: zero stays zero, anything else is 0xFF.
pub open spec fn saturated(x: u8) -> u8 {
    if x == 0 {
        0
    } else {
        0xFF
    }
}

/// The two-bit code built from two byte-domain values, `s1` giving the high bit.
pub open spec fn two_bit(s1: u8, s0: u8) -> u8 {
    (2 * one_bit(s1) + one_bit(s0)) as u8
}

/// True when bit `k` of `x` is set.
pub open spec fn bit_set(x: u8, k: u8) -> bool {
    x & (1u8 << k) != 0
}

/// Number of set bits of a byte.
pub open spec fn pop_count(x: u8) -> int {
    ((x >> 0u8) & 1) + ((x >> 1u8) & 1) + ((x >> 2u8) & 1) + ((x >> 3u8) & 1) + ((x >> 4u8) & 1)
        + ((x >> 5u8) & 1) + ((x >> 6u8) & 1) + ((x >> 7u8) & 1)
}

/// Hamming distance between two bytes: how many bit positions differ.
pub open spec fn hamming(a: u8, b: u8) -> int {
    pop_count(a ^ b)
}

/// Any input >= 1 becomes the desired u8
pub fn map_to(num: u8, desired: u8) -> (r: u8)
    ensures
        r == (if num == 0 {
            0u8
        } else {
            desired
        }),
{
    match num {
        0 => 0,
        _ => desired,
    }
}

/// Any input >= 1 becomes 1
pub fn squish(num: u8) -> (r: u8)
    ensures
        r == one_bit(num),
{
    map_to(num, 1)
}

/// Any input >= 1 becomes 255 (aka `0b11111111`)
pub fn stretch(num: u8) -> (r: u8)
    ensures
        r == saturated(num),
{
    map_to(num, 0xFF)
}

/// combine s1 and s0 into the lower 2 bits of a u8, s1 giving the high bit
pub fn combine(s1: u8, s0: u8) -> (r: u8)
    ensures
        r == two_bit(s1, s0),
        r < 4,
{
    let hi = map_to(s1, 2);
    let lo = squish(s0);
    proof {
        assert((hi | lo) == hi + lo) by (bit_vector)
            requires
                (hi == 0 || hi == 2) && (lo == 0 || lo == 1),
        ;
    }
    hi | lo
}

/// combine s1 and s0 into the lower 2 bits of a u8, s1 giving the high bit
pub fn combine_old(s1: u8, s0: u8) -> (r: u8)
    ensures
        r == two_bit(s1, s0),
        r < 4,
{
    combine(s1, s0)
}

/// Repeating `squish` changes nothing: its range is already the one-bit domain.
pub proof fn lemma_squish_idempotent(x: u8)
    ensures
        one_bit(one_bit(x)) == one_bit(x),
{
}

/// Saturating a squished value saturates the original value.
pub proof fn lemma_stretch_of_squish(x: u8)
    ensures
        saturated(one_bit(x)) == saturated(x),
{
}

/// The Hamming distance of a byte to itself is zero.
pub proof fn lemma_hamming_self(x: u8)
    ensures
        hamming(x, x) == 0,
{
    assert(pop_count(x ^ x) == 0) by (bit_vector);
}

/// The Hamming distance is symmetric in its two arguments.
pub proof fn lemma_hamming_symmetric(a: u8, b: u8)
    ensures
        hamming(a, b) == hamming(b, a),
{
    assert(pop_count(a ^ b) == pop_count(b ^ a)) by (bit_vector);
}

/// The Hamming distance is zero only between equal bytes.
pub proof fn lemma_hamming_zero(a: u8, b: u8)
    ensures
        hamming(a, b) == 0 ==> a == b,
{
    assert(pop_count(a ^ b) == 0 ==> a == b) by (bit_vector);
}

/// Bit `k` of an XOR is the XOR of the bits: XOR never carries across bit
/// positions, which is what lets one byte-wide XOR advance eight lanes.
pub proof fn lemma_bit_set_xor(a: u8, b: u8, k: u8)
    requires
        k < 8,
    ensures
        bit_set(a ^ b, k) == (bit_set(a, k) != bit_set(b, k)),
{
    assert(((a ^ b) & (1u8 << k) != 0) == ((a & (1u8 << k) != 0) != (b & (1u8 << k) != 0)))
        by (bit_vector)
        requires
            k < 8,
    ;
}

/// The zero byte has no bit set.
pub proof fn lemma_bit_set_zero(k: u8)
    requires
        k < 8,
    ensures
        !bit_set(0, k),
{
    assert(0u8 & (1u8 << k) == 0) by (bit_vector)
        requires
            k < 8,
    ;
}

/// The Hamming distance never exceeds the byte width, and distances between
/// two-bit codes never exceed two.
pub proof fn lemma_hamming_bounds(a: u8, b: u8)
    ensures
        0 <= hamming(a, b) <= 8,
        a < 4 && b < 4 ==> hamming(a, b) <= 2,
{
    assert(0 <= pop_count(a ^ b) <= 8) by (bit_vector);
    assert(a < 4 && b < 4 ==> pop_count(a ^ b) <= 2) by (bit_vector);
}

} // verus!
