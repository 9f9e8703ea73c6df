//! Distance keys: ray parameters and coordinates as unsigned integers that
//! sort the way the numbers do.
//!
//! A number arrives as the 64-bit pattern of a binary sign-magnitude
//! number: the top bit is the sign, the remaining bits grow with the
//! magnitude. Patterns of that shape do not sort as integers, since
//! negative ones sort in reverse and above the positive ones. The key
//! of a pattern is its rank on the number line, shifted above zero. The two
//! zeros, which differ in sign only, share one rank and one key.

use vstd::prelude::*;

verus! {

/// The sign bit of a pattern.
pub const SIGN_BIT: u64 = 0x8000_0000_0000_0000;

/// The magnitude bits of a pattern.
pub const MAGNITUDE_BITS: u64 = 0x7fff_ffff_ffff_ffff;

/// The least magnitude that no longer stands for a finite number: the one
/// of infinity. Every larger magnitude stands for no number at all.
pub const INFINITE_MAGNITUDE: u64 = 0x7ff0_0000_0000_0000;

/// Whether the pattern carries a minus sign.
pub open spec fn is_negative(bits: u64) -> bool {
    bits & SIGN_BIT != 0
}

/// The magnitude that the pattern carries.
pub open spec fn magnitude(bits: u64) -> int {
    (bits & MAGNITUDE_BITS) as int
}

/// Whether the pattern stands for a finite number.
pub open spec fn is_finite(bits: u64) -> bool {
    magnitude(bits) < INFINITE_MAGNITUDE
}

/// Place of the pattern on the number line: its magnitude, counted
/// downwards from zero under a minus sign.
pub open spec fn rank(bits: u64) -> int {
    if is_negative(bits) {
        -magnitude(bits)
    } else {
        magnitude(bits)
    }
}

/// The key of a pattern: its rank, shifted into the unsigned range.
pub open spec fn spec_distance_key(bits: u64) -> u64 {
    (rank(bits) + 0x8000_0000_0000_0000) as u64
}

/// The key of a pattern. Keys compare as the ranks of their patterns do.
pub fn distance_key(bits: u64) -> (key: u64)
    ensures
        key == spec_distance_key(bits),
        key as int == rank(bits) + 0x8000_0000_0000_0000,
        key >= 1,
{
    if bits & SIGN_BIT != 0 {
        let flipped: u64 = !bits;
        assert(flipped == 0x7fff_ffff_ffff_ffffu64 - (bits & 0x7fff_ffff_ffff_ffffu64)) by (bit_vector)
            requires
                bits & 0x8000_0000_0000_0000u64 != 0,
                flipped == !bits,
        ;
        flipped + 1
    } else {
        assert(bits | 0x8000_0000_0000_0000u64 == (bits & 0x7fff_ffff_ffff_ffffu64)
            + 0x8000_0000_0000_0000u64) by (bit_vector)
            requires
                bits & 0x8000_0000_0000_0000u64 == 0,
        ;
        bits | SIGN_BIT
    }
}

/// A pattern that the key stands for: the one without a sign where both
/// zeros have the key. Zero is the key of no pattern.
pub fn key_bits(key: u64) -> (bits: Option<u64>)
    ensures
        bits.is_some() <==> key >= 1,
        bits matches Some(b) ==> spec_distance_key(b) == key && (key == SIGN_BIT ==> b == 0),
{
    if key == 0 {
        None
    } else if key >= SIGN_BIT {
        let bits: u64 = key - SIGN_BIT;
        assert(bits & 0x8000_0000_0000_0000u64 == 0 && bits & 0x7fff_ffff_ffff_ffffu64 == bits)
            by (bit_vector)
            requires
                bits < 0x8000_0000_0000_0000u64,
        ;
        Some(bits)
    } else {
        let mag: u64 = SIGN_BIT - key;
        let bits: u64 = mag | SIGN_BIT;
        assert(bits & 0x8000_0000_0000_0000u64 != 0 && bits & 0x7fff_ffff_ffff_ffffu64 == mag)
            by (bit_vector)
            requires
                mag < 0x8000_0000_0000_0000u64,
                bits == mag | 0x8000_0000_0000_0000u64,
        ;
        Some(bits)
    }
}

/// Keys order patterns as their ranks do; two patterns share a key exactly
/// when they are the same pattern or the two zeros.
pub proof fn lemma_key_order(a: u64, b: u64)
    ensures
        spec_distance_key(a) < spec_distance_key(b) <==> rank(a) < rank(b),
        spec_distance_key(a) == spec_distance_key(b) <==> (a == b || (magnitude(a) == 0
            && magnitude(b) == 0)),
        spec_distance_key(a) as int == rank(a) + 0x8000_0000_0000_0000,
        spec_distance_key(b) as int == rank(b) + 0x8000_0000_0000_0000,
        spec_distance_key(a) >= 1,
{
    assert((a & 0x7fff_ffff_ffff_ffffu64) <= 0x7fff_ffff_ffff_ffffu64) by (bit_vector);
    assert((b & 0x7fff_ffff_ffff_ffffu64) <= 0x7fff_ffff_ffff_ffffu64) by (bit_vector);
    assert(((a & 0x8000_0000_0000_0000u64 != 0) == (b & 0x8000_0000_0000_0000u64 != 0) && (a
        & 0x7fff_ffff_ffff_ffffu64) == (b & 0x7fff_ffff_ffff_ffffu64)) ==> a == b)
        by (bit_vector);
}

/// Among patterns of one sign, a larger magnitude lies further from zero:
/// above for the positive ones, below for the negative ones; and no
/// negative pattern lies above a positive one.
pub proof fn lemma_rank_by_sign(a: u64, b: u64)
    ensures
        !is_negative(a) && !is_negative(b) ==> (rank(a) < rank(b) <==> magnitude(a) < magnitude(
            b,
        )),
        is_negative(a) && is_negative(b) ==> (rank(a) < rank(b) <==> magnitude(a) > magnitude(b)),
        is_negative(a) && !is_negative(b) ==> rank(a) <= rank(b),
{
    assert((a & 0x7fff_ffff_ffff_ffffu64) <= 0x7fff_ffff_ffff_ffffu64) by (bit_vector);
    assert((b & 0x7fff_ffff_ffff_ffffu64) <= 0x7fff_ffff_ffff_ffffu64) by (bit_vector);
}

/// A pattern that stands for no finite number lies outside every closed
/// range between finite numbers: above it without a sign, below it with one.
pub proof fn lemma_not_finite_outside(x: u64, lo: u64, hi: u64)
    requires
        !is_finite(x),
        is_finite(lo),
        is_finite(hi),
    ensures
        !(spec_distance_key(lo) <= spec_distance_key(x) && spec_distance_key(x)
            <= spec_distance_key(hi)),
        is_negative(x) ==> spec_distance_key(x) < spec_distance_key(lo),
        !is_negative(x) ==> spec_distance_key(x) > spec_distance_key(hi),
{
    assert((x & 0x7fff_ffff_ffff_ffffu64) <= 0x7fff_ffff_ffff_ffffu64) by (bit_vector);
    assert((lo & 0x7fff_ffff_ffff_ffffu64) <= 0x7fff_ffff_ffff_ffffu64) by (bit_vector);
    assert((hi & 0x7fff_ffff_ffff_ffffu64) <= 0x7fff_ffff_ffff_ffffu64) by (bit_vector);
}

} // verus!
