//! Bit-level facts about the half-block masks of a balanced Feistel network.
//!
//! Throughout, `h` is the half width, `rm == (1 << h) - 1` masks the right
//! half and `lm == rm << h` masks the left half of a `2 * h`-bit block.

use vstd::prelude::*;

verus! {

/// Splitting a block into halves yields values that fit the right mask, and
/// a block that fits the full mask is recovered from its halves.
pub(crate) proof fn lemma_mask_split(x: u128, h: u128, rm: u128, lm: u128)
    by (bit_vector)
    requires
        1 <= h <= 64,
        rm == (1u128 << h) - 1,
        lm == rm << h,
    ensures
        ((x & lm) >> h) & rm == (x & lm) >> h,
        (x & rm) & rm == x & rm,
        x & (lm | rm) == x ==> ((((x & lm) >> h) << h) | (x & rm)) == x,
{
}

/// Joining two masked halves yields a block that fits the full mask and
/// splits back into exactly those halves.
pub(crate) proof fn lemma_mask_join(l: u128, r: u128, h: u128, rm: u128, lm: u128)
    by (bit_vector)
    requires
        1 <= h <= 64,
        rm == (1u128 << h) - 1,
        lm == rm << h,
        l & rm == l,
        r & rm == r,
    ensures
        ((l << h) | r) & (lm | rm) == (l << h) | r,
        (((l << h) | r) & lm) >> h == l,
        ((l << h) | r) & rm == r,
{
}

/// Exclusive-or of two values that fit a mask fits the mask.
pub(crate) proof fn lemma_xor_mask(a: u128, b: u128, m: u128)
    by (bit_vector)
    requires
        a & m == a,
        b & m == b,
    ensures
        (a ^ b) & m == a ^ b,
{
}

/// Exclusive-or with the same value twice is the identity.
pub(crate) proof fn lemma_xor_cancel(a: u128, b: u128)
    by (bit_vector)
    ensures
        (a ^ b) ^ b == a,
{
}

/// Masking is idempotent.
pub(crate) proof fn lemma_and_mask_idem(a: u128, m: u128)
    by (bit_vector)
    ensures
        (a & m) & m == a & m,
{
}

/// A value that fits a mask is at most the mask.
pub(crate) proof fn lemma_masked_le(a: u128, m: u128)
    by (bit_vector)
    requires
        a & m == a,
    ensures
        a <= m,
{
}

/// A value at most the full mask fits the full mask (the full mask is a
/// contiguous run of low bits).
pub(crate) proof fn lemma_le_full_mask(x: u128, h: u128, rm: u128, lm: u128)
    by (bit_vector)
    requires
        1 <= h <= 64,
        rm == (1u128 << h) - 1,
        lm == rm << h,
        x <= lm | rm,
    ensures
        x & (lm | rm) == x,
{
}

/// One step of building a low-bits mask by accumulating single bits.
pub(crate) proof fn lemma_mask_step(i: u128, rm: u128)
    by (bit_vector)
    requires
        i < 64,
        rm == (1u128 << i) - 1,
    ensures
        rm | (1u128 << i) == (1u128 << (i + 1)) - 1,
{
}

/// A value whose bits above `2 * h` are clear is at most the full mask.
pub(crate) proof fn lemma_fits_full_mask(x: u128, h: u128, rm: u128, lm: u128)
    by (bit_vector)
    requires
        1 <= h <= 63,
        x >> (2 * h) == 0,
        rm == (1u128 << h) - 1,
        lm == rm << h,
    ensures
        x <= lm | rm,
{
}

/// With half width 64 the full mask covers all of `u128`.
pub(crate) proof fn lemma_full_mask_64(rm: u128, lm: u128)
    by (bit_vector)
    requires
        rm == (1u128 << 64u128) - 1,
        lm == rm << 64u128,
    ensures
        lm | rm == 0xffff_ffff_ffff_ffff_ffff_ffff_ffff_ffffu128,
{
}

} // verus!
