use vstd::prelude::*;
use vstd::arithmetic::power2::pow2;
use vstd::bits::{lemma_u32_pow2_no_overflow, lemma_u32_shl_is_mul};

verus! {

/// The largest level that `bits` bits can hold: `2^bits - 1`, or `u32::MAX` from 32 bits on.
pub open spec fn max_level(bits: usize) -> int {
    if bits >= 32 {
        u32::MAX as int
    } else {
        pow2(bits as nat) - 1
    }
}

/// `level` held to at most `max_level(bits)`.
pub open spec fn clamped(level: u32, bits: usize) -> u32 {
    if level as int > max_level(bits) {
        max_level(bits) as u32
    } else {
        level
    }
}

/// Holds a quantized level to the `bits` bits it may use: a level past `2^bits - 1` becomes
/// `2^bits - 1`.
pub fn clamp_level(level: u32, bits: usize) -> (r: u32)
    ensures
        r == clamped(level, bits),
        r as int <= max_level(bits),
{
    if bits >= 32 {
        return level;
    }
    let b = bits as u32;
    proof {
        lemma_u32_pow2_no_overflow(b as nat);
        lemma_u32_shl_is_mul(1, b);
    }
    let top: u32 = (1u32 << b) - 1;
    if level > top {
        top
    } else {
        level
    }
}

/// Holds every coordinate of a quantized point to the `bits` bits it may use.
pub fn clamp_point(point: &Vec<u32>, bits: usize) -> (r: Vec<u32>)
    ensures
        r@.len() == point@.len(),
        forall|d: int| 0 <= d < r@.len() ==> r@[d] == clamped(point@[d], bits),
{
    let mut r: Vec<u32> = Vec::new();
    let mut d: usize = 0;
    while d < point.len()
        invariant
            d <= point.len(),
            r@.len() == d,
            forall|e: int| 0 <= e < d ==> r@[e] == clamped(point@[e], bits),
        decreases point.len() - d,
    {
        r.push(clamp_level(point[d], bits));
        d = d + 1;
    }
    r
}

} // verus!
