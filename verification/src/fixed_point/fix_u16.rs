use vstd::prelude::*;
use vstd::bits::{lemma_u16_shr_is_div, lemma_u16_pow2_no_overflow, lemma_u16_shl_is_mul};
use super::scaled_down_unsigned;

verus! {

/// Divides by `2^shift` rounding to nearest, halves upwards; the rounding
/// addend saturates at `u16::MAX`.
pub fn scaled_down(raw: u16, shift: u8) -> (r: u16)
    requires
        0 < shift < 16,
    ensures
        r == scaled_down_unsigned(raw as int, shift as nat, u16::MAX as int),
{
    proof {
        lemma_u16_pow2_no_overflow((shift - 1) as nat);
        lemma_u16_shl_is_mul(1, (shift - 1) as u16);
        lemma_u16_shr_is_div(raw.saturating_add(1u16 << ((shift - 1) as u16)), shift as u16);
    }
    let half: u16 = 1u16 << ((shift - 1) as u16);
    let biased = raw.saturating_add(half);
    biased >> (shift as u16)
}

} // verus!
