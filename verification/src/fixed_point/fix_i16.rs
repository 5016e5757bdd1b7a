use vstd::prelude::*;
use super::{pow2_u64, clamp, scaled_down_signed, lemma_pow2_bounds};

verus! {

/// Divides by `2^shift` rounding to nearest, halves away from zero; the
/// rounding addend saturates at the type's bounds and the result is never
/// taken from `i16::MIN`.
pub fn scaled_down(raw: i16, shift: u8) -> (r: i16)
    requires
        0 < shift < 16,
    ensures
        r == scaled_down_signed(raw as int, shift as nat, i16::MIN as int, i16::MAX as int),
{
    proof {
        lemma_pow2_bounds((shift - 1) as nat);
        lemma_pow2_bounds(shift as nat);
    }
    let half = pow2_u64(shift - 1) as i32;
    let wide = raw as i32;
    let biased: i32 = if wide > 0 {
        wide + half
    } else if wide < 0 {
        wide - half
    } else {
        wide
    };
    let lo: i32 = i16::MIN as i32 + 1;
    let hi: i32 = i16::MAX as i32;
    let m: i32 = if biased < lo {
        lo
    } else if biased > hi {
        hi
    } else {
        biased
    };
    assert(m == clamp(biased as int, i16::MIN as int + 1, i16::MAX as int));
    let p = pow2_u64(shift) as u32;
    if m >= 0 {
        let q = (m as u32) / p;
        proof {
            assert(q <= m) by (nonlinear_arith)
                requires p >= 1, m >= 0, q == m as int / p as int;
        }
        q as i16
    } else {
        let q = ((-m) as u32) / p;
        proof {
            assert(q <= -m) by (nonlinear_arith)
                requires p >= 1, -m >= 0, q == (-m) as int / p as int;
        }
        -(q as i16)
    }
}

/// Rounding down is odd: scaling the opposite of a value gives the opposite
/// result, for every value but `i16::MIN`.
pub proof fn lemma_scaled_down_odd(raw: i16, shift: u8)
    requires
        0 < shift < 16,
        raw != i16::MIN,
    ensures
        scaled_down_signed(-raw, shift as nat, i16::MIN as int, i16::MAX as int)
            == -scaled_down_signed(raw as int, shift as nat, i16::MIN as int, i16::MAX as int),
{
    lemma_pow2_bounds((shift - 1) as nat);
    lemma_pow2_bounds(shift as nat);
}

} // verus!
