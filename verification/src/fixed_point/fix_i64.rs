use vstd::prelude::*;
use vstd::arithmetic::power2::pow2;
use super::{pow2_u64, clamp, scaled_down_signed, lemma_pow2_bounds, FixI32, FixI64, rescale_signed, rescale_signed_ok};

verus! {

/// Divides by `2^shift` rounding to nearest, halves away from zero; the
/// rounding addend saturates at the type's bounds and the result is never
/// taken from `i64::MIN`.
pub fn scaled_down(raw: i64, shift: u8) -> (r: i64)
    requires
        0 < shift < 64,
    ensures
        r == scaled_down_signed(raw as int, shift as nat, i64::MIN as int, i64::MAX as int),
{
    proof {
        lemma_pow2_bounds((shift - 1) as nat);
        lemma_pow2_bounds(shift as nat);
    }
    let half = pow2_u64(shift - 1) as i128;
    let wide = raw as i128;
    let biased: i128 = if wide > 0 {
        wide + half
    } else if wide < 0 {
        wide - half
    } else {
        wide
    };
    let lo: i128 = i64::MIN as i128 + 1;
    let hi: i128 = i64::MAX as i128;
    let m: i128 = if biased < lo {
        lo
    } else if biased > hi {
        hi
    } else {
        biased
    };
    assert(m == clamp(biased as int, i64::MIN as int + 1, i64::MAX as int));
    let p = pow2_u64(shift) as u128;
    if m >= 0 {
        let q = (m as u128) / p;
        proof {
            assert(q <= m) by (nonlinear_arith)
                requires p >= 1, m >= 0, q == m as int / p as int;
        }
        q as i64
    } else {
        let q = ((-m) as u128) / p;
        proof {
            assert(q <= -m) by (nonlinear_arith)
                requires p >= 1, -m >= 0, q == (-m) as int / p as int;
        }
        -(q as i64)
    }
}

/// Rounding down is odd: scaling the opposite of a value gives the opposite
/// result, for every value but `i64::MIN`.
pub proof fn lemma_scaled_down_odd(raw: i64, shift: u8)
    requires
        0 < shift < 64,
        raw != i64::MIN,
    ensures
        scaled_down_signed(-raw, shift as nat, i64::MIN as int, i64::MAX as int)
            == -scaled_down_signed(raw as int, shift as nat, i64::MIN as int, i64::MAX as int),
{
    lemma_pow2_bounds((shift - 1) as nat);
    lemma_pow2_bounds(shift as nat);
}

/// `raw * 2^shift`, which must fit into an `i64`.
pub fn shl_checked(raw: i64, shift: u8) -> (r: i64)
    requires
        shift < 64,
        i64::MIN <= raw * pow2(shift as nat) <= i64::MAX,
    ensures
        r == raw * pow2(shift as nat),
{
    let p = pow2_u64(shift) as i128;
    proof {
        lemma_pow2_bounds(shift as nat);
        assert(raw * p <= i128::MAX && raw * p >= i128::MIN) by (nonlinear_arith)
            requires p <= 0x8000_0000_0000_0000, p >= 1, raw <= i64::MAX, raw >= i64::MIN;
    }
    ((raw as i128) * p) as i64
}

/// The number in another signed 64-bit format.
pub fn to_fix_i64<S: FixI64, R: FixI64>(x: &S) -> (r: R)
    requires
        rescale_signed_ok(x.raw_of() as int, S::fract_bits(), R::fract_bits(), 64, i64::MIN as int, i64::MAX as int),
        R::raw_ok(rescale_signed(x.raw_of() as int, S::fract_bits(), R::fract_bits(), i64::MIN as int, i64::MAX as int) as i64),
    ensures
        r.raw_of() == rescale_signed(x.raw_of() as int, S::fract_bits(), R::fract_bits(), i64::MIN as int, i64::MAX as int),
{
    let raw = x.raw();
    let sf = S::fractional_bits();
    let rf = R::fractional_bits();
    if sf > rf {
        R::new(scaled_down(raw, sf - rf), rf)
    } else {
        R::new(shl_checked(raw, rf - sf), rf)
    }
}

/// The number narrowed to a signed 32-bit format; the result must fit.
pub fn to_fix_i32<S: FixI64, R: FixI32>(x: &S) -> (r: R)
    requires
        rescale_signed_ok(x.raw_of() as int, S::fract_bits(), R::fract_bits(), 64, i32::MIN as int, i32::MAX as int),
        R::raw_ok(rescale_signed(x.raw_of() as int, S::fract_bits(), R::fract_bits(), i64::MIN as int, i64::MAX as int) as i32),
        i32::MIN <= rescale_signed(x.raw_of() as int, S::fract_bits(), R::fract_bits(), i64::MIN as int, i64::MAX as int) <= i32::MAX,
    ensures
        r.raw_of() == rescale_signed(x.raw_of() as int, S::fract_bits(), R::fract_bits(), i64::MIN as int, i64::MAX as int),
{
    let raw = x.raw();
    let sf = S::fractional_bits();
    let rf = R::fractional_bits();
    proof {
        R::lemma_fract_bits_bound();
    }
    if sf > rf {
        R::new(scaled_down(raw, sf - rf) as i32, rf)
    } else {
        R::new(shl_checked(raw, rf - sf) as i32, rf)
    }
}

} // verus!
