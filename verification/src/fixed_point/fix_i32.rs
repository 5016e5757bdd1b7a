use vstd::prelude::*;
use vstd::arithmetic::power2::pow2;
use super::{pow2_u64, clamp, scaled_down_signed, lemma_pow2_bounds, FixI32, FixI64, fix_i64, rescale_signed, rescale_signed_ok};

verus! {

/// Divides by `2^shift` rounding to nearest, halves away from zero; the
/// rounding addend saturates at the type's bounds and the result is never
/// taken from `i32::MIN`.
pub fn scaled_down(raw: i32, shift: u8) -> (r: i32)
    requires
        0 < shift < 32,
    ensures
        r == scaled_down_signed(raw as int, shift as nat, i32::MIN as int, i32::MAX as int),
{
    proof {
        lemma_pow2_bounds((shift - 1) as nat);
        lemma_pow2_bounds(shift as nat);
    }
    let half = pow2_u64(shift - 1) as i64;
    let wide = raw as i64;
    let biased: i64 = if wide > 0 {
        wide + half
    } else if wide < 0 {
        wide - half
    } else {
        wide
    };
    let lo: i64 = i32::MIN as i64 + 1;
    let hi: i64 = i32::MAX as i64;
    let m: i64 = if biased < lo {
        lo
    } else if biased > hi {
        hi
    } else {
        biased
    };
    assert(m == clamp(biased as int, i32::MIN as int + 1, i32::MAX as int));
    let p = pow2_u64(shift) as u64;
    if m >= 0 {
        let q = (m as u64) / p;
        proof {
            assert(q <= m) by (nonlinear_arith)
                requires p >= 1, m >= 0, q == m as int / p as int;
        }
        q as i32
    } else {
        let q = ((-m) as u64) / p;
        proof {
            assert(q <= -m) by (nonlinear_arith)
                requires p >= 1, -m >= 0, q == (-m) as int / p as int;
        }
        -(q as i32)
    }
}

/// Rounding down is odd: scaling the opposite of a value gives the opposite
/// result, for every value but `i32::MIN`.
pub proof fn lemma_scaled_down_odd(raw: i32, shift: u8)
    requires
        0 < shift < 32,
        raw != i32::MIN,
    ensures
        scaled_down_signed(-raw, shift as nat, i32::MIN as int, i32::MAX as int)
            == -scaled_down_signed(raw as int, shift as nat, i32::MIN as int, i32::MAX as int),
{
    lemma_pow2_bounds((shift - 1) as nat);
    lemma_pow2_bounds(shift as nat);
}

/// The raw value of the product of two signed numbers whose fractional bits
/// add up to `total_fract`, in a format with `result_fract` fractional bits:
/// rounded to nearest (halves away from zero) when bits are dropped, exact
/// when bits are added.
pub open spec fn mul_spec(product: int, total_fract: nat, result_fract: nat) -> int {
    if total_fract > result_fract {
        scaled_down_signed(product, (total_fract - result_fract) as nat, i64::MIN as int, i64::MAX as int)
    } else {
        product * pow2((result_fract - total_fract) as nat)
    }
}

/// The product of two signed 32-bit numbers in a third format; the result
/// must fit and be in bounds.
pub fn mul<A: FixI32, B: FixI32, R: FixI32>(a: &A, b: &B) -> (r: R)
    requires
        i32::MIN <= mul_spec(a.raw_of() * b.raw_of(), A::fract_bits() + B::fract_bits(), R::fract_bits()) <= i32::MAX,
        R::raw_ok(mul_spec(a.raw_of() * b.raw_of(), A::fract_bits() + B::fract_bits(), R::fract_bits()) as i32),
    ensures
        r.raw_of() == mul_spec(a.raw_of() * b.raw_of(), A::fract_bits() + B::fract_bits(), R::fract_bits()),
{
    proof {
        A::lemma_fract_bits_bound();
        B::lemma_fract_bits_bound();
        R::lemma_fract_bits_bound();
        let (x, y) = (a.raw_of(), b.raw_of());
        assert(i64::MIN <= x * y <= i64::MAX) by (nonlinear_arith)
            requires i32::MIN <= x <= i32::MAX, i32::MIN <= y <= i32::MAX;
    }
    let mul_raw = a.raw() as i64 * b.raw() as i64;
    let total_fract_bits = A::fractional_bits() + B::fractional_bits();
    let rf = R::fractional_bits();
    if total_fract_bits > rf {
        let result_wide = fix_i64::scaled_down(mul_raw, total_fract_bits - rf);
        R::new(result_wide as i32, rf)
    } else {
        let result_wide = fix_i64::shl_checked(mul_raw, rf - total_fract_bits);
        R::new(result_wide as i32, rf)
    }
}

/// The product of two signed 32-bit numbers in a 64-bit format.
pub fn mul_wide<A: FixI32, B: FixI32, R: FixI64>(a: &A, b: &B) -> (r: R)
    requires
        i64::MIN <= mul_spec(a.raw_of() * b.raw_of(), A::fract_bits() + B::fract_bits(), R::fract_bits()) <= i64::MAX,
        R::raw_ok(mul_spec(a.raw_of() * b.raw_of(), A::fract_bits() + B::fract_bits(), R::fract_bits()) as i64),
    ensures
        r.raw_of() == mul_spec(a.raw_of() * b.raw_of(), A::fract_bits() + B::fract_bits(), R::fract_bits()),
{
    proof {
        A::lemma_fract_bits_bound();
        B::lemma_fract_bits_bound();
        R::lemma_fract_bits_bound();
        let (x, y) = (a.raw_of(), b.raw_of());
        assert(i64::MIN <= x * y <= i64::MAX) by (nonlinear_arith)
            requires i32::MIN <= x <= i32::MAX, i32::MIN <= y <= i32::MAX;
    }
    let mul_raw = a.raw() as i64 * b.raw() as i64;
    let total_fract_bits = A::fractional_bits() + B::fractional_bits();
    let rf = R::fractional_bits();
    if total_fract_bits > rf {
        R::new(fix_i64::scaled_down(mul_raw, total_fract_bits - rf), rf)
    } else {
        R::new(fix_i64::shl_checked(mul_raw, rf - total_fract_bits), rf)
    }
}

/// The product is odd in its first factor: negating it negates the result,
/// whenever the factor is not `i32::MIN`.
pub proof fn lemma_mul_odd(x: i32, y: i32, total_fract: nat, result_fract: nat)
    requires
        x != i32::MIN,
        total_fract > result_fract ==> total_fract - result_fract < 64,
    ensures
        mul_spec((-x) * y, total_fract, result_fract) == -mul_spec(x * y, total_fract, result_fract),
{
    assert(i64::MIN < x * y <= i64::MAX) by (nonlinear_arith)
        requires i32::MIN < x <= i32::MAX, i32::MIN <= y <= i32::MAX;
    assert((-x) * y == -(x * y)) by (nonlinear_arith);
    if total_fract > result_fract {
        let s = (total_fract - result_fract) as u8;
        fix_i64::lemma_scaled_down_odd((x * y) as i64, s);
    } else {
        assert(((-x) * y) * pow2((result_fract - total_fract) as nat)
            == -((x * y) * pow2((result_fract - total_fract) as nat))) by (nonlinear_arith);
    }
}

/// The product does not depend on the order of the factors.
pub proof fn lemma_mul_commutative(x: i32, y: i32, fx: nat, fy: nat, result_fract: nat)
    ensures
        mul_spec(x * y, fx + fy, result_fract) == mul_spec(y * x, fy + fx, result_fract),
{
    assert(x * y == y * x) by (nonlinear_arith);
}

/// The number in another signed 32-bit format: rounded when fractional
/// bits are dropped, exact when bits are added.
pub fn to_fix_i32<S: FixI32, R: FixI32>(x: &S) -> (r: R)
    requires
        rescale_signed_ok(x.raw_of() as int, S::fract_bits(), R::fract_bits(), 32, i32::MIN as int, i32::MAX as int),
        R::raw_ok(rescale_signed(x.raw_of() as int, S::fract_bits(), R::fract_bits(), i32::MIN as int, i32::MAX as int) as i32),
    ensures
        r.raw_of() == rescale_signed(x.raw_of() as int, S::fract_bits(), R::fract_bits(), i32::MIN as int, i32::MAX as int),
{
    let raw = x.raw();
    let sf = S::fractional_bits();
    let rf = R::fractional_bits();
    if sf > rf {
        R::new(scaled_down(raw, sf - rf), rf)
    } else {
        let v = fix_i64::shl_checked(raw as i64, rf - sf);
        R::new(v as i32, rf)
    }
}

/// The number in a signed 64-bit format.
pub fn to_fix_i64<S: FixI32, R: FixI64>(x: &S) -> (r: R)
    requires
        S::fract_bits() <= R::fract_bits() ==> x.raw_of() * pow2((R::fract_bits() - S::fract_bits()) as nat) <= i64::MAX,
        S::fract_bits() <= R::fract_bits() ==> x.raw_of() * pow2((R::fract_bits() - S::fract_bits()) as nat) >= i64::MIN,
        R::raw_ok(rescale_signed(x.raw_of() as int, S::fract_bits(), R::fract_bits(), i64::MIN as int, i64::MAX as int) as i64),
    ensures
        r.raw_of() == rescale_signed(x.raw_of() as int, S::fract_bits(), R::fract_bits(), i64::MIN as int, i64::MAX as int),
{
    let raw = x.raw() as i64;
    let sf = S::fractional_bits();
    let rf = R::fractional_bits();
    proof {
        S::lemma_fract_bits_bound();
        R::lemma_fract_bits_bound();
    }
    if sf > rf {
        let v = fix_i64::scaled_down(raw, sf - rf);
        R::new(v, rf)
    } else {
        let v = fix_i64::shl_checked(raw, rf - sf);
        R::new(v, rf)
    }
}

} // verus!
