use vstd::prelude::*;
use vstd::arithmetic::power2::pow2;
use vstd::bits::{lemma_u32_shr_is_div, lemma_u32_pow2_no_overflow, lemma_u32_shl_is_mul};
use super::{FixU32, FixU64, fix_u64, shl_u32, shl_u64, scaled_down_unsigned, rescale_unsigned, rescale_unsigned_ok};
use vstd::arithmetic::power2::{lemma2_to64, lemma2_to64_rest};
use vstd::std_specs::bits::{u32_leading_zeros, axiom_u32_leading_zeros};
use super::FixI32;
use super::types::Log2D;
use crate::lut::log2::Log2Lut;

verus! {

/// Divides by `2^shift` rounding to nearest, halves upwards; the rounding
/// addend saturates at `u32::MAX`.
pub fn scaled_down(raw: u32, shift: u8) -> (r: u32)
    requires
        0 < shift < 32,
    ensures
        r == scaled_down_unsigned(raw as int, shift as nat, u32::MAX as int),
{
    proof {
        lemma_u32_pow2_no_overflow((shift - 1) as nat);
        lemma_u32_shl_is_mul(1, (shift - 1) as u32);
        lemma_u32_shr_is_div(raw.saturating_add(1u32 << ((shift - 1) as u32)), shift as u32);
    }
    let half: u32 = 1u32 << ((shift - 1) as u32);
    let biased = raw.saturating_add(half);
    biased >> (shift as u32)
}

/// The raw value of the product of two unsigned numbers whose fractional
/// bits add up to `total_fract`, in a format with `result_fract` fractional
/// bits: rounded to nearest when bits are dropped, exact when bits are added.
pub open spec fn mul_spec(product: int, total_fract: nat, result_fract: nat) -> int {
    if total_fract > result_fract {
        scaled_down_unsigned(product, (total_fract - result_fract) as nat, u64::MAX as int)
    } else {
        product * pow2((result_fract - total_fract) as nat)
    }
}

/// The product of two unsigned 32-bit numbers in a third format; the result
/// must fit and be in bounds.
pub fn mul<A: FixU32, B: FixU32, R: FixU32>(a: &A, b: &B) -> (r: R)
    requires
        A::fract_bits() + B::fract_bits() > R::fract_bits() ==> A::fract_bits() + B::fract_bits() - R::fract_bits() < 64,
        mul_spec(a.raw_of() * b.raw_of(), A::fract_bits() + B::fract_bits(), R::fract_bits()) <= u32::MAX,
        R::raw_ok(mul_spec(a.raw_of() * b.raw_of(), A::fract_bits() + B::fract_bits(), R::fract_bits()) as u32),
    ensures
        r.raw_of() == mul_spec(a.raw_of() * b.raw_of(), A::fract_bits() + B::fract_bits(), R::fract_bits()),
{
    proof {
        A::lemma_fract_bits_bound();
        B::lemma_fract_bits_bound();
        R::lemma_fract_bits_bound();
        let (x, y) = (a.raw_of(), b.raw_of());
        assert(x * y <= u64::MAX) by (nonlinear_arith)
            requires x <= u32::MAX, y <= u32::MAX, x >= 0, y >= 0;
        assert(x * y >= 0) by (nonlinear_arith)
            requires x >= 0, y >= 0;
    }
    let mul_raw = a.raw() as u64 * b.raw() as u64;
    let total_fract_bits = A::fractional_bits() + B::fractional_bits();
    let rf = R::fractional_bits();
    if total_fract_bits > rf {
        let result_wide = fix_u64::scaled_down(mul_raw, total_fract_bits - rf);
        R::new(result_wide as u32, rf)
    } else {
        let result_wide = shl_u64(mul_raw, rf - total_fract_bits);
        R::new(result_wide as u32, rf)
    }
}

/// The product of two unsigned 32-bit numbers in a 64-bit format.
pub fn mul_wide<A: FixU32, B: FixU32, R: FixU64>(a: &A, b: &B) -> (r: R)
    requires
        A::fract_bits() + B::fract_bits() > R::fract_bits() ==> A::fract_bits() + B::fract_bits() - R::fract_bits() < 64,
        A::fract_bits() + B::fract_bits() <= R::fract_bits() ==> R::fract_bits() - (A::fract_bits() + B::fract_bits()) < 64,
        mul_spec(a.raw_of() * b.raw_of(), A::fract_bits() + B::fract_bits(), R::fract_bits()) <= u64::MAX,
        R::raw_ok(mul_spec(a.raw_of() * b.raw_of(), A::fract_bits() + B::fract_bits(), R::fract_bits()) as u64),
    ensures
        r.raw_of() == mul_spec(a.raw_of() * b.raw_of(), A::fract_bits() + B::fract_bits(), R::fract_bits()),
{
    proof {
        A::lemma_fract_bits_bound();
        B::lemma_fract_bits_bound();
        R::lemma_fract_bits_bound();
        let (x, y) = (a.raw_of(), b.raw_of());
        assert(x * y <= u64::MAX) by (nonlinear_arith)
            requires x <= u32::MAX, y <= u32::MAX, x >= 0, y >= 0;
        assert(x * y >= 0) by (nonlinear_arith)
            requires x >= 0, y >= 0;
    }
    let mul_raw = a.raw() as u64 * b.raw() as u64;
    let total_fract_bits = A::fractional_bits() + B::fractional_bits();
    let rf = R::fractional_bits();
    if total_fract_bits > rf {
        R::new(fix_u64::scaled_down(mul_raw, total_fract_bits - rf), rf)
    } else {
        R::new(shl_u64(mul_raw, rf - total_fract_bits), rf)
    }
}

/// The number in another unsigned 32-bit format.
pub fn to_fix_u32<S: FixU32, R: FixU32>(x: &S) -> (r: R)
    requires
        rescale_unsigned_ok(x.raw_of() as int, S::fract_bits(), R::fract_bits(), 32),
        R::raw_ok(rescale_unsigned(x.raw_of() as int, S::fract_bits(), R::fract_bits(), u32::MAX as int) as u32),
    ensures
        r.raw_of() == rescale_unsigned(x.raw_of() as int, S::fract_bits(), R::fract_bits(), u32::MAX as int),
{
    let raw = x.raw();
    let sf = S::fractional_bits();
    let rf = R::fractional_bits();
    if sf > rf {
        R::new(scaled_down(raw, sf - rf), rf)
    } else {
        proof {
            lemma2_to64();
        }
        R::new(shl_u32(raw, rf - sf), rf)
    }
}

/// The number in an unsigned 64-bit format.
pub fn to_fix_u64<S: FixU32, R: FixU64>(x: &S) -> (r: R)
    requires
        rescale_unsigned_ok(x.raw_of() as int, S::fract_bits(), R::fract_bits(), 64),
        R::raw_ok(rescale_unsigned(x.raw_of() as int, S::fract_bits(), R::fract_bits(), u64::MAX as int) as u64),
    ensures
        r.raw_of() == rescale_unsigned(x.raw_of() as int, S::fract_bits(), R::fract_bits(), u64::MAX as int),
{
    let raw = x.raw() as u64;
    let sf = S::fractional_bits();
    let rf = R::fractional_bits();
    if sf > rf {
        R::new(fix_u64::scaled_down(raw, sf - rf), rf)
    } else {
        proof {
            lemma2_to64_rest();
        }
        R::new(shl_u64(raw, rf - sf), rf)
    }
}

/// The twelve bits of a nonzero number that start at its highest set bit.
pub open spec fn top_bits(raw: u32) -> u32 {
    (raw << u32_leading_zeros(raw)) >> 20u32
}

proof fn lemma_top_bits(raw: u32, lz: u32)
    by (bit_vector)
    requires
        lz < 32,
        (raw >> ((31 - lz) as u32)) & 1u32 != 0u32,
        raw >> ((32 - lz) as u32) == 0u32,
    ensures
        2048u32 <= (raw << lz) >> 20u32 < 4096u32,
{
}

/// The binary logarithm, with 11 fractional bits, of the nonzero raw value
/// `raw` scaled by `2^fract_bits`: the table entry and the fractional part
/// of the top twelve bits, plus the position of the highest set bit.
pub open spec fn log2_spec(lut: &Log2Lut, raw: u32, fract_bits: nat) -> int {
    lut.entry(top_bits(raw) - 2048) + (top_bits(raw) - 2048)
        + (32 - fract_bits - u32_leading_zeros(raw) - 1) * 2048
}

/// The binary logarithm of a nonzero number with 11 fractional bits: the
/// position of its highest set bit gives the integral part and the table
/// gives the fractional part from the twelve bits that start there.
pub fn log2<S: FixU32>(x: &S, lut: &Log2Lut) -> (r: Log2D)
    requires
        x.raw_of() != 0,
    ensures
        2048 <= top_bits(x.raw_of()) < 4096,
        r.raw_of() == log2_spec(lut, x.raw_of(), S::fract_bits()),
        -0x2_0000 <= r.raw_of() <= 0x2_0000,
{
    let raw = x.raw();
    let leading_zeros = raw.leading_zeros();
    proof {
        axiom_u32_leading_zeros(raw);
        lemma_top_bits(raw, leading_zeros);
        S::lemma_fract_bits_bound();
    }
    let raw_shifted = (raw << leading_zeros) >> 20u32;
    let result_fract = lut.log2_restricted(raw_shifted) as i32;
    let result_trunc = (32 - S::fractional_bits() as i32) - leading_zeros as i32 - 1;
    let result = result_fract + result_trunc * 2048;
    Log2D::new(result, 11)
}

} // verus!
