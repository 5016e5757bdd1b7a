use vstd::prelude::*;
use vstd::bits::{lemma_u64_shr_is_div, lemma_u64_pow2_no_overflow, lemma_u64_shl_is_mul};
use super::{scaled_down_unsigned, FixU64, shl_u64, rescale_unsigned, rescale_unsigned_ok};
use vstd::arithmetic::power2::lemma2_to64_rest;
use vstd::std_specs::bits::{u64_leading_zeros, axiom_u64_leading_zeros};
use super::FixI32;
use super::types::Log2D;
use crate::lut::log2::Log2Lut;

verus! {

/// Divides by `2^shift` rounding to nearest, halves upwards; the rounding
/// addend saturates at `u64::MAX`.
pub fn scaled_down(raw: u64, shift: u8) -> (r: u64)
    requires
        0 < shift < 64,
    ensures
        r == scaled_down_unsigned(raw as int, shift as nat, u64::MAX as int),
{
    proof {
        lemma_u64_pow2_no_overflow((shift - 1) as nat);
        lemma_u64_shl_is_mul(1, (shift - 1) as u64);
        lemma_u64_shr_is_div(raw.saturating_add(1u64 << ((shift - 1) as u64)), shift as u64);
    }
    let half: u64 = 1u64 << ((shift - 1) as u64);
    let biased = raw.saturating_add(half);
    biased >> (shift as u64)
}

/// The number in another unsigned 64-bit format.
pub fn to_fix_u64<S: FixU64, R: FixU64>(x: &S) -> (r: R)
    requires
        rescale_unsigned_ok(x.raw_of() as int, S::fract_bits(), R::fract_bits(), 64),
        R::raw_ok(rescale_unsigned(x.raw_of() as int, S::fract_bits(), R::fract_bits(), u64::MAX as int) as u64),
    ensures
        r.raw_of() == rescale_unsigned(x.raw_of() as int, S::fract_bits(), R::fract_bits(), u64::MAX as int),
{
    let raw = x.raw();
    let sf = S::fractional_bits();
    let rf = R::fractional_bits();
    if sf > rf {
        R::new(scaled_down(raw, sf - rf), rf)
    } else {
        proof {
            lemma2_to64_rest();
        }
        R::new(shl_u64(raw, rf - sf), rf)
    }
}

/// The twelve bits of a nonzero number that start at its highest set bit.
pub open spec fn top_bits(raw: u64) -> u64 {
    (raw << (u64_leading_zeros(raw) as u64)) >> 52u64
}

proof fn lemma_top_bits(raw: u64, lz: u64)
    by (bit_vector)
    requires
        lz < 64,
        (raw >> ((63 - lz) as u64)) & 1u64 != 0u64,
        raw >> ((64 - lz) as u64) == 0u64,
    ensures
        2048u64 <= (raw << lz) >> 52u64 < 4096u64,
{
}

/// The binary logarithm, with 11 fractional bits, of the nonzero raw value
/// `raw` scaled by `2^fract_bits`: the table entry and the fractional part
/// of the top twelve bits, plus the position of the highest set bit.
pub open spec fn log2_spec(lut: &Log2Lut, raw: u64, fract_bits: nat) -> int {
    lut.entry(top_bits(raw) - 2048) + (top_bits(raw) - 2048)
        + (64 - fract_bits - u64_leading_zeros(raw) - 1) * 2048
}

/// The binary logarithm of a nonzero number with 11 fractional bits: the
/// position of its highest set bit gives the integral part and the table
/// gives the fractional part from the twelve bits that start there.
pub fn log2<S: FixU64>(x: &S, lut: &Log2Lut) -> (r: Log2D)
    requires
        x.raw_of() != 0,
    ensures
        2048 <= top_bits(x.raw_of()) < 4096,
        r.raw_of() == log2_spec(lut, x.raw_of(), S::fract_bits()),
        -0x3_0000 <= r.raw_of() <= 0x3_0000,
{
    let raw = x.raw();
    let leading_zeros = raw.leading_zeros();
    proof {
        axiom_u64_leading_zeros(raw);
        lemma_top_bits(raw, leading_zeros as u64);
        S::lemma_fract_bits_bound();
    }
    let raw_shifted = (raw << leading_zeros) >> 52u64;
    let result_fract = lut.log2_restricted(raw_shifted as u32) as i32;
    let result_trunc = (64 - S::fractional_bits() as i32) - leading_zeros as i32 - 1;
    let result = result_fract + result_trunc * 2048;
    Log2D::new(result, 11)
}

} // verus!
