use vstd::prelude::*;
use crate::bit::Bit;
use crate::fixed_point::FixU32;
use crate::fixed_point::types::FractOnlyU32;

verus! {

/// The probability after one more bit, as a 16-bit fraction: it moves
/// towards the bit by 1/128 of the distance.
pub open spec fn fixed_speed_next(p: int, bit: Bit) -> int {
    match bit {
        Bit::Zero => p + (65536 - p) / 128,
        Bit::One => p - p / 128,
    }
}

/// An update moves the probability of a zero towards the coded bit: after a
/// zero it does not fall, and rises while it is below `1 - 2^-9`; after a
/// one it does not rise, and falls while it is at least `2^-9`. It stays a
/// nonzero 16-bit fraction.
pub proof fn lemma_fixed_speed_moves_towards_bit(p: int, bit: Bit)
    requires
        1 <= p <= 65535,
    ensures
        bit == Bit::Zero ==> p <= fixed_speed_next(p, bit) <= 65535,
        bit == Bit::Zero && p <= 65536 - 128 ==> fixed_speed_next(p, bit) > p,
        bit == Bit::One ==> 1 <= fixed_speed_next(p, bit) <= p,
        bit == Bit::One && p >= 128 ==> fixed_speed_next(p, bit) < p,
{
    assert((65536 - p) / 128 >= 0 && (65536 - p) / 128 < 65536 - p) by (nonlinear_arith)
        requires 1 <= p <= 65535;
    assert(p <= 65536 - 128 ==> (65536 - p) / 128 >= 1) by (nonlinear_arith)
        requires 1 <= p;
    assert(p / 128 >= 0 && p / 128 < p) by (nonlinear_arith)
        requires 1 <= p;
    assert(p >= 128 ==> p / 128 >= 1) by (nonlinear_arith);
}

/// A probability estimator that adapts at a fixed rate.
pub struct FixedSpeedEstimator(u16);

impl FixedSpeedEstimator {
    pub const BITS: u8 = 16;

    pub const LOG_RATE: u8 = 7;

    /// The probability of a zero bit, in units of `2^-16`.
    pub closed spec fn fract(&self) -> u16 {
        self.0
    }

    /// The probability is never zero.
    pub closed spec fn wf(&self) -> bool {
        self.0 != 0
    }

    pub fn new(fract: u16) -> (r: FixedSpeedEstimator)
        requires
            fract != 0,
        ensures
            r.wf(),
            r.fract() == fract,
    {
        FixedSpeedEstimator(fract)
    }

    /// Probability of bit 0.
    pub fn prediction(&self) -> (r: FractOnlyU32)
        ensures
            r.raw_of() == self.fract() * 0x8000,
    {
        FractOnlyU32::new_unchecked((self.0 as u32) * 0x8000)
    }

    pub fn update(&mut self, value: Bit)
        requires
            old(self).wf(),
        ensures
            final(self).wf(),
            final(self).fract() == fixed_speed_next(old(self).fract() as int, value),
            value == Bit::Zero ==> final(self).fract() >= old(self).fract(),
            value == Bit::One ==> final(self).fract() <= old(self).fract(),
    {
        proof {
            lemma_fixed_speed_moves_towards_bit(self.0 as int, value);
        }
        let x = self.0;
        let prediction = match value {
            Bit::Zero => {
                let error = 65536u32 - x as u32;
                let correction = error / 128;
                assert(x + correction <= 65535) by (nonlinear_arith)
                    requires error == 65536 - x, correction == error / 128, x <= 65535;
                x + correction as u16
            },
            Bit::One => {
                assert(x - x / 128 >= 1) by (nonlinear_arith)
                    requires x >= 1;
                x - x / 128
            },
        };
        self.0 = prediction;
    }

    /// The estimator at one half.
    pub fn default_estimator() -> (r: FixedSpeedEstimator)
        ensures
            r.wf(),
            r.fract() == 0x8000,
    {
        FixedSpeedEstimator(0x8000)
    }
}

} // verus!
