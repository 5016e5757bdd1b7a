//! Binary arithmetic coding of bits under final probabilities.

pub mod encoder;
pub mod decoder;
pub mod round_trip;

use vstd::prelude::*;
use crate::fixed_point::{FixI32, FixU32};
use crate::fixed_point::fix_u32;
use crate::fixed_point::fix_u32::log2_spec;
use crate::fixed_point::types::Log2D;
use crate::lut::log2::Log2Lut;
use vstd::std_specs::bits::{u32_leading_zeros, axiom_u32_leading_zeros};

verus! {

/// Probability of bit 0, with 12 fractional bits, strictly between 0 and 1.
#[derive(Clone, Copy, Debug, PartialEq, Eq, Structural)]
pub struct FinalProbability(u32);

impl FixU32 for FinalProbability {
    closed spec fn raw_of(&self) -> u32 {
        self.0
    }

    open spec fn fract_bits() -> nat {
        12
    }

    open spec fn raw_ok(raw: u32) -> bool {
        0 < raw < 4096
    }

    proof fn lemma_fract_bits_bound() {
    }

    fn raw(&self) -> (r: u32) {
        self.0
    }

    fn new_unchecked(raw: u32) -> (r: Self) {
        FinalProbability(raw)
    }

    fn fractional_bits() -> (r: u8) {
        12
    }

    fn within_bounds(&self) -> (r: bool) {
        0 < self.0 && self.0 < 4096
    }
}

/// The raw probability of `bit` under a probability `raw` of bit 0.
pub open spec fn probability_of_bit(raw: int, is_1: bool) -> int {
    if is_1 {
        4096 - raw
    } else {
        raw
    }
}

/// A nonzero number below `2^12` has at least 20 leading zero bits.
proof fn lemma_small_leading_zeros(raw: u32, lz: u32)
    by (bit_vector)
    requires
        0 < raw < 4096,
        lz < 32,
        (raw >> ((31 - lz) as u32)) & 1u32 != 0u32,
    ensures
        20 <= lz,
{
}

impl FinalProbability {
    pub const FRACTIONAL_BITS: u8 = 12;

    /// The cost in bits, with 11 fractional bits, of coding a bit under this
    /// probability: `-log2` of the probability of that bit.
    pub fn estimate_cost(&self, is_1: bool, lut: &Log2Lut) -> (r: Log2D)
        requires
            Self::raw_ok(self.raw_of()),
        ensures
            r.raw_of() == -log2_spec(lut, probability_of_bit(self.raw_of() as int, is_1) as u32, 12),
            lut.wf() ==> 0 < r.raw_of() <= 24576,
    {
        let probability = if is_1 {
            Self::new(4096 - self.raw(), 12)
        } else {
            *self
        };
        let log2 = fix_u32::log2(&probability, lut);
        proof {
            let raw = probability.raw_of();
            axiom_u32_leading_zeros(raw);
            lemma_small_leading_zeros(raw, u32_leading_zeros(raw));
        }
        log2.neg()
    }
}

} // verus!
