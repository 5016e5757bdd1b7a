use vstd::prelude::*;
use vstd::std_specs::bits::{u16_leading_zeros, axiom_u16_leading_zeros};
use vstd::arithmetic::power2::pow2;
use vstd::bits::lemma_u16_shr_is_div;
use crate::history::tree::node::CostTrackers;

verus! {

/// The number of significant bits of an unsigned 16-bit value.
pub open spec fn bit_length(input: u16) -> int {
    16 - u16_leading_zeros(input)
}

/// Logarithmic bucketing with one significant bit kept below the leading
/// one: `0, 1, 2, 3, 4, 6, 8, 12, 16, ...` fall into successive buckets.
pub open spec fn quantize_spec(input: u16) -> int {
    if input < 2 {
        input as int
    } else {
        let bits_cut = (bit_length(input) - 2) as nat;
        2 * bits_cut + input as int / pow2(bits_cut) as int
    }
}

/// Buckets occurrence counts on a logarithmic scale.
pub struct OccurrenceCountQuantizer;

impl OccurrenceCountQuantizer {
    pub const SIGNIFICAND_BITS: usize = 1;

    /// The largest bucket, the one of `u16::MAX`.
    pub fn max_output() -> (r: usize)
        ensures
            r == quantize_spec(u16::MAX),
            r == 31,
    {
        proof {
            axiom_u16_leading_zeros(u16::MAX);
            let l = u16_leading_zeros(u16::MAX) as u16;
            assert(l <= 16u16 && 0xffffu16 >> ((16 - l) as u16) == 0u16 ==> l == 0u16) by (bit_vector);
            vstd::arithmetic::power2::lemma2_to64();
            assert(pow2(14) == 16384);
            assert(bit_length(u16::MAX) == 16);
            assert(quantize_spec(u16::MAX) == 2 * 14 + 65535int / 16384int);
        }
        Self::quantize(u16::MAX)
    }

    pub fn quantize(input: u16) -> (r: usize)
        ensures
            r == quantize_spec(input),
            r <= 31,
            input < 2 ==> r == input,
            input <= 1000 ==> r <= 19,
    {
        if input < 2 {
            input as usize
        } else {
            let lz = input.leading_zeros();
            proof {
                axiom_u16_leading_zeros(input);
                let l = lz as u16;
                assert(input >> ((16 - l) as u16) == 0u16);
                assert(l <= 16u16 && input >= 2u16 && input >> ((16 - l) as u16) == 0u16 ==> l <= 14u16) by (bit_vector);
            }
            let bit_length = (16 - lz) as usize;
            let bits_cut = bit_length - Self::SIGNIFICAND_BITS - 1;
            let shifted = (input as usize) >> bits_cut;
            proof {
                let bc = bits_cut as u16;
                lemma_u16_shr_is_div(input, bc);
                let l = lz as u16;
                assert(input >> ((16 - l) as u16) == 0u16);
                assert(bc + 2 == ((16 - l) as u16));
                assert(bc <= 14u16 && input >> (bc + 2) == 0u16 ==> (input >> bc) < 4u16) by (bit_vector);
                assert((input >> ((15 - l) as u16)) & 1u16 != 0u16);
                assert(l <= 14u16 && input <= 1000u16 && (input >> ((15 - l) as u16)) & 1u16 != 0u16 ==> l >= 6u16)
                    by (bit_vector);
                assert(bits_cut < 16usize ==> (input as usize) >> bits_cut == (input >> (bits_cut as u16)) as usize) by (bit_vector);
            }
            bits_cut * 2 + shifted
        }
    }
}

/// Bucket of a distance to the last occurrence: below 100, below 1000,
/// below 10000, or farther.
pub open spec fn distance_bucket(distance: int) -> int {
    if distance < 100 {
        0
    } else if distance < 1000 {
        1
    } else if distance < 10000 {
        2
    } else {
        3
    }
}

/// Buckets the distance to the last occurrence of a context by its order of
/// magnitude.
pub fn quantize_distance(distance: usize) -> (r: usize)
    ensures
        r == distance_bucket(distance as int),
        r <= 3,
{
    if distance < 100 {
        0
    } else if distance < 1_000 {
        1
    } else if distance < 10_000 {
        2
    } else {
        3
    }
}

/// Bucket of a pair of costs `s` (stationary) and `n` (non-stationary):
/// how much cheaper one of them has been, in steps of 1/2 and 1/8.
pub open spec fn cost_ratio_bucket(s: int, n: int) -> int {
    if s + s / 2 < n {
        0
    } else if s + s / 8 < n {
        1
    } else if s < n {
        2
    } else if s < n + n / 8 {
        3
    } else if s < n + n / 2 {
        4
    } else {
        5
    }
}

/// Buckets a pair of cost trackers by the ratio of the stationary cost to
/// the non-stationary one.
pub fn quantize_cost_trackers(cost_trackers: &CostTrackers) -> (r: usize)
    ensures
        r == cost_ratio_bucket(
            cost_trackers.stationary.raw_of() as int,
            cost_trackers.non_stationary.raw_of() as int,
        ),
        r <= 5,
{
    let s = cost_trackers.stationary.raw() as u32;
    let n = cost_trackers.non_stationary.raw() as u32;
    if s + s / 2 < n {
        0
    } else if s + s / 8 < n {
        1
    } else if s < n {
        2
    } else if s < n + n / 8 {
        3
    } else if s < n + n / 2 {
        4
    } else {
        5
    }
}

} // verus!
