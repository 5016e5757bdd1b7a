use vstd::prelude::*;
use vstd::arithmetic::power2::{pow2, lemma2_to64, lemma2_to64_rest};
use vstd::std_specs::bits::{u32_leading_zeros, axiom_u32_leading_zeros};
use crate::fixed_point::{FixI32, FixI64, FixU32, clamp, scaled_down_signed, lemma_scaled_down_signed_error};
use crate::fixed_point::{fix_i64, fix_u32};
use crate::fixed_point::fix_u32::mul_spec;
use crate::fixed_point::types::{FractOnlyU32, StretchedProbD, StretchedProbQ};
use super::squash::{SquashLut, squash_table_ok, squash_spec};

verus! {

/// The stretched value of interval stop `index` (counted from the middle)
/// when stops are `2^bits` apart, limited to `[-12, 12]`, with 21
/// fractional bits.
pub open spec fn stop_stretch_spec(index: int, bits: nat) -> int {
    scaled_down_signed(
        clamp(index * pow2(40 + bits), -12 * 0x100_0000_0000int, 12 * 0x100_0000_0000int),
        19,
        i64::MIN as int,
        i64::MAX as int,
    )
}

/// The stretched value of an interval stop.
pub fn stop_stretch(index: i64, bits: u8) -> (r: StretchedProbD)
    requires
        -50 <= index <= 50,
        bits <= 2,
    ensures
        r.raw_of() == stop_stretch_spec(index as int, bits as nat),
        StretchedProbD::raw_ok(r.raw_of()),
{
    proof {
        lemma2_to64();
        lemma2_to64_rest();
    }
    let scale: i64 = if bits == 0 {
        0x100_0000_0000
    } else if bits == 1 {
        0x200_0000_0000
    } else {
        0x400_0000_0000
    };
    proof {
        assert(scale == pow2(40 + bits as nat));
        assert(-50 * 0x400_0000_0000 <= index * scale <= 50 * 0x400_0000_0000) by (nonlinear_arith)
            requires -50 <= index <= 50, 0 < scale <= 0x400_0000_0000;
    }
    let unclamped = StretchedProbQ::new(index * scale, 40);
    let clamped = unclamped.clamped();
    proof {
        let c = clamped.raw_of() as int;
        lemma_scaled_down_signed_error(c, 19, i64::MIN as int, i64::MAX as int);
        let s = scaled_down_signed(c, 19, i64::MIN as int, i64::MAX as int);
        assert(s * 0x8_0000 <= 12 * 0x100_0000_0000 + 0x4_0000);
        assert(s * 0x8_0000 >= -12 * 0x100_0000_0000 - 0x4_0000);
        assert(s * 0x8_0000 < (12 * 0x20_0000 + 1) * 0x8_0000);
        assert(s * 0x8_0000 > (-12 * 0x20_0000 - 1) * 0x8_0000);
    }
    fix_i64::to_fix_i32(&clamped)
}

/// The part of `1` that a fraction in `[1/2, 1)` leaves: the largest `f`,
/// found by bisection over `[0, 1)`, for which `f * shifted` stays below
/// `1 - shifted`.
pub open spec fn extra_factor_bisection(shifted: int, low: int, high: int) -> int
    decreases high - low,
{
    if high - low > 1 {
        let middle = low + (high - low) / 2;
        if mul_spec(middle * shifted, 62, 31) < 0x8000_0000 - shifted {
            extra_factor_bisection(shifted, middle, high)
        } else {
            extra_factor_bisection(shifted, low, middle)
        }
    } else {
        low
    }
}

/// The factor that stretches an interval length, brought into `[1/2, 1)`,
/// up to one: zero for an empty interval.
pub open spec fn extra_factor_spec(shifted: int) -> int {
    if shifted == 0 {
        0
    } else {
        extra_factor_bisection(shifted, 0, 0x7fff_ffff)
    }
}

/// Squashed interval stops and, for each interval, the shift and extra
/// factor that turn a position within it into a weight in `[0, 1)`.
pub struct ApmWeightingLut {
    squashed_interval_stops: Vec<FractOnlyU32>,
    shifts_by_interval: Vec<u8>,
    extra_factor_by_interval: Vec<FractOnlyU32>,
    stretched_scale_down_bits: u8,
}

/// The squashed stops of a table: squash of each interval stop's
/// stretched value.
pub open spec fn squashed_stop_spec(squash: Seq<FractOnlyU32>, index: int, stops: int, bits: nat) -> int {
    squash_spec(squash, stop_stretch_spec(index - stops / 2, bits))
}

/// The length of an interval, zero when its stops are out of order.
pub open spec fn interval_length_spec(lower: int, upper: int) -> int {
    if upper >= lower {
        upper - lower
    } else {
        0
    }
}

/// The shift that brings a nonzero length into `[1/2, 1)`: its leading
/// zeros less one; 31 for an empty interval.
pub open spec fn length_shift_spec(length: int) -> int {
    u32_leading_zeros(length as u32) - 1
}

impl ApmWeightingLut {
    pub closed spec fn stops(&self) -> Seq<FractOnlyU32> {
        self.squashed_interval_stops@
    }

    pub closed spec fn shifts(&self) -> Seq<u8> {
        self.shifts_by_interval@
    }

    pub closed spec fn extra_factors(&self) -> Seq<FractOnlyU32> {
        self.extra_factor_by_interval@
    }

    pub closed spec fn bits(&self) -> u8 {
        self.stretched_scale_down_bits
    }

    /// The number of stops is `24 * 2^bits + 1`, there is one shift and one
    /// extra factor per interval, stops are fractions, and shifts keep an
    /// interval's length within 31 bits.
    pub open spec fn wf(&self) -> bool {
        &&& self.bits() <= 2
        &&& self.stops().len() == 24 * pow2(self.bits() as nat) + 1
        &&& self.shifts().len() == self.stops().len() - 1
        &&& self.extra_factors().len() == self.stops().len() - 1
        &&& forall|i: int| 0 <= i < self.stops().len() ==> 1 <= #[trigger] self.stops()[i].raw_of() < 0x8000_0000
        &&& forall|i: int| 0 <= i < self.shifts().len() ==> #[trigger] self.shifts()[i] <= 31
        &&& forall|i: int| 0 <= i < self.extra_factors().len() ==> #[trigger] self.extra_factors()[i].raw_of() < 0x8000_0000
    }

    /// The largest extra factor `f` with `f * shifted` below
    /// `1 - shifted`.
    pub fn extra_factor(shifted_interval_length: FractOnlyU32) -> (r: FractOnlyU32)
        requires
            shifted_interval_length.raw_of() == 0 || 0x4000_0000 <= shifted_interval_length.raw_of() < 0x8000_0000,
        ensures
            r.raw_of() == extra_factor_spec(shifted_interval_length.raw_of() as int),
            r.raw_of() < 0x8000_0000,
    {
        if shifted_interval_length.raw() == 0 {
            return FractOnlyU32::new(0, 31);
        }
        let s = shifted_interval_length.raw();
        let remainder = FractOnlyU32::one_unsafe().sub(&shifted_interval_length);
        let mut low: u32 = 0;
        let mut high: u32 = 0x7fff_ffff;
        proof {
            lemma2_to64();
            lemma2_to64_rest();
        }
        while high - low > 1
            invariant
                low < high <= 0x7fff_ffff,
                s == shifted_interval_length.raw_of(),
                0x4000_0000 <= s < 0x8000_0000,
                remainder.raw_of() == 0x8000_0000 - s,
                extra_factor_bisection(s as int, low as int, high as int) == extra_factor_bisection(s as int, 0, 0x7fff_ffff),
            decreases high - low,
        {
            let middle = low + (high - low) / 2;
            proof {
                lemma2_to64();
                assert(0 <= middle * s <= 0x7fff_ffff * 0x7fff_ffff) by (nonlinear_arith)
                    requires 0 <= middle <= 0x7fff_ffff, 0 <= s <= 0x7fff_ffff;
                crate::fixed_point::lemma_scaled_down_unsigned_error(middle * s, 31, u64::MAX as int);
                let m = mul_spec(middle * s, 62, 31);
                assert(m * 0x8000_0000 <= 0x7fff_ffff * 0x7fff_ffff + 0x4000_0000);
                assert(m * 0x8000_0000 < 0x8000_0000 * 0x8000_0000);
            }
            let current: FractOnlyU32 = fix_u32::mul(&FractOnlyU32::new(middle, 31), &shifted_interval_length);
            if current.raw() < remainder.raw() {
                low = middle;
            } else {
                high = middle;
            }
        }
        FractOnlyU32::new(low, 31)
    }

    /// The stops of the intervals of width `2^bits` (in stretched values)
    /// between -12 and 12, squashed, with each interval's shift and extra
    /// factor.
    pub fn new(stretched_scale_down_bits: u8, squash_lut: &SquashLut) -> (r: Self)
        requires
            stretched_scale_down_bits <= 2,
            squash_table_ok(squash_lut.table()),
        ensures
            r.wf(),
            r.bits() == stretched_scale_down_bits,
            forall|i: int| 0 <= i < r.stops().len() ==> #[trigger] r.stops()[i].raw_of() == squashed_stop_spec(
                squash_lut.table(),
                i,
                r.stops().len() as int,
                stretched_scale_down_bits as nat,
            ),
            forall|i: int| 0 <= i < r.shifts().len() ==> #[trigger] r.shifts()[i] == length_shift_spec(
                interval_length_spec(r.stops()[i].raw_of() as int, r.stops()[i + 1].raw_of() as int),
            ),
            forall|i: int| 0 <= i < r.extra_factors().len() ==> #[trigger] r.extra_factors()[i].raw_of() == extra_factor_spec(
                ((interval_length_spec(r.stops()[i].raw_of() as int, r.stops()[i + 1].raw_of() as int) as u32) << (
                r.shifts()[i] as u32)) as int,
            ),
    {
        proof {
            lemma2_to64();
        }
        let interval_stops_count = StretchedProbD::interval_stops_count(stretched_scale_down_bits) as usize;
        let mut squashed_stops: Vec<FractOnlyU32> = Vec::new();
        let mut shifts_by_interval: Vec<u8> = Vec::new();
        let mut extra_factor_by_interval: Vec<FractOnlyU32> = Vec::new();
        let offset = (interval_stops_count / 2) as i64;
        let mut interval_stop_index: usize = 0;
        while interval_stop_index < interval_stops_count
            invariant
                interval_stop_index <= interval_stops_count,
                interval_stops_count == 24 * pow2(stretched_scale_down_bits as nat) + 1,
                interval_stops_count <= 97,
                offset == interval_stops_count / 2,
                stretched_scale_down_bits <= 2,
                squash_table_ok(squash_lut.table()),
                squashed_stops@.len() == interval_stop_index,
                forall|i: int| 0 <= i < interval_stop_index ==> 1 <= #[trigger] squashed_stops@[i].raw_of() < 0x8000_0000,
                forall|i: int| 0 <= i < interval_stop_index ==> #[trigger] squashed_stops@[i].raw_of() == squashed_stop_spec(
                    squash_lut.table(),
                    i,
                    interval_stops_count as int,
                    stretched_scale_down_bits as nat,
                ),
            decreases interval_stops_count - interval_stop_index,
        {
            let stretched_prob = stop_stretch(interval_stop_index as i64 - offset, stretched_scale_down_bits);
            let squashed_prob = squash_lut.squash(stretched_prob);
            squashed_stops.push(squashed_prob);
            interval_stop_index += 1;
        }
        let intervals_count = interval_stops_count - 1;
        let mut interval_index: usize = 0;
        while interval_index < intervals_count
            invariant
                interval_index <= intervals_count,
                intervals_count + 1 == interval_stops_count,
                squashed_stops@.len() == interval_stops_count,
                forall|i: int| 0 <= i < interval_stops_count ==> 1 <= #[trigger] squashed_stops@[i].raw_of() < 0x8000_0000,
                shifts_by_interval@.len() == interval_index,
                extra_factor_by_interval@.len() == interval_index,
                forall|i: int| 0 <= i < interval_index ==> #[trigger] shifts_by_interval@[i] <= 31,
                forall|i: int| 0 <= i < interval_index ==> (#[trigger] extra_factor_by_interval@[i]).raw_of() < 0x8000_0000,
                forall|i: int| 0 <= i < interval_index ==> #[trigger] shifts_by_interval@[i] == length_shift_spec(
                    interval_length_spec(squashed_stops@[i].raw_of() as int, squashed_stops@[i + 1].raw_of() as int),
                ),
                forall|i: int| 0 <= i < interval_index ==> (#[trigger] extra_factor_by_interval@[i]).raw_of()
                    == extra_factor_spec(
                    ((interval_length_spec(squashed_stops@[i].raw_of() as int, squashed_stops@[i + 1].raw_of() as int) as u32)
                        << (shifts_by_interval@[i] as u32)) as int,
                ),
            decreases intervals_count - interval_index,
        {
            let lower = squashed_stops[interval_index].raw();
            let upper = squashed_stops[interval_index + 1].raw();
            let interval_length: u32 = if upper >= lower {
                upper - lower
            } else {
                0
            };
            let leading_zeros = interval_length.leading_zeros();
            proof {
                axiom_u32_leading_zeros(interval_length);
                lemma_length_shift(interval_length, leading_zeros);
            }
            let shift = (leading_zeros - 1) as u8;
            let shifted = FractOnlyU32::new(interval_length << (leading_zeros - 1), 31);
            let extra_factor = Self::extra_factor(shifted);
            shifts_by_interval.push(shift);
            extra_factor_by_interval.push(extra_factor);
            interval_index += 1;
        }
        ApmWeightingLut {
            squashed_interval_stops: squashed_stops,
            shifts_by_interval,
            extra_factor_by_interval,
            stretched_scale_down_bits,
        }
    }

    pub fn squashed_interval_stops(&self) -> (r: &[FractOnlyU32])
        ensures
            r@ == self.stops(),
    {
        self.squashed_interval_stops.as_slice()
    }

    pub fn shifts_by_interval(&self) -> (r: &[u8])
        ensures
            r@ == self.shifts(),
    {
        self.shifts_by_interval.as_slice()
    }

    pub fn extra_factor_by_interval(&self) -> (r: &[FractOnlyU32])
        ensures
            r@ == self.extra_factors(),
    {
        self.extra_factor_by_interval.as_slice()
    }

    pub fn stretched_scale_down_bits(&self) -> (r: u8)
        ensures
            r == self.bits(),
    {
        self.stretched_scale_down_bits
    }
}

/// A length below `2^31` shifted by its leading zeros less one lands in
/// `[1/2, 1)`, or stays zero.
proof fn lemma_length_shift(x: u32, lz: u32)
    requires
        x < 0x8000_0000,
        lz == u32_leading_zeros(x),
        0 <= lz <= 32,
        x == 0 <==> lz == 32,
        lz < 32 ==> (x >> ((31 - lz) as u32)) & 1u32 != 0u32,
        x >> ((32 - lz) as u32) == 0u32,
    ensures
        1 <= lz,
        x == 0 ==> x << ((lz - 1) as u32) == 0,
        x != 0 ==> 0x4000_0000 <= x << ((lz - 1) as u32) < 0x8000_0000,
{
    if x == 0 {
        assert(x << ((lz - 1) as u32) == 0) by (bit_vector)
            requires x == 0u32;
    } else {
        assert(1 <= lz && 0x4000_0000 <= x << ((lz - 1) as u32) < 0x8000_0000) by (bit_vector)
            requires
                x < 0x8000_0000,
                lz < 32,
                (x >> ((31 - lz) as u32)) & 1u32 != 0u32,
                x >> ((32 - lz) as u32) == 0u32;
    }
}

} // verus!
