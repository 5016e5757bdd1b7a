use vstd::prelude::*;
use vstd::arithmetic::power2::{pow2, lemma2_to64, lemma2_to64_rest};
use crate::fixed_point::{FixI32, FixU32, scaled_down_unsigned, lemma_scaled_down_unsigned_error};
use crate::fixed_point::fix_u32;
use crate::fixed_point::fix_u32::mul_spec;
use crate::fixed_point::types::{FractOnlyU32, StretchedProbD};
use super::stretch::{StretchLut, stretch_spec, table_ok};

verus! {

/// The state of the bisection for the fraction whose stretch is `target`:
/// whether a fraction with exactly that stretch was met, and the bracket
/// that remains.
pub open spec fn bisection(table: Seq<[StretchedProbD; 512]>, target: int, lower: int, upper: int) -> (bool, int, int)
    decreases upper - lower,
{
    if upper - lower > 1 {
        let middle = lower + (upper - lower) / 2;
        let stretched = stretch_spec(table, middle as u32);
        if stretched > target {
            bisection(table, target, lower, middle)
        } else if stretched < target {
            bisection(table, target, middle, upper)
        } else {
            (true, middle, middle)
        }
    } else {
        (false, lower, upper)
    }
}

/// The fraction, with 31 fractional bits, whose stretch is closest to
/// `target`: found by bisection over `(0, 1)`; when both ends of the last
/// bracket stretch to the same value, the lower end kept within the range
/// that the stretch table maps accurately.
pub open spec fn squashed_spec(table: Seq<[StretchedProbD; 512]>, target: int) -> int {
    let (found, lower, upper) = bisection(table, target, 1, 0x7fff_ffff);
    if found {
        lower
    } else {
        let lower_stretched = stretch_spec(table, lower as u32);
        let upper_stretched = stretch_spec(table, upper as u32);
        if lower_stretched != upper_stretched {
            if target - lower_stretched < upper_stretched - target {
                lower
            } else {
                upper
            }
        } else if lower < 0x4000 {
            0x4000
        } else if lower > 0x8000_0000 - 0x4000 {
            0x8000_0000 - 0x4000
        } else {
            lower
        }
    }
}

/// The bisection keeps a bracket inside its first one.
proof fn lemma_bisection_bounds(table: Seq<[StretchedProbD; 512]>, target: int, lower: int, upper: int)
    requires
        1 <= lower < upper <= 0x7fff_ffff,
    ensures
        bisection(table, target, lower, upper).0 ==> lower < bisection(table, target, lower, upper).1 < upper,
        !bisection(table, target, lower, upper).0 ==> lower <= bisection(table, target, lower, upper).1
            && bisection(table, target, lower, upper).1 + 1 == bisection(table, target, lower, upper).2
            && bisection(table, target, lower, upper).2 <= upper,
    decreases upper - lower,
{
    if upper - lower > 1 {
        let middle = lower + (upper - lower) / 2;
        lemma_bisection_bounds(table, target, lower, middle);
        lemma_bisection_bounds(table, target, middle, upper);
    }
}

/// The number of entries of the squash table: stretched values from -12
/// to 12 in steps of 1/128.
pub const SQUASH_ARRAY_SIZE: usize = 3073;

/// Squash (the logistic function `1 / (1 + e^-d)`) sampled at stretched
/// values from -12 to 12 in steps of 1/128.
pub struct SquashLut([FractOnlyU32; 3073]);

/// Every entry is a fraction strictly between 0 and 1.
pub open spec fn squash_table_ok(table: Seq<FractOnlyU32>) -> bool {
    &&& table.len() == SQUASH_ARRAY_SIZE
    &&& forall|i: int| 0 <= i < SQUASH_ARRAY_SIZE ==> 1 <= #[trigger] table[i].raw_of() < 0x8000_0000
}

/// Interpolating between two fractions with a weight stays between them.
proof fn lemma_between(l: int, r: int, w: int)
    requires
        1 <= l < 0x8000_0000,
        1 <= r < 0x8000_0000,
        0 <= w < 0x8000_0000,
    ensures
        l * w <= 0x4000_0000_0000_0000,
        r * w <= 0x4000_0000_0000_0000,
        0 <= mul_spec(l * w, 62, 31) <= l,
        0 <= mul_spec(r * w, 62, 31) <= r,
        (l - mul_spec(l * w, 62, 31)) + mul_spec(r * w, 62, 31) >= if l < r { l } else { r },
        (l - mul_spec(l * w, 62, 31)) + mul_spec(r * w, 62, 31) <= if l < r { r } else { l },
{
    lemma2_to64();
    lemma2_to64_rest();
    assert(0 <= l * w <= 0x4000_0000_0000_0000) by (nonlinear_arith)
        requires 1 <= l < 0x8000_0000, 0 <= w < 0x8000_0000;
    assert(0 <= r * w <= 0x4000_0000_0000_0000) by (nonlinear_arith)
        requires 1 <= r < 0x8000_0000, 0 <= w < 0x8000_0000;
    lemma_scaled_down_unsigned_error(l * w, 31, u64::MAX as int);
    lemma_scaled_down_unsigned_error(r * w, 31, u64::MAX as int);
    let ml = mul_spec(l * w, 62, 31);
    let mr = mul_spec(r * w, 62, 31);
    assert(ml == scaled_down_unsigned(l * w, 31, u64::MAX as int));
    assert(mr == scaled_down_unsigned(r * w, 31, u64::MAX as int));
    assert(l * w < l * 0x8000_0000) by (nonlinear_arith)
        requires 1 <= l, 0 <= w < 0x8000_0000;
    assert(ml <= l);
    assert(r * w < r * 0x8000_0000) by (nonlinear_arith)
        requires 1 <= r, 0 <= w < 0x8000_0000;
    assert(mr <= r);
    if l <= r {
        assert((r - l) * w <= (r - l) * 0x7fff_ffff) by (nonlinear_arith)
            requires r - l >= 0, 0 <= w < 0x8000_0000;
        assert(r * w - l * w == (r - l) * w) by (nonlinear_arith);
        assert((mr - ml) * 0x8000_0000 < (r - l) * w + 0x8000_0000);
        assert((mr - ml) * 0x8000_0000 < (r - l + 1) * 0x8000_0000);
        assert(mr - ml <= r - l);
        assert((mr - ml) * 0x8000_0000 > (r - l) * w - 0x8000_0000);
        assert(mr - ml >= 0);
    } else {
        assert((l - r) * w <= (l - r) * 0x7fff_ffff) by (nonlinear_arith)
            requires l - r >= 0, 0 <= w < 0x8000_0000;
        assert(l * w - r * w == (l - r) * w) by (nonlinear_arith);
        assert((ml - mr) * 0x8000_0000 < (l - r + 1) * 0x8000_0000);
        assert(ml - mr <= l - r);
        assert((ml - mr) * 0x8000_0000 > -0x8000_0000);
        assert(ml - mr >= 0);
    }
}

impl SquashLut {
    pub const USED_FRACTIONAL_BITS: u8 = 7;

    pub closed spec fn table(&self) -> Seq<FractOnlyU32> {
        self.0@
    }

    /// The fraction whose stretch is closest to `stretched_prob`.
    pub fn find_squashed_prob(stretched_prob: StretchedProbD, stretch_lut: &StretchLut) -> (r: FractOnlyU32)
        requires
            table_ok(stretch_lut.table()),
        ensures
            r.raw_of() == squashed_spec(stretch_lut.table(), stretched_prob.raw_of() as int),
            1 <= r.raw_of() < 0x8000_0000,
    {
        let target = stretched_prob.raw();
        let mut lower_bound: u32 = 1;
        let mut upper_bound: u32 = 0x7fff_ffff;
        let ghost table = stretch_lut.table();
        proof {
            lemma_bisection_bounds(table, target as int, 1, 0x7fff_ffff);
        }
        while upper_bound - lower_bound > 1
            invariant
                1 <= lower_bound < upper_bound <= 0x7fff_ffff,
                table == stretch_lut.table(),
                table_ok(table),
                target == stretched_prob.raw_of(),
                bisection(table, target as int, lower_bound as int, upper_bound as int) == bisection(
                    table,
                    target as int,
                    1,
                    0x7fff_ffff,
                ),
            decreases upper_bound - lower_bound,
        {
            let middle = lower_bound + (upper_bound - lower_bound) / 2;
            let stretched_middle = stretch_lut.stretch(FractOnlyU32::new(middle, 31));
            if stretched_middle.raw() > target {
                upper_bound = middle;
            } else if stretched_middle.raw() < target {
                lower_bound = middle;
            } else {
                return FractOnlyU32::new(middle, 31);
            }
        }
        let lower_fract = FractOnlyU32::new(lower_bound, 31);
        let upper_fract = FractOnlyU32::new(upper_bound, 31);
        let lower_stretched = stretch_lut.stretch(lower_fract).raw();
        let upper_stretched = stretch_lut.stretch(upper_fract).raw();
        if lower_stretched != upper_stretched {
            let lower_diff = target as i64 - lower_stretched as i64;
            let upper_diff = upper_stretched as i64 - target as i64;
            if lower_diff < upper_diff {
                lower_fract
            } else {
                upper_fract
            }
        } else {
            let minimum_precise_value = StretchLut::minimum_accurately_mapped_input();
            let mut result = lower_fract;
            if result.raw() < minimum_precise_value.raw() {
                result = minimum_precise_value;
            }
            let maximum_precise_value = minimum_precise_value.flip();
            if result.raw() > maximum_precise_value.raw() {
                result = maximum_precise_value;
            }
            result
        }
    }

    /// Samples squash at stretched values from -12 to 12 in steps of 1/128.
    pub fn new(stretch_lut: &StretchLut) -> (r: SquashLut)
        requires
            table_ok(stretch_lut.table()),
        ensures
            squash_table_ok(r.table()),
            forall|i: int| 0 <= i < SQUASH_ARRAY_SIZE ==> #[trigger] r.table()[i].raw_of() == squashed_spec(
                stretch_lut.table(),
                (i - 1536) * 0x4000,
            ),
    {
        let mut squash_lut = [FractOnlyU32::new(1, 31); 3073];
        let mut index: usize = 0;
        while index < SQUASH_ARRAY_SIZE
            invariant
                index <= SQUASH_ARRAY_SIZE,
                table_ok(stretch_lut.table()),
                forall|i: int| 0 <= i < SQUASH_ARRAY_SIZE ==> 1 <= #[trigger] squash_lut@[i].raw_of() < 0x8000_0000,
                forall|i: int| 0 <= i < index ==> #[trigger] squash_lut@[i].raw_of() == squashed_spec(
                    stretch_lut.table(),
                    (i - 1536) * 0x4000,
                ),
            decreases SQUASH_ARRAY_SIZE - index,
        {
            let stretched_prob = StretchedProbD::new((index as i32 - 1536) * 0x4000, 21);
            let actual = Self::find_squashed_prob(stretched_prob, stretch_lut);
            squash_lut[index] = actual;
            index += 1;
        }
        SquashLut(squash_lut)
    }

    /// Inverse of stretch: `p = 1 / (1 + e^-d)`, also called expit;
    /// interpolated linearly between the table's entries.
    pub fn squash(&self, input: StretchedProbD) -> (r: FractOnlyU32)
        requires
            squash_table_ok(self.table()),
            StretchedProbD::raw_ok(input.raw_of()),
        ensures
            r.raw_of() == squash_spec(self.table(), input.raw_of() as int),
            1 <= r.raw_of() < 0x8000_0000,
    {
        let raw = input.raw();
        let index_left = raw / 0x4000 + 1536 - (if raw % 0x4000 < 0 { 1 } else { 0 });
        let index_left = index_left as usize;
        proof {
            assert(index_left == (raw as int) / 0x4000 + 1536);
        }
        if index_left == SQUASH_ARRAY_SIZE - 1 {
            return self.0[index_left];
        }
        let left_bound = self.0[index_left];
        let right_bound = self.0[index_left + 1];
        let ghost weight_right_raw = (raw as int - ((raw as int) / 0x4000) * 0x4000);
        let weight = (raw - (raw / 0x4000 - (if raw % 0x4000 < 0 { 1 } else { 0 })) * 0x4000) as u32;
        proof {
            assert(weight == weight_right_raw);
            assert(0 <= weight < 0x4000);
        }
        let weight_right = FractOnlyU32::new(weight * 0x2_0000, 31);
        proof {
            lemma_between(left_bound.raw_of() as int, right_bound.raw_of() as int, weight_right.raw_of() as int);
        }
        let left_part: FractOnlyU32 = fix_u32::mul(&left_bound, &weight_right);
        let result_left = left_bound.sub(&left_part);
        let result_right: FractOnlyU32 = fix_u32::mul(&right_bound, &weight_right);
        result_left.add(&result_right)
    }
}

/// Squash by linear interpolation in the table: the stretched value's
/// position in steps of 1/128 selects two entries, and its remainder
/// weighs the right one.
pub open spec fn squash_spec(table: Seq<FractOnlyU32>, raw: int) -> int {
    let index_left = raw / 0x4000 + 1536;
    if index_left == SQUASH_ARRAY_SIZE - 1 {
        table[index_left].raw_of() as int
    } else {
        let left = table[index_left].raw_of() as int;
        let right = table[index_left + 1].raw_of() as int;
        let weight = (raw % 0x4000) * 0x2_0000;
        (left - mul_spec(left * weight, 62, 31)) + mul_spec(right * weight, 62, 31)
    }
}

/// Squash of zero is one half: the bisection meets one half, whose stretch
/// is zero, at its first step.
pub proof fn lemma_squash_of_zero(squash_table: Seq<FractOnlyU32>, stretch_table: Seq<[StretchedProbD; 512]>)
    requires
        squash_table_ok(squash_table),
        forall|i: int| 0 <= i < SQUASH_ARRAY_SIZE ==> #[trigger] squash_table[i].raw_of() == squashed_spec(
            stretch_table,
            (i - 1536) * 0x4000,
        ),
    ensures
        squash_spec(squash_table, 0) == 0x4000_0000,
{
    assert(bisection(stretch_table, 0, 1, 0x7fff_ffff) == (true, 0x4000_0000int, 0x4000_0000int));
    assert(squash_table[1536].raw_of() == squashed_spec(stretch_table, 0));
    assert(mul_spec(0, 62, 31) == 0) by {
        lemma2_to64();
        assert(pow2(30) == 0x4000_0000 && pow2(31) == 0x8000_0000);
        assert(scaled_down_unsigned(0, 31, u64::MAX as int) == 0x4000_0000int / 0x8000_0000int);
    }
    assert(squashed_spec(stretch_table, 0) == 0x4000_0000);
    let left = squash_table[1536].raw_of() as int;
    let right = squash_table[1537].raw_of() as int;
    assert(left * 0 == 0 && right * 0 == 0);
    assert(squash_spec(squash_table, 0) == (left - mul_spec(0, 62, 31)) + mul_spec(0, 62, 31));
}

} // verus!
