use vstd::prelude::*;
use vstd::std_specs::bits::{u32_leading_zeros, axiom_u32_leading_zeros};
use vstd::arithmetic::power2::{pow2, lemma2_to64, lemma2_to64_rest};
use crate::fixed_point::{FixI32, FixU32, scaled_down_signed, lemma_scaled_down_signed_error};
use crate::fixed_point::fix_i32;
use crate::fixed_point::fix_i32::mul_spec;
use crate::fixed_point::types::{FractOnlyI32, FractOnlyU32, StretchedProbD};
use super::log2::{one_plus_log2_restricted, one_plus_log2_spec};

verus! {

/// `ln(2)` with 31 fractional bits.
pub const LN2_RAW: i32 = 1488522236;

/// The largest magnitude of a stored value of the stretch function.
pub const STRETCH_TABLE_BOUND: i32 = 24711796;

/// An intermediate logarithm with 25 fractional bits.
#[derive(Clone, Copy, Debug, PartialEq, Eq, Structural)]
pub struct StretchHelper(i32);

impl FixI32 for StretchHelper {
    closed spec fn raw_of(&self) -> i32 {
        self.0
    }

    open spec fn fract_bits() -> nat {
        25
    }

    open spec fn raw_ok(raw: i32) -> bool {
        true
    }

    proof fn lemma_fract_bits_bound() {
    }

    fn raw(&self) -> (r: i32) {
        self.0
    }

    fn new_unchecked(raw: i32) -> (r: Self) {
        StretchHelper(raw)
    }

    fn fractional_bits() -> (r: u8) {
        25
    }

    fn within_bounds(&self) -> (r: bool) {
        true
    }
}

/// The binary logarithm, with 25 fractional bits, of a fraction in
/// `(0, 1)` given with 31 fractional bits: the fraction is shifted into
/// `[1/2, 1)`, its logarithm plus one is rounded to 25 bits, and the shift
/// is taken off.
pub open spec fn stretch_log2_spec(x: u32) -> int {
    let lz = u32_leading_zeros(x);
    let scaled = (x << ((lz - 1) as u32)) as u32;
    scaled_down_signed(one_plus_log2_spec(scaled as int), 6, i32::MIN as int, i32::MAX as int) - lz * 0x200_0000
}

/// The first input of a level of the table, with 31 fractional bits.
pub open spec fn level_start_spec(level: int) -> int {
    if level == 7 {
        0
    } else {
        pow2((29 - level) as nat) as int
    }
}

/// The distance between the inputs of a level of the table.
pub open spec fn level_step_spec(level: int) -> int {
    if level == 7 {
        0x4000
    } else {
        pow2((20 - level) as nat) as int
    }
}

/// The input of an entry of the table.
pub open spec fn table_input(level: int, index: int) -> int {
    level_start_spec(level) + level_step_spec(level) * index
}

/// The stored value of `ln(p / (1 - p))` for the input `p` of an entry,
/// with 21 fractional bits.
pub open spec fn stretch_entry_spec(level: int, index: int) -> int {
    let input = table_input(level, index);
    let diff = stretch_log2_spec(input as u32) - stretch_log2_spec((0x8000_0000 - input) as u32);
    mul_spec(diff * LN2_RAW, 56, 21)
}

/// Every entry but the unused first one of the last level holds a value in
/// `[-STRETCH_TABLE_BOUND, 0]`.
pub open spec fn table_ok(table: Seq<[StretchedProbD; 512]>) -> bool {
    &&& table.len() == 8
    &&& forall|l: int, i: int|
        0 <= l < 8 && 0 <= i < 512 && !(l == 7 && i == 0) ==> -STRETCH_TABLE_BOUND <= #[trigger] table[l]@[i].raw_of() <= 0
}

/// Stretch (the logit `ln(p / (1 - p))`) sampled in eight levels: level `l`
/// covers `[2^-(l+2), 2^-(l+1))` and the last level `(0, 2^-9)`, each in
/// 512 steps; the upper half of the inputs mirrors the lower.
pub struct StretchLut([[StretchedProbD; 512]; 8]);

/// Facts about the leading zeros of a nonzero fraction.
proof fn lemma_shift_up(x: u32, lz: u32)
    by (bit_vector)
    requires
        x < 0x8000_0000,
        1 <= lz < 32,
        (x >> ((31 - lz) as u32)) & 1u32 != 0u32,
        x >> ((32 - lz) as u32) == 0u32,
    ensures
        0x4000_0000u32 <= x << ((lz - 1) as u32) < 0x8000_0000u32,
{
}

/// Leading zeros of a number between two powers of two.
proof fn lemma_leading_zeros_range(x: u32, lz: u32)
    by (bit_vector)
    requires
        lz < 32,
        (x >> ((31 - lz) as u32)) & 1u32 != 0u32,
        x >> ((32 - lz) as u32) == 0u32,
    ensures
        x >= 0x4000 ==> lz <= 17,
        x < 0x8000_0000 ==> lz >= 1,
        x < 0x4000_0000 ==> lz >= 2,
        x >= 0x4000_0000 && x < 0x8000_0000 ==> lz == 1,
{
}

impl StretchLut {
    pub const LEVELS_INDEX_BITS: u8 = 3;
    pub const IN_LEVEL_INDEX_BITS: u8 = 9;

    pub closed spec fn table(&self) -> Seq<[StretchedProbD; 512]> {
        self.0@
    }

    /// The smallest input that the table maps accurately.
    pub fn minimum_accurately_mapped_input() -> (r: FractOnlyU32)
        ensures
            r.raw_of() == 0x4000,
    {
        FractOnlyU32::new(0x4000, 31)
    }

    /// `log2` of a fraction in `(0, 1)`, with 25 fractional bits.
    pub fn log2(fract: FractOnlyU32) -> (r: StretchHelper)
        requires
            0 < fract.raw_of() < 0x8000_0000,
        ensures
            r.raw_of() == stretch_log2_spec(fract.raw_of()),
            -(u32_leading_zeros(fract.raw_of()) as int) * 0x200_0000 <= r.raw_of()
                <= 0x200_0000 - (u32_leading_zeros(fract.raw_of()) as int) * 0x200_0000,
    {
        let fract = fract.raw();
        let leading_zeros = fract.leading_zeros();
        proof {
            axiom_u32_leading_zeros(fract);
            lemma_leading_zeros_range(fract, leading_zeros);
            lemma_shift_up(fract, leading_zeros);
        }
        let scaled = FractOnlyU32::new(fract << (leading_zeros - 1), 31);
        let pre_log2 = one_plus_log2_restricted(scaled);
        let pre_raw = pre_log2.raw() as i32;
        let pre_scaled = fix_i32::scaled_down(pre_raw, 6);
        proof {
            lemma2_to64();
            let b = pre_raw as int + 32;
            let c = crate::fixed_point::clamp(b, i32::MIN as int + 1, i32::MAX as int);
            assert(0 < c <= i32::MAX);
            assert(pre_scaled == c / 64);
            assert(0 <= pre_scaled <= 0x200_0000);
            assert(pre_scaled == scaled_down_signed(one_plus_log2_spec((fract << ((leading_zeros - 1) as u32)) as int), 6, i32::MIN as int, i32::MAX as int));
        }
        let excess = leading_zeros as i32 * 0x200_0000;
        StretchHelper(pre_scaled - excess)
    }

    /// Samples the stretch function at the table's inputs.
    pub fn new() -> (r: StretchLut)
        ensures
            table_ok(r.table()),
            forall|l: int, i: int|
                0 <= l < 8 && 0 <= i < 512 && !(l == 7 && i == 0) ==> #[trigger] r.table()[l]@[i].raw_of() == stretch_entry_spec(l, i),
    {
        let ln2 = FractOnlyI32::new(LN2_RAW, 31);
        let filler = StretchedProbD::new_unchecked(i32::MAX);
        let mut stretch_lut = [[filler; 512]; 8];
        let mut level: usize = 8;
        proof {
            lemma2_to64();
        }
        while level > 0
            invariant
                level <= 8,
                ln2.raw_of() == LN2_RAW,
                forall|l: int, i: int|
                    level <= l < 8 && 0 <= i < 512 && !(l == 7 && i == 0) ==> -STRETCH_TABLE_BOUND <= #[trigger] stretch_lut@[l]@[i].raw_of()
                        <= 0 && stretch_lut@[l]@[i].raw_of() == stretch_entry_spec(l, i),
            decreases level,
        {
            level -= 1;
            let is_last_level = level == 7;
            let level_start: usize = if is_last_level {
                1
            } else {
                0
            };
            proof {
                lemma2_to64();
            }
            let (level_start_fract, level_step_fract): (u32, u32) = match level {
                0 => (0x2000_0000, 0x10_0000),
                1 => (0x1000_0000, 0x8_0000),
                2 => (0x800_0000, 0x4_0000),
                3 => (0x400_0000, 0x2_0000),
                4 => (0x200_0000, 0x1_0000),
                5 => (0x100_0000, 0x8000),
                6 => (0x80_0000, 0x4000),
                _ => (0, 0x4000),
            };
            let mut in_level_index: usize = level_start;
            let ghost row_before = stretch_lut@;
            while in_level_index < 512
                invariant
                    level < 8,
                    is_last_level == (level == 7),
                    level_start == (if is_last_level { 1usize } else { 0usize }),
                    level_start <= in_level_index <= 512,
                    ln2.raw_of() == LN2_RAW,
                    level_start_fract == level_start_spec(level as int),
                    level_step_fract == level_step_spec(level as int),
                    level_start_fract + level_step_fract * 512 <= 0x4000_0000,
                    level_step_fract >= 0x4000,
                    is_last_level ==> level_start_fract == 0,
                    !is_last_level ==> level_start_fract >= 0x80_0000,
                    forall|l: int, i: int|
                        level < l < 8 && 0 <= i < 512 && !(l == 7 && i == 0) ==> -STRETCH_TABLE_BOUND
                            <= #[trigger] stretch_lut@[l]@[i].raw_of() <= 0 && stretch_lut@[l]@[i].raw_of()
                            == stretch_entry_spec(l, i),
                    forall|i: int|
                        level_start <= i < in_level_index ==> -STRETCH_TABLE_BOUND <= #[trigger] stretch_lut@[level as int]@[i].raw_of()
                            <= 0 && stretch_lut@[level as int]@[i].raw_of() == stretch_entry_spec(level as int, i),
                decreases 512 - in_level_index,
            {
                proof {
                    assert(level_step_fract * in_level_index <= level_step_fract * 511) by (nonlinear_arith)
                        requires in_level_index <= 511, level_step_fract >= 0;
                    assert(level_step_fract * in_level_index >= 0x4000 * level_start) by (nonlinear_arith)
                        requires in_level_index >= level_start, level_step_fract >= 0x4000;
                }
                let input_raw = level_start_fract + level_step_fract * (in_level_index as u32);
                let input = FractOnlyU32::new(input_raw, 31);
                let log2_direct = Self::log2(input);
                let flipped = input.flip();
                let log2_flipped = Self::log2(flipped);
                proof {
                    axiom_u32_leading_zeros(input_raw);
                    lemma_leading_zeros_range(input_raw, u32_leading_zeros(input_raw));
                    axiom_u32_leading_zeros(flipped.raw_of());
                    lemma_leading_zeros_range(flipped.raw_of(), u32_leading_zeros(flipped.raw_of()));
                }
                let log2 = log2_direct.sub(&log2_flipped);
                let ghost d = log2.raw_of() as int;
                proof {
                    assert(-17 * 0x200_0000 <= d <= 0);
                    assert(-17 * 0x200_0000 * LN2_RAW <= d * LN2_RAW <= 0) by (nonlinear_arith)
                        requires -17 * 0x200_0000 <= d <= 0;
                    lemma2_to64_rest();
                    assert(pow2(34) == 0x4_0000_0000);
                    assert(pow2(35) == 0x8_0000_0000);
                    lemma_scaled_down_signed_error(d * LN2_RAW, 35, i64::MIN as int, i64::MAX as int);
                    let m = mul_spec(d * LN2_RAW, 56, 21);
                    assert(m == scaled_down_signed(d * LN2_RAW, 35, i64::MIN as int, i64::MAX as int));
                    assert(m * 0x8_0000_0000 >= d * LN2_RAW - 0x4_0000_0000);
                    assert(m * 0x8_0000_0000 <= d * LN2_RAW + 0x4_0000_0000);
                    assert(-17 * 0x200_0000 * LN2_RAW - 0x4_0000_0000 > (-STRETCH_TABLE_BOUND - 1) * 0x8_0000_0000);
                    assert(m * 0x8_0000_0000 > (-STRETCH_TABLE_BOUND - 1) * 0x8_0000_0000);
                    assert(m * 0x8_0000_0000 < 0x8_0000_0000);
                }
                let ln: StretchedProbD = fix_i32::mul(&log2, &ln2);
                let mut row = stretch_lut[level];
                row[in_level_index] = ln;
                stretch_lut[level] = row;
                in_level_index += 1;
            }
        }
        StretchLut(stretch_lut)
    }
}


/// The level of the table for a fraction below one half with `lz` leading
/// zero bits, and the shift that brings its in-level position to the top.
pub open spec fn stretch_level(lz: int) -> int {
    if lz - 2 < 7 {
        lz - 2
    } else {
        7
    }
}

pub open spec fn stretch_shift(level: int) -> int {
    if level == 7 {
        9
    } else {
        level + 3
    }
}

/// Stretch of a fraction in `(0, 1/2)` by linear interpolation between the
/// two table entries around it.
pub open spec fn stretch_lower_spec(table: Seq<[StretchedProbD; 512]>, x: u32) -> int {
    let level = stretch_level(u32_leading_zeros(x) as int);
    let shift = stretch_shift(level);
    let index_left = ((x << (shift as u32)) >> 23u32) as int;
    let left = if index_left != 0 || level != 7 {
        table[level]@[index_left].raw_of() as int
    } else {
        table[level]@[1].raw_of() as int
    };
    let right = if index_left != 511 {
        table[level]@[index_left + 1].raw_of() as int
    } else if level > 0 {
        table[level - 1]@[0].raw_of() as int
    } else {
        0
    };
    let weight = ((x << ((shift + 9) as u32)) >> 1u32) as int;
    (left - mul_spec(left * weight, 52, 21)) + mul_spec(right * weight, 52, 21)
}

/// Stretch, `ln(p / (1 - p))`, of a fraction `p` in `(0, 1)`: zero at one
/// half, and the upper half mirrors the lower.
pub open spec fn stretch_spec(table: Seq<[StretchedProbD; 512]>, raw: u32) -> int {
    if raw == 0x4000_0000 {
        0
    } else if raw > 0x4000_0000 {
        -stretch_lower_spec(table, (0x8000_0000 - raw) as u32)
    } else {
        stretch_lower_spec(table, raw)
    }
}

/// Stretch is odd about one half: the stretch of `1 - p` is minus the
/// stretch of `p`, and one half stretches to zero.
pub proof fn lemma_stretch_odd(table: Seq<[StretchedProbD; 512]>, raw: u32)
    requires
        0 < raw < 0x8000_0000,
    ensures
        stretch_spec(table, (0x8000_0000 - raw) as u32) == -stretch_spec(table, raw),
        stretch_spec(table, 0x4000_0000) == 0,
{
    let flipped = (0x8000_0000 - raw) as u32;
    if raw > 0x4000_0000 {
        assert(flipped < 0x4000_0000);
    } else if raw < 0x4000_0000 {
        assert(flipped > 0x4000_0000);
        assert((0x8000_0000 - flipped) as u32 == raw);
    }
}

/// The rounded product of a table value and an interpolation weight lies
/// between the value and zero.
proof fn lemma_weighted(v: int, w: int)
    requires
        -STRETCH_TABLE_BOUND <= v <= 0,
        0 <= w < 0x8000_0000,
    ensures
        v <= mul_spec(v * w, 52, 21) <= 0,
        v * 0x8000_0000 <= v * w <= 0,
        v * w - 0x4000_0000 <= mul_spec(v * w, 52, 21) * 0x8000_0000 <= v * w + 0x4000_0000,
{
    lemma2_to64();
    lemma2_to64_rest();
    assert(v * 0x8000_0000 <= v * w <= 0) by (nonlinear_arith)
        requires -STRETCH_TABLE_BOUND <= v <= 0, 0 <= w < 0x8000_0000;
    lemma_scaled_down_signed_error(v * w, 31, i64::MIN as int, i64::MAX as int);
    let m = mul_spec(v * w, 52, 21);
    assert(m * 0x8000_0000 >= v * 0x8000_0000 - 0x4000_0000);
    assert(m * 0x8000_0000 > (v - 1) * 0x8000_0000);
    assert(m * 0x8000_0000 < 0x8000_0000);
}

/// Interpolating between two table values stays within the table's range,
/// give or take one for rounding.
proof fn lemma_interpolation(l: int, r: int, w: int)
    requires
        -STRETCH_TABLE_BOUND <= l <= 0,
        -STRETCH_TABLE_BOUND <= r <= 0,
        0 <= w < 0x8000_0000,
    ensures
        -(STRETCH_TABLE_BOUND + 1) <= (l - mul_spec(l * w, 52, 21)) + mul_spec(r * w, 52, 21) <= 0,
{
    lemma_weighted(l, w);
    lemma_weighted(r, w);
    let ml = mul_spec(l * w, 52, 21);
    let mr = mul_spec(r * w, 52, 21);
    assert(l * 0x8000_0000 - l * w + r * w >= -STRETCH_TABLE_BOUND * 0x8000_0000) by (nonlinear_arith)
        requires -STRETCH_TABLE_BOUND <= l <= 0, -STRETCH_TABLE_BOUND <= r <= 0, 0 <= w < 0x8000_0000;
    assert((l - ml + mr) * 0x8000_0000 >= (-STRETCH_TABLE_BOUND - 1) * 0x8000_0000);
}

impl StretchLut {
    /// Stretch of a fraction below one half, interpolated in the table.
    #[verifier::rlimit(40)]
    fn stretch_lower(&self, x: u32) -> (r: StretchedProbD)
        requires
            table_ok(self.table()),
            0 < x < 0x4000_0000,
        ensures
            r.raw_of() == stretch_lower_spec(self.table(), x),
            -(STRETCH_TABLE_BOUND + 1) <= r.raw_of() <= 0,
    {
        let leading_zeros = x.leading_zeros();
        proof {
            axiom_u32_leading_zeros(x);
            lemma_leading_zeros_range(x, leading_zeros);
        }
        let level: usize = if (leading_zeros as usize) - 2 < 7 {
            (leading_zeros as usize) - 2
        } else {
            7
        };
        let shift: u32 = if level == 7 {
            9
        } else {
            level as u32 + 3
        };
        let index_left = (x << shift) >> 23u32;
        proof {
            assert(index_left < 512) by (bit_vector)
                requires index_left == (x << shift) >> 23u32;
        }
        let left = if index_left != 0 || level != 7 {
            self.0[level][index_left as usize]
        } else {
            self.0[level][1]
        };
        let right = if index_left != 511 {
            self.0[level][index_left as usize + 1]
        } else if level > 0 {
            self.0[level - 1][0]
        } else {
            StretchedProbD::new_unchecked(0)
        };
        let weight_raw = (x << (shift + 9)) >> 1u32;
        proof {
            assert(weight_raw < 0x8000_0000) by (bit_vector)
                requires weight_raw == (x << (shift + 9)) >> 1u32;
            if index_left != 0 || level != 7 {
                assert(-STRETCH_TABLE_BOUND <= self.table()[level as int]@[index_left as int].raw_of() <= 0);
            } else {
                assert(-STRETCH_TABLE_BOUND <= self.table()[level as int]@[1].raw_of() <= 0);
            }
            if index_left != 511 {
                assert(-STRETCH_TABLE_BOUND <= self.table()[level as int]@[index_left as int + 1].raw_of() <= 0);
            } else if level > 0 {
                assert(-STRETCH_TABLE_BOUND <= self.table()[level as int - 1]@[0].raw_of() <= 0);
            }
        }
        let weight_right = FractOnlyI32::new(weight_raw as i32, 31);
        let ghost (l, rr, w) = (left.raw_of() as int, right.raw_of() as int, weight_raw as int);
        proof {
            lemma_weighted(l, w);
            lemma_weighted(rr, w);
            lemma_interpolation(l, rr, w);
        }
        let left_part: StretchedProbD = fix_i32::mul(&left, &weight_right);
        let result_left = left.sub(&left_part);
        let result_right: StretchedProbD = fix_i32::mul(&right, &weight_right);
        result_left.add(&result_right)
    }

    /// Inverse of squash: `d = ln(p / (1 - p))`, also called logit.
    pub fn stretch(&self, input: FractOnlyU32) -> (r: StretchedProbD)
        requires
            table_ok(self.table()),
            0 < input.raw_of() < 0x8000_0000,
        ensures
            r.raw_of() == stretch_spec(self.table(), input.raw_of()),
            -(STRETCH_TABLE_BOUND + 1) <= r.raw_of() <= STRETCH_TABLE_BOUND + 1,
    {
        if input.raw() == 0x4000_0000 {
            return StretchedProbD::new_unchecked(0);
        }
        if input.raw() > 0x4000_0000 {
            let flipped = input.flip();
            let result = self.stretch_lower(flipped.raw());
            result.neg()
        } else {
            self.stretch_lower(input.raw())
        }
    }
}

} // verus!
