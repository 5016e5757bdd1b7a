use vstd::prelude::*;
use vstd::arithmetic::power2::{pow2, lemma2_to64, lemma_pow2_unfold, lemma_pow2_strictly_increases};
use crate::fixed_point::FixU32;
use crate::fixed_point::fix_u32;
use crate::fixed_point::types::FractOnlyU32;
use crate::estimators::decelerating::{correction, lemma_correction};

verus! {

/// The state of the bit-by-bit logarithm of `a` (31 fractional bits, in
/// `[1/2, 1)`) after `steps` steps: the bits found so far and the current
/// power of `a`. Each step squares the power; a square below one half is
/// doubled and gives a 0 bit, otherwise the bit is 1.
pub open spec fn log2_state(a: int, steps: nat) -> (int, int)
    decreases steps,
{
    if steps == 0 {
        (0, a)
    } else {
        let (bits, power) = log2_state(a, (steps - 1) as nat);
        let square = correction(power, power);
        if square < 0x4000_0000 {
            (2 * bits, 2 * square)
        } else {
            (2 * bits + 1, square)
        }
    }
}

/// `1 + log2(a)` with 31 fractional bits, for `a` in `[1/2, 1)`.
pub open spec fn one_plus_log2_spec(a: int) -> int {
    log2_state(a, 31).0
}

/// One half stays one half under each step, giving only 0 bits.
proof fn lemma_half_state(steps: nat)
    ensures
        log2_state(0x4000_0000, steps) == (0int, 0x4000_0000int),
    decreases steps,
{
    if steps > 0 {
        lemma_half_state((steps - 1) as nat);
        assert(0x4000_0000 * 0x4000_0000 + 0x4000_0000 == 0x1000_0000_4000_0000);
        assert(0x1000_0000_4000_0000int / 0x8000_0000int == 0x2000_0000);
    }
}

/// The logarithm of one half is minus one: `log2(1/2) + 1` is zero.
pub proof fn lemma_log2_of_half()
    ensures
        one_plus_log2_spec(0x4000_0000) == 0,
{
    lemma_half_state(31);
}

/// Input in `[1/2, 1)` with 31 fractional bits; output `log2(input) + 1` in
/// `[0, 1)` with 31 fractional bits, computed one bit at a time by repeated
/// squaring.
pub fn one_plus_log2_restricted(input: FractOnlyU32) -> (r: FractOnlyU32)
    requires
        0x4000_0000 <= input.raw_of() < 0x8000_0000,
    ensures
        r.raw_of() == one_plus_log2_spec(input.raw_of() as int),
        r.raw_of() < 0x8000_0000,
{
    let ghost a = input.raw_of() as int;
    let mut log_raw: u32 = 0;
    let mut a_power = input;
    let mut step: u8 = 0;
    proof {
        lemma2_to64();
    }
    while step < 31
        invariant
            0 <= step <= 31,
            0x4000_0000 <= a_power.raw_of() < 0x8000_0000,
            log_raw < pow2(step as nat),
            (log_raw as int, a_power.raw_of() as int) == log2_state(a, step as nat),
        decreases 31 - step,
    {
        let ghost p = a_power.raw_of() as int;
        proof {
            lemma_correction(p, p);
            lemma_pow2_unfold((step + 1) as nat);
            lemma_pow2_strictly_increases(step as nat, 31);
            lemma2_to64();
            assert(p * p >= 0x4000_0000 * 0x4000_0000) by (nonlinear_arith)
                requires p >= 0x4000_0000;
            assert(p * p <= 0x7fff_ffff * 0x7fff_ffff) by (nonlinear_arith)
                requires 0 <= p <= 0x7fff_ffff;
        }
        log_raw = log_raw * 2;
        let squared: FractOnlyU32 = fix_u32::mul(&a_power, &a_power);
        if squared.raw() < 0x4000_0000 {
            a_power = FractOnlyU32::new(squared.raw() * 2, 31);
        } else {
            a_power = squared;
            log_raw = log_raw + 1;
        }
        step += 1;
    }
    FractOnlyU32::new(log_raw, 31)
}

/// Binary logarithms of numbers in `[1, 2)` given with 11 fractional bits:
/// each entry is the rounded fractional logarithm less the input's
/// fractional part.
pub struct Log2Lut(pub [u8; 2048]);

/// The rounded fractional logarithm, with 11 fractional bits, of
/// `1 + index / 2048`.
pub open spec fn log2_scaled_spec(index: int) -> int {
    (one_plus_log2_spec((index + 2048) * 0x8_0000) / 0x8_0000 + 1) / 2
}

/// The table entry for `index`: the distance of the logarithm (at most
/// 2047, as the logarithm of a number below 2 is below 1) from the input's
/// fractional part, at least 0 and at most 176.
pub open spec fn log2_entry_spec(index: int) -> int {
    let scaled = if log2_scaled_spec(index) > 2047 {
        2047
    } else {
        log2_scaled_spec(index)
    };
    let diff = scaled - index;
    if diff < 0 {
        0
    } else if diff > 176 {
        176
    } else {
        diff
    }
}

impl Log2Lut {
    pub const INDEX_BITS: u8 = 11;

    /// The stored entry for `index`.
    pub open spec fn entry(&self, index: int) -> int {
        self.0@[index] as int
    }

    /// Every logarithm that the table gives is below one.
    pub open spec fn wf(&self) -> bool {
        forall|i: int| 0 <= i < 2048 ==> #[trigger] self.entry(i) + i <= 2047
    }

    /// Builds the table. The distance of each logarithm from its input never
    /// exceeds 176, so each entry holds it exactly.
    pub fn new() -> (r: Log2Lut)
        ensures
            forall|i: int| 0 <= i < 2048 ==> #[trigger] r.entry(i) == log2_entry_spec(i),
            r.wf(),
    {
        let mut table = [255u8; 2048];
        let mut index: u32 = 0;
        while index < 2048
            invariant
                index <= 2048,
                forall|i: int| 0 <= i < index ==> #[trigger] table@[i] as int == log2_entry_spec(i),
            decreases 2048 - index,
        {
            let input = index + 2048;
            let half_input = FractOnlyU32::new(input * 0x8_0000, 31);
            let log2 = one_plus_log2_restricted(half_input);
            let log2_scaled = log2.raw() / 0x8_0000;
            let log2_scaled = (log2_scaled + 1) / 2;
            let log2_scaled = if log2_scaled > 2047 {
                2047
            } else {
                log2_scaled
            };
            let diff: u8 = if log2_scaled < index {
                0
            } else if log2_scaled - index > 176 {
                176
            } else {
                (log2_scaled - index) as u8
            };
            table[index as usize] = diff;
            index += 1;
        }
        Log2Lut(table)
    }

    /// Input in `[1.0, 2.0)` with 11 fractional bits; output its logarithm
    /// in `[0.0, 1.0)` with 11 fractional bits.
    pub fn log2_restricted(&self, input: u32) -> (r: u32)
        requires
            2048 <= input < 4096,
        ensures
            r == self.entry(input - 2048) + (input - 2048),
    {
        let fract = input - 2048;
        self.0[fract as usize] as u32 + fract
    }
}

} // verus!
