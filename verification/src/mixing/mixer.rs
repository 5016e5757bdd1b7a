use vstd::prelude::*;
use vstd::arithmetic::power2::{pow2, lemma2_to64, lemma2_to64_rest};
use crate::bit::Bit;
use crate::estimators::decelerating::MAX_COUNT;
use crate::fixed_point::{FixI32, FixI64, FixU32, clamp, scaled_down_signed, lemma_scaled_down_signed_error};
use crate::fixed_point::{fix_i32, fix_i64};
use crate::fixed_point::types::{FractOnlyI32, FractOnlyU32, MixerWeight, StretchedProbD, StretchedProbQ};
use crate::lut::estimator::DeceleratingEstimatorLut;
use crate::lut::squash::{SquashLut, squash_table_ok, squash_spec};

verus! {

/// The highest update factor index a mixer may reach.
pub const UPDATE_FACTOR_INDEX_LIMIT: u16 = MAX_COUNT;

/// The largest number of inputs a mixer can have.
pub const MAX_MIXER_SIZE: usize = 30;

/// The fixed part of the weight update rate: one half.
fn fixed_update_factor() -> (r: FractOnlyI32)
    ensures
        r.raw_of() == 0x4000_0000,
{
    FractOnlyI32::half()
}

/// One input of a mixer: its weight and the prediction it was last given,
/// both as a probability and stretched.
#[derive(Clone, Copy, Debug)]
pub struct MixerInput {
    pub weight: MixerWeight,
    pub prediction_sq: FractOnlyU32,
    pub prediction_st: StretchedProbD,
}

/// The part of a mixer's state that is not per input: which inputs were
/// set since the last update, and how far the update rate has decayed.
#[derive(Clone, Copy, Debug)]
pub struct MixerCommon {
    pub inputs_mask: u32,
    pub update_factor_index: u16,
}

/// The weight of an input stays within `[-8, 8]`, its predictions are valid.
pub open spec fn input_ok(input: MixerInput) -> bool {
    &&& -8 * 0x20_0000 <= input.weight.raw_of() <= 8 * 0x20_0000
    &&& FractOnlyU32::raw_ok(input.prediction_sq.raw_of())
    &&& StretchedProbD::raw_ok(input.prediction_st.raw_of())
}

/// A mixer of at most 30 inputs whose set-inputs mask only marks existing
/// inputs and whose update factor index is within its limit.
pub open spec fn mixer_ok(inputs: Seq<MixerInput>, common: MixerCommon) -> bool {
    &&& inputs.len() <= 30
    &&& common.inputs_mask < (1u32 << inputs.len())
    &&& common.update_factor_index <= UPDATE_FACTOR_INDEX_LIMIT
    &&& forall|i: int| 0 <= i < inputs.len() ==> #[trigger] input_ok(inputs[i])
}

/// Whether input `index` was set since the last update.
pub open spec fn input_is_set(common: MixerCommon, index: int) -> bool {
    common.inputs_mask & (1u32 << index) != 0
}

/// Whether every one of `size` inputs was set.
pub open spec fn all_inputs_set(common: MixerCommon, size: nat) -> bool {
    common.inputs_mask == (1u32 << size) - 1
}

/// Whether an input is neutral: no weight, an even prediction.
pub open spec fn is_neutral_input(input: MixerInput) -> bool {
    &&& input.weight.raw_of() == 0
    &&& input.prediction_sq.raw_of() == 0x4000_0000
    &&& input.prediction_st.raw_of() == 0
}

/// The state of a mixer before any input was set.
pub open spec fn neutral_common(initial_update_factor_index: u16) -> MixerCommon {
    MixerCommon { inputs_mask: 0, update_factor_index: initial_update_factor_index }
}

impl MixerInput {
    /// The neutral input.
    pub fn neutral() -> (r: MixerInput)
        ensures
            is_neutral_input(r),
            input_ok(r),
    {
        MixerInput {
            weight: MixerWeight::zero(),
            prediction_sq: FractOnlyU32::half(),
            prediction_st: StretchedProbD::zero(),
        }
    }

    /// `size` neutral inputs.
    fn new_array_neutral(size: usize) -> (r: Vec<MixerInput>)
        ensures
            r@.len() == size,
            forall|i: int| 0 <= i < size ==> #[trigger] is_neutral_input(r@[i]) && input_ok(r@[i]),
    {
        let mut inputs: Vec<MixerInput> = Vec::new();
        let mut i: usize = 0;
        while i < size
            invariant
                i <= size,
                inputs@.len() == i,
                forall|j: int| 0 <= j < i ==> #[trigger] is_neutral_input(inputs@[j]) && input_ok(inputs@[j]),
            decreases size - i,
        {
            inputs.push(MixerInput::neutral());
            i += 1;
        }
        inputs
    }
}

impl MixerCommon {
    /// No input set yet, the given update factor index.
    fn new(initial_update_factor_index: u16) -> (r: MixerCommon)
        ensures
            r == neutral_common(initial_update_factor_index),
    {
        MixerCommon { inputs_mask: 0, update_factor_index: initial_update_factor_index }
    }
}

/// The weighted stretched prediction of an input, with 40 fractional bits.
pub open spec fn weighted_input(input: MixerInput) -> int {
    fix_i32::mul_spec(input.weight.raw_of() * input.prediction_st.raw_of(), 42, 40)
}

/// The sum of the weighted predictions of the inputs.
pub open spec fn weighted_sum(inputs: Seq<MixerInput>) -> int
    decreases inputs.len(),
{
    if inputs.len() == 0 {
        0
    } else {
        weighted_sum(inputs.drop_last()) + weighted_input(inputs.last())
    }
}

/// The stretched mix of the inputs with 21 fractional bits: the weighted sum
/// limited to `[-12, 12]` and rounded.
pub open spec fn mixed_stretched(inputs: Seq<MixerInput>) -> int {
    scaled_down_signed(
        clamp(weighted_sum(inputs), -12 * 0x100_0000_0000int, 12 * 0x100_0000_0000int),
        19,
        i64::MIN as int,
        i64::MAX as int,
    )
}

/// A weighted prediction is at most `96 / 4` in magnitude.
proof fn lemma_weighted_input_bound(input: MixerInput)
    requires
        input_ok(input),
    ensures
        -0x6000_0000_0000 <= weighted_input(input) <= 0x6000_0000_0000,
{
    let w = input.weight.raw_of() as int;
    let st = input.prediction_st.raw_of() as int;
    let p = w * st;
    assert(-12 * 0x2000_0000_0000 <= p <= 12 * 0x2000_0000_0000) by (nonlinear_arith)
        requires
            -8 * 0x20_0000 <= w <= 8 * 0x20_0000,
            -12 * 0x20_0000 <= st <= 12 * 0x20_0000,
            p == w * st;
    lemma2_to64();
    lemma_scaled_down_signed_error(p, 2, i64::MIN as int, i64::MAX as int);
}

/// A stretched probability of `[-12, 12]` with 40 fractional bits, rounded to
/// 21 fractional bits.
fn narrowed_stretch(clamped: StretchedProbQ) -> (r: StretchedProbD)
    requires
        -12 * 0x100_0000_0000 <= clamped.raw_of() <= 12 * 0x100_0000_0000,
    ensures
        r.raw_of() == scaled_down_signed(clamped.raw_of() as int, 19, i64::MIN as int, i64::MAX as int),
        StretchedProbD::raw_ok(r.raw_of()),
{
    proof {
        lemma2_to64();
        lemma2_to64_rest();
        let c = clamped.raw_of() as int;
        lemma_scaled_down_signed_error(c, 19, i64::MIN as int, i64::MAX as int);
        let s = scaled_down_signed(c, 19, i64::MIN as int, i64::MAX as int);
        assert(s * 0x8_0000 <= 12 * 0x100_0000_0000 + 0x4_0000);
        assert(s * 0x8_0000 >= -12 * 0x100_0000_0000 - 0x4_0000);
        assert(s * 0x8_0000 < (12 * 0x20_0000 + 1) * 0x8_0000);
        assert(s * 0x8_0000 > (-12 * 0x20_0000 - 1) * 0x8_0000);
    }
    fix_i64::to_fix_i32(&clamped)
}

/// The rate at which weights learn, for an estimator rate: half of it, in
/// 31-bit fixed point.
pub open spec fn update_rate(rate: int) -> int {
    fix_i32::mul_spec(0x4000_0000 * rate, 62, 31)
}

/// How far the mixed probability `sq` (that the bit is zero) was from the
/// coded bit.
pub open spec fn mix_error(bit: Bit, sq: int) -> int {
    match bit {
        Bit::Zero => 0x8000_0000 - sq,
        Bit::One => sq,
    }
}

/// The error scaled by the update rate.
pub open spec fn error_step(bit: Bit, sq: int, rate: int) -> int {
    fix_i32::mul_spec(mix_error(bit, sq) * update_rate(rate), 62, 31)
}

/// An input's weight after an update by `step`: moved by the stretched
/// prediction times the step, towards the coded bit, limited to `[-8, 8]`.
pub open spec fn updated_weight(input: MixerInput, bit: Bit, step: int) -> int {
    let correction = fix_i32::mul_spec(input.prediction_st.raw_of() * step, 52, 21);
    let w = input.weight.raw_of() as int;
    match bit {
        Bit::Zero => clamp(w + correction, -8 * 0x20_0000, 8 * 0x20_0000int),
        Bit::One => clamp(w - correction, -8 * 0x20_0000, 8 * 0x20_0000int),
    }
}

/// The update factor index after an update.
pub open spec fn next_update_factor_index(index: int, max_index: int) -> int {
    if index + 1 < max_index {
        index + 1
    } else {
        max_index
    }
}

/// Rounding a product that fits, with no saturation, by `2^shift`: within half
/// a step of the exact quotient, and not negative for a product that is not.
proof fn lemma_rounded_product(p: int, shift: nat)
    requires
        1 <= shift <= 40,
        -0x1000_0000_0000_0000 <= p <= 0x1000_0000_0000_0000,
    ensures
        p - pow2((shift - 1) as nat) <= scaled_down_signed(p, shift, i64::MIN as int, i64::MAX as int) * pow2(shift)
            <= p + pow2((shift - 1) as nat),
        p >= 0 ==> scaled_down_signed(p, shift, i64::MIN as int, i64::MAX as int) >= 0,
{
    crate::fixed_point::lemma_pow2_bounds(shift);
    crate::fixed_point::lemma_pow2_bounds((shift - 1) as nat);
    vstd::arithmetic::power2::lemma_pow2_strictly_increases((shift - 1) as nat, 40);
    lemma2_to64_rest();
    lemma_scaled_down_signed_error(p, shift, i64::MIN as int, i64::MAX as int);
    let r = scaled_down_signed(p, shift, i64::MIN as int, i64::MAX as int);
    let q = pow2(shift) as int;
    let h = pow2((shift - 1) as nat) as int;
    if p >= 0 && r < 0 {
        assert(r * q <= -q) by (nonlinear_arith)
            requires r < 0, q > 0;
        assert(q == 2 * h);
    }
}

/// The bounds of the update rate, the step and the weight correction.
proof fn lemma_update_bounds(bit: Bit, sq: int, rate: int, st: int)
    requires
        0 <= rate <= 0x4000_0000,
        bit == Bit::Zero ==> 1 <= sq,
        0 <= sq < 0x8000_0000,
        -12 * 0x20_0000 <= st <= 12 * 0x20_0000,
    ensures
        0 <= update_rate(rate) <= 0x2000_0000,
        0 <= mix_error(bit, sq) < 0x8000_0000,
        0 <= error_step(bit, sq, rate) <= 0x2000_0000,
        -(12 * 0x8_0000 + 1) <= fix_i32::mul_spec(st * error_step(bit, sq, rate), 52, 21) <= 12 * 0x8_0000 + 1,
{
    lemma2_to64();
    lemma2_to64_rest();
    let p1 = 0x4000_0000 * rate;
    lemma_rounded_product(p1, 31);
    let u = update_rate(rate);
    assert(u * 0x8000_0000 <= 0x4000_0000 * 0x4000_0000 + 0x4000_0000);
    assert(u <= 0x2000_0000);
    let e = mix_error(bit, sq);
    let p2 = e * u;
    assert(0 <= p2 <= 0x8000_0000 * 0x2000_0000) by (nonlinear_arith)
        requires 0 <= e < 0x8000_0000, 0 <= u <= 0x2000_0000, p2 == e * u;
    lemma_rounded_product(p2, 31);
    let step = error_step(bit, sq, rate);
    assert(step * 0x8000_0000 <= 0x8000_0000 * 0x2000_0000 + 0x4000_0000);
    assert(step <= 0x2000_0000);
    let p3 = st * step;
    assert(-12 * 0x20_0000 * 0x2000_0000 <= p3 <= 12 * 0x20_0000 * 0x2000_0000) by (nonlinear_arith)
        requires -12 * 0x20_0000 <= st <= 12 * 0x20_0000, 0 <= step <= 0x2000_0000, p3 == st * step;
    lemma_rounded_product(p3, 31);
    let c = fix_i32::mul_spec(p3, 52, 21);
    assert(c * 0x8000_0000 <= 12 * 0x20_0000 * 0x2000_0000 + 0x4000_0000);
    assert(c * 0x8000_0000 >= -12 * 0x20_0000 * 0x2000_0000 - 0x4000_0000);
    assert(c * 0x8000_0000 < (12 * 0x8_0000 + 2) * 0x8000_0000);
    assert(c * 0x8000_0000 > (-12 * 0x8_0000 - 2) * 0x8000_0000);
}

/// An input with its weight updated by `step`.
fn updated_input(input: MixerInput, input_bit: Bit, step: FractOnlyI32) -> (r: MixerInput)
    requires
        input_ok(input),
        0 <= step.raw_of() <= 0x2000_0000,
        -(12 * 0x8_0000 + 1) <= fix_i32::mul_spec(input.prediction_st.raw_of() * step.raw_of(), 52, 21) <= 12 * 0x8_0000 + 1,
    ensures
        r.weight.raw_of() == updated_weight(input, input_bit, step.raw_of() as int),
        r.prediction_sq == input.prediction_sq,
        r.prediction_st == input.prediction_st,
        input_ok(r),
{
    let weighted_error: MixerWeight = fix_i32::mul(&input.prediction_st, &step);
    let weight = match input_bit {
        Bit::Zero => input.weight.add(&weighted_error).clamped(),
        Bit::One => input.weight.sub(&weighted_error).clamped(),
    };
    MixerInput { weight, ..input }
}

/// The inputs a new mixer starts with: all neutral, but for the first one,
/// which has full weight unless the mixer is to start neutral.
pub open spec fn initial_inputs(inputs: Seq<MixerInput>, neutral: bool) -> bool {
    forall|i: int| 0 <= i < inputs.len() ==> {
        let input = #[trigger] inputs[i];
        if i == 0 && !neutral {
            &&& input.weight.raw_of() == 0x20_0000
            &&& input.prediction_sq.raw_of() == 0x4000_0000
            &&& input.prediction_st.raw_of() == 0
        } else {
            is_neutral_input(input)
        }
    }
}

/// An empty set-inputs mask is valid for any size up to 30.
proof fn lemma_no_input_set_ok(n: u32)
    requires
        n <= 30,
    ensures
        0u32 < (1u32 << n),
{
    assert(0u32 < (1u32 << n)) by (bit_vector)
        requires n <= 30;
}

/// Access to the inputs and the common state of a mixer.
pub trait MixerData: Sized {
    /// The inputs, in order.
    spec fn inputs_of(&self) -> Seq<MixerInput>;

    /// The common state.
    spec fn common_of(&self) -> MixerCommon;

    fn size(&self) -> (r: usize)
        ensures
            r == self.inputs_of().len(),
    ;

    fn inputs(&self) -> (r: &[MixerInput])
        ensures
            r@ == self.inputs_of(),
    ;

    fn common(&self) -> (r: &MixerCommon)
        ensures
            *r == self.common_of(),
    ;

    /// Replaces input `index`.
    fn set_input_entry(&mut self, index: usize, input: MixerInput)
        requires
            index < old(self).inputs_of().len(),
        ensures
            final(self).inputs_of() == old(self).inputs_of().update(index as int, input),
            final(self).common_of() == old(self).common_of(),
    ;

    /// Replaces the common state.
    fn set_common(&mut self, common: MixerCommon)
        ensures
            final(self).inputs_of() == old(self).inputs_of(),
            final(self).common_of() == common,
    ;
}

/// Gives the first input full weight unless the mixer is to start neutral.
fn initialize_weights<M: MixerData>(mixer: &mut M, neutral: bool)
    requires
        neutral || old(mixer).inputs_of().len() >= 1,
    ensures
        final(mixer).common_of() == old(mixer).common_of(),
        final(mixer).inputs_of().len() == old(mixer).inputs_of().len(),
        neutral ==> final(mixer).inputs_of() == old(mixer).inputs_of(),
        !neutral ==> final(mixer).inputs_of()[0].weight.raw_of() == 0x20_0000,
        !neutral ==> final(mixer).inputs_of()[0].prediction_sq == old(mixer).inputs_of()[0].prediction_sq,
        !neutral ==> final(mixer).inputs_of()[0].prediction_st == old(mixer).inputs_of()[0].prediction_st,
        !neutral ==> forall|i: int| 1 <= i < old(mixer).inputs_of().len()
            ==> #[trigger] final(mixer).inputs_of()[i] == old(mixer).inputs_of()[i],
{
    if !neutral {
        let first = mixer.inputs()[0];
        mixer.set_input_entry(0, MixerInput { weight: MixerWeight::one(), ..first });
    }
}
/// A mixer: a weighted sum of stretched predictions, squashed back into a
/// probability, whose weights learn from each coded bit.
pub trait Mixer: MixerData {
    /// The probability given to input `index`, which must be set.
    fn prediction_sq(&self, index: usize) -> (r: FractOnlyU32)
        requires
            index < self.inputs_of().len(),
            input_is_set(self.common_of(), index as int),
        ensures
            r == self.inputs_of()[index as int].prediction_sq,
    {
        self.assert_input_is_set(index);
        self.inputs()[index].prediction_sq
    }

    /// The stretched prediction given to input `index`, which must be set.
    fn prediction_st(&self, index: usize) -> (r: StretchedProbD)
        requires
            index < self.inputs_of().len(),
            input_is_set(self.common_of(), index as int),
        ensures
            r == self.inputs_of()[index as int].prediction_st,
    {
        self.assert_input_is_set(index);
        self.inputs()[index].prediction_st
    }

    /// The weight of input `index`.
    fn weight(&self, index: usize) -> (r: MixerWeight)
        requires
            index < self.inputs_of().len(),
        ensures
            r == self.inputs_of()[index as int].weight,
    {
        self.inputs()[index].weight
    }

    /// Gives input `index`, not yet set since the last update, its
    /// predictions.
    fn set_input(&mut self, index: usize, prediction_sq: FractOnlyU32, prediction_st: StretchedProbD)
        requires
            mixer_ok(old(self).inputs_of(), old(self).common_of()),
            index < old(self).inputs_of().len(),
            !input_is_set(old(self).common_of(), index as int),
            FractOnlyU32::raw_ok(prediction_sq.raw_of()),
            StretchedProbD::raw_ok(prediction_st.raw_of()),
        ensures
            mixer_ok(final(self).inputs_of(), final(self).common_of()),
            final(self).inputs_of() == old(self).inputs_of().update(
                index as int,
                MixerInput { weight: old(self).inputs_of()[index as int].weight, prediction_sq, prediction_st },
            ),
            final(self).common_of().inputs_mask == old(self).common_of().inputs_mask | (1u32 << index),
            final(self).common_of().update_factor_index == old(self).common_of().update_factor_index,
            forall|i: int| 0 <= i < final(self).inputs_of().len() ==>
                (#[trigger] input_is_set(final(self).common_of(), i) <==> (i == index || input_is_set(old(self).common_of(), i))),
    {
        let size = self.size();
        let common = *self.common();
        let usage_flag = 1u32 << (index as u32);
        let mask = common.inputs_mask | usage_flag;
        proof {
            let old_mask = common.inputs_mask;
            let n = size as u32;
            let k = index as u32;
            assert(n <= 30);
            assert((1u32 << n) == (1u32 << size));
            assert(usage_flag == (1u32 << index));
            assert(mask < (1u32 << n)) by (bit_vector)
                requires
                    old_mask < (1u32 << n),
                    k < n,
                    n <= 30,
                    mask == old_mask | (1u32 << k);
            assert forall|i: int| 0 <= i < size implies
                (#[trigger] input_is_set(MixerCommon { inputs_mask: mask, ..common }, i)
                    <==> (i == index || input_is_set(common, i))) by {
                let j = i as u32;
                assert((1u32 << j) == (1u32 << i));
                assert((mask & (1u32 << j) != 0) <==> (j == k || old_mask & (1u32 << j) != 0)) by (bit_vector)
                    requires
                        mask == old_mask | (1u32 << k),
                        j < 32,
                        k < 32;
            }
        }
        let ghost old_inputs = self.inputs_of();
        let first = self.inputs()[index];
        self.set_input_entry(index, MixerInput { weight: first.weight, prediction_sq, prediction_st });
        self.set_common(MixerCommon { inputs_mask: mask, ..common });
        proof {
            assert forall|i: int| 0 <= i < self.inputs_of().len() implies #[trigger] input_ok(self.inputs_of()[i]) by {
                if i != index {
                    assert(input_ok(old_inputs[i]));
                }
            }
        }
    }

    /// Mixes the inputs, which must all be set: the squashed and the
    /// stretched result.
    fn mix_all(&self, squash_lut: &SquashLut) -> (r: (FractOnlyU32, StretchedProbD))
        requires
            mixer_ok(self.inputs_of(), self.common_of()),
            all_inputs_set(self.common_of(), self.inputs_of().len()),
            squash_table_ok(squash_lut.table()),
        ensures
            r.1.raw_of() == mixed_stretched(self.inputs_of()),
            StretchedProbD::raw_ok(r.1.raw_of()),
            r.0.raw_of() == squash_spec(squash_lut.table(), r.1.raw_of() as int),
            1 <= r.0.raw_of() < 0x8000_0000,
    {
        let inputs = self.inputs();
        let n = inputs.len();
        let mut result = StretchedProbQ::zero();
        let mut i: usize = 0;
        while i < n
            invariant
                i <= n,
                n == inputs@.len(),
                n <= 30,
                inputs@ == self.inputs_of(),
                mixer_ok(self.inputs_of(), self.common_of()),
                result.raw_of() == weighted_sum(inputs@.take(i as int)),
                -(i as int) * 0x6000_0000_0000 <= result.raw_of() <= (i as int) * 0x6000_0000_0000,
            decreases n - i,
        {
            let input = inputs[i];
            proof {
                assert(input_ok(inputs@[i as int]));
                lemma_weighted_input_bound(input);
                assert(inputs@.take(i as int + 1).drop_last() =~= inputs@.take(i as int));
                assert(inputs@.take(i as int + 1).last() == input);
            }
            let weighted: StretchedProbQ = fix_i32::mul_wide(&input.weight, &input.prediction_st);
            assert(weighted.raw_of() == weighted_input(input));
                        result = result.add(&weighted);
            i += 1;
        }
        proof {
            assert(inputs@.take(n as int) =~= inputs@);
        }
        let result_st = narrowed_stretch(result.clamped());
        let result_sq = squash_lut.squash(result_st);
        (result_sq, result_st)
    }

    /// Learns from the coded bit, given the mixed probability of a zero that
    /// was used to code it, then clears the set inputs; the update factor
    /// index advances, up to `max_update_factor_index`.
    fn update_and_reset(
        &mut self,
        input_bit: Bit,
        mix_result_sq: FractOnlyU32,
        max_update_factor_index: u16,
        d_estimator_rates_lut: &DeceleratingEstimatorLut,
    )
        requires
            mixer_ok(old(self).inputs_of(), old(self).common_of()),
            all_inputs_set(old(self).common_of(), old(self).inputs_of().len()),
            d_estimator_rates_lut.wf(),
            FractOnlyU32::raw_ok(mix_result_sq.raw_of()),
            input_bit == Bit::Zero ==> mix_result_sq.raw_of() >= 1,
            old(self).common_of().update_factor_index <= max_update_factor_index <= UPDATE_FACTOR_INDEX_LIMIT,
        ensures
            mixer_ok(final(self).inputs_of(), final(self).common_of()),
            final(self).inputs_of().len() == old(self).inputs_of().len(),
            forall|i: int| 0 <= i < old(self).inputs_of().len() ==> {
                let before = #[trigger] old(self).inputs_of()[i];
                let after = final(self).inputs_of()[i];
                &&& after.weight.raw_of() == updated_weight(
                    before,
                    input_bit,
                    error_step(
                        input_bit,
                        mix_result_sq.raw_of() as int,
                        d_estimator_rates_lut.factor(old(self).common_of().update_factor_index as int),
                    ),
                )
                &&& after.prediction_sq == before.prediction_sq
                &&& after.prediction_st == before.prediction_st
            },
            final(self).common_of().inputs_mask == 0,
            final(self).common_of().update_factor_index == next_update_factor_index(
                old(self).common_of().update_factor_index as int,
                max_update_factor_index as int,
            ),
    {
        let common = *self.common();
        let index = common.update_factor_index;
        let rate = d_estimator_rates_lut.get(index);
        proof {
            d_estimator_rates_lut.lemma_wf(index as int);
            lemma_update_bounds(input_bit, mix_result_sq.raw_of() as int, rate.raw_of() as int, 0);
        }
        let dynamic_update_factor = FractOnlyI32::new(rate.raw() as i32, 31);
        let update_factor: FractOnlyI32 = fix_i32::mul(&fixed_update_factor(), &dynamic_update_factor);
        let error = match input_bit {
            Bit::Zero => FractOnlyU32::one_unsafe().sub(&mix_result_sq),
            Bit::One => mix_result_sq,
        };
        let error = FractOnlyI32::new(error.raw() as i32, 31);
        let step: FractOnlyI32 = fix_i32::mul(&error, &update_factor);
        let ghost old_inputs = self.inputs_of();
        let ghost step_raw = step.raw_of() as int;
        let size = self.size();
        let mut i: usize = 0;
        while i < size
            invariant
                i <= size,
                size == old_inputs.len(),
                self.inputs_of().len() == size,
                self.common_of() == common,
                step_raw == step.raw_of(),
                step_raw == error_step(input_bit, mix_result_sq.raw_of() as int, d_estimator_rates_lut.factor(index as int)),
                0 <= step_raw <= 0x2000_0000,
                0 <= d_estimator_rates_lut.factor(index as int) <= 0x4000_0000,
                FractOnlyU32::raw_ok(mix_result_sq.raw_of()),
                input_bit == Bit::Zero ==> mix_result_sq.raw_of() >= 1,
                forall|j: int| 0 <= j < size ==> #[trigger] input_ok(old_inputs[j]),
                forall|j: int| 0 <= j < size ==> #[trigger] input_ok(self.inputs_of()[j]),
                forall|j: int| i <= j < size ==> #[trigger] self.inputs_of()[j] == old_inputs[j],
                forall|j: int| 0 <= j < i ==> {
                    let before = #[trigger] old_inputs[j];
                    let after = self.inputs_of()[j];
                    &&& after.weight.raw_of() == updated_weight(before, input_bit, step_raw)
                    &&& after.prediction_sq == before.prediction_sq
                    &&& after.prediction_st == before.prediction_st
                },
            decreases size - i,
        {
            let input = self.inputs()[i];
            proof {
                assert(input == old_inputs[i as int]);
                assert(input_ok(old_inputs[i as int]));
                lemma_update_bounds(
                    input_bit,
                    mix_result_sq.raw_of() as int,
                    d_estimator_rates_lut.factor(index as int),
                    input.prediction_st.raw_of() as int,
                );
            }
            let updated = updated_input(input, input_bit, step);
            self.set_input_entry(i, updated);
            i += 1;
        }
        let next_index = if index + 1 < max_update_factor_index {
            index + 1
        } else {
            max_update_factor_index
        };
        self.set_common(MixerCommon { inputs_mask: 0, update_factor_index: next_index });
        proof {
            let n = size as u32;
            assert((1u32 << n) == (1u32 << size));
            lemma_no_input_set_ok(n);
        }
    }

    /// Checks, in proof, that input `index` is set.
    fn assert_input_is_set(&self, index: usize)
        requires
            index < self.inputs_of().len(),
            input_is_set(self.common_of(), index as int),
    {
    }
}

/// Mixers whose number of inputs is fixed by their type.
pub trait FixedSizeMixer: MixerData {
    /// The number of inputs.
    const SIZE: usize;

    /// A new mixer, neutral or trusting its first input.
    fn new(initial_update_factor_index: u16, neutral: bool) -> (r: Self)
        requires
            initial_update_factor_index <= UPDATE_FACTOR_INDEX_LIMIT,
        ensures
            mixer_ok(r.inputs_of(), r.common_of()),
            r.inputs_of().len() == Self::SIZE,
            r.common_of() == neutral_common(initial_update_factor_index),
            initial_inputs(r.inputs_of(), neutral),
    {
        let mut result = Self::new_neutral(initial_update_factor_index);
        let ghost before = result.inputs_of();
        initialize_weights(&mut result, neutral);
        proof {
            assert forall|i: int| 0 <= i < result.inputs_of().len() implies #[trigger] input_ok(result.inputs_of()[i]) by {
                assert(is_neutral_input(before[i]) && input_ok(before[i]));
            }
            assert forall|i: int| 0 <= i < result.inputs_of().len() implies {
                let input = #[trigger] result.inputs_of()[i];
                if i == 0 && !neutral {
                    &&& input.weight.raw_of() == 0x20_0000
                    &&& input.prediction_sq.raw_of() == 0x4000_0000
                    &&& input.prediction_st.raw_of() == 0
                } else {
                    is_neutral_input(input)
                }
            } by {
                assert(is_neutral_input(before[i]));
            }
        }
        result
    }

    /// A new mixer with neutral inputs.
    fn new_neutral(initial_update_factor_index: u16) -> (r: Self)
        requires
            initial_update_factor_index <= UPDATE_FACTOR_INDEX_LIMIT,
        ensures
            mixer_ok(r.inputs_of(), r.common_of()),
            r.inputs_of().len() == Self::SIZE,
            r.inputs_of().len() >= 1,
            r.common_of() == neutral_common(initial_update_factor_index),
            forall|i: int| 0 <= i < r.inputs_of().len() ==> #[trigger] is_neutral_input(r.inputs_of()[i]),
    ;
}

/// A mixer of one input.
#[derive(Clone, Copy, Debug)]
pub struct Mixer1 {
    inputs: [MixerInput; 1],
    common: MixerCommon,
}

impl FixedSizeMixer for Mixer1 {
    const SIZE: usize = 1;

    fn new_neutral(initial_update_factor_index: u16) -> (r: Self) {
        let n = MixerInput::neutral();
        let r = Mixer1 { inputs: [n], common: MixerCommon::new(initial_update_factor_index) };
        proof {
            lemma_no_input_set_ok(1u32);
        }
        r
    }
}

impl MixerData for Mixer1 {
    closed spec fn inputs_of(&self) -> Seq<MixerInput> {
        self.inputs@
    }

    closed spec fn common_of(&self) -> MixerCommon {
        self.common
    }

    fn size(&self) -> (r: usize) {
        1
    }

    fn inputs(&self) -> (r: &[MixerInput]) {
        self.inputs.as_slice()
    }

    fn common(&self) -> (r: &MixerCommon) {
        &self.common
    }

    fn set_input_entry(&mut self, index: usize, input: MixerInput) {
        self.inputs.set(index, input);
    }

    fn set_common(&mut self, common: MixerCommon) {
        self.common = common;
    }
}

impl Mixer for Mixer1 {}
/// A mixer of two inputs.
#[derive(Clone, Copy, Debug)]
pub struct Mixer2 {
    inputs: [MixerInput; 2],
    common: MixerCommon,
}

impl FixedSizeMixer for Mixer2 {
    const SIZE: usize = 2;

    fn new_neutral(initial_update_factor_index: u16) -> (r: Self) {
        let n = MixerInput::neutral();
        let r = Mixer2 { inputs: [n, n], common: MixerCommon::new(initial_update_factor_index) };
        proof {
            lemma_no_input_set_ok(2u32);
        }
        r
    }
}

impl MixerData for Mixer2 {
    closed spec fn inputs_of(&self) -> Seq<MixerInput> {
        self.inputs@
    }

    closed spec fn common_of(&self) -> MixerCommon {
        self.common
    }

    fn size(&self) -> (r: usize) {
        2
    }

    fn inputs(&self) -> (r: &[MixerInput]) {
        self.inputs.as_slice()
    }

    fn common(&self) -> (r: &MixerCommon) {
        &self.common
    }

    fn set_input_entry(&mut self, index: usize, input: MixerInput) {
        self.inputs.set(index, input);
    }

    fn set_common(&mut self, common: MixerCommon) {
        self.common = common;
    }
}

impl Mixer for Mixer2 {}

/// A mixer of three inputs.
#[derive(Clone, Copy, Debug)]
pub struct Mixer3 {
    inputs: [MixerInput; 3],
    common: MixerCommon,
}

impl FixedSizeMixer for Mixer3 {
    const SIZE: usize = 3;

    fn new_neutral(initial_update_factor_index: u16) -> (r: Self) {
        let n = MixerInput::neutral();
        let r = Mixer3 { inputs: [n, n, n], common: MixerCommon::new(initial_update_factor_index) };
        proof {
            lemma_no_input_set_ok(3u32);
        }
        r
    }
}

impl MixerData for Mixer3 {
    closed spec fn inputs_of(&self) -> Seq<MixerInput> {
        self.inputs@
    }

    closed spec fn common_of(&self) -> MixerCommon {
        self.common
    }

    fn size(&self) -> (r: usize) {
        3
    }

    fn inputs(&self) -> (r: &[MixerInput]) {
        self.inputs.as_slice()
    }

    fn common(&self) -> (r: &MixerCommon) {
        &self.common
    }

    fn set_input_entry(&mut self, index: usize, input: MixerInput) {
        self.inputs.set(index, input);
    }

    fn set_common(&mut self, common: MixerCommon) {
        self.common = common;
    }
}

impl Mixer for Mixer3 {}

/// A mixer of four inputs.
#[derive(Clone, Copy, Debug)]
pub struct Mixer4 {
    inputs: [MixerInput; 4],
    common: MixerCommon,
}

impl FixedSizeMixer for Mixer4 {
    const SIZE: usize = 4;

    fn new_neutral(initial_update_factor_index: u16) -> (r: Self) {
        let n = MixerInput::neutral();
        let r = Mixer4 { inputs: [n, n, n, n], common: MixerCommon::new(initial_update_factor_index) };
        proof {
            lemma_no_input_set_ok(4u32);
        }
        r
    }
}

impl MixerData for Mixer4 {
    closed spec fn inputs_of(&self) -> Seq<MixerInput> {
        self.inputs@
    }

    closed spec fn common_of(&self) -> MixerCommon {
        self.common
    }

    fn size(&self) -> (r: usize) {
        4
    }

    fn inputs(&self) -> (r: &[MixerInput]) {
        self.inputs.as_slice()
    }

    fn common(&self) -> (r: &MixerCommon) {
        &self.common
    }

    fn set_input_entry(&mut self, index: usize, input: MixerInput) {
        self.inputs.set(index, input);
    }

    fn set_common(&mut self, common: MixerCommon) {
        self.common = common;
    }
}

impl Mixer for Mixer4 {}

/// A mixer of five inputs.
#[derive(Clone, Copy, Debug)]
pub struct Mixer5 {
    inputs: [MixerInput; 5],
    common: MixerCommon,
}

impl FixedSizeMixer for Mixer5 {
    const SIZE: usize = 5;

    fn new_neutral(initial_update_factor_index: u16) -> (r: Self) {
        let n = MixerInput::neutral();
        let r = Mixer5 { inputs: [n, n, n, n, n], common: MixerCommon::new(initial_update_factor_index) };
        proof {
            lemma_no_input_set_ok(5u32);
        }
        r
    }
}

impl MixerData for Mixer5 {
    closed spec fn inputs_of(&self) -> Seq<MixerInput> {
        self.inputs@
    }

    closed spec fn common_of(&self) -> MixerCommon {
        self.common
    }

    fn size(&self) -> (r: usize) {
        5
    }

    fn inputs(&self) -> (r: &[MixerInput]) {
        self.inputs.as_slice()
    }

    fn common(&self) -> (r: &MixerCommon) {
        &self.common
    }

    fn set_input_entry(&mut self, index: usize, input: MixerInput) {
        self.inputs.set(index, input);
    }

    fn set_common(&mut self, common: MixerCommon) {
        self.common = common;
    }
}

impl Mixer for Mixer5 {}

/// A mixer whose number of inputs, at most 30, is chosen when it is made.
#[derive(Clone, Debug)]
pub struct MixerN {
    inputs: Vec<MixerInput>,
    common: MixerCommon,
}

impl MixerN {
    /// A new mixer of `size` inputs, neutral or trusting its first input.
    pub fn new(size: usize, initial_update_factor_index: u16, neutral: bool) -> (r: Self)
        requires
            size <= MAX_MIXER_SIZE,
            initial_update_factor_index <= UPDATE_FACTOR_INDEX_LIMIT,
            neutral || size >= 1,
        ensures
            mixer_ok(r.inputs_of(), r.common_of()),
            r.inputs_of().len() == size,
            r.common_of() == neutral_common(initial_update_factor_index),
            initial_inputs(r.inputs_of(), neutral),
    {
        let mut result = Self::new_neutral(size, initial_update_factor_index);
        let ghost before = result.inputs_of();
        initialize_weights(&mut result, neutral);
        proof {
            assert forall|i: int| 0 <= i < result.inputs_of().len() implies #[trigger] input_ok(result.inputs_of()[i]) by {
                assert(is_neutral_input(before[i]) && input_ok(before[i]));
            }
            assert forall|i: int| 0 <= i < result.inputs_of().len() implies {
                let input = #[trigger] result.inputs_of()[i];
                if i == 0 && !neutral {
                    &&& input.weight.raw_of() == 0x20_0000
                    &&& input.prediction_sq.raw_of() == 0x4000_0000
                    &&& input.prediction_st.raw_of() == 0
                } else {
                    is_neutral_input(input)
                }
            } by {
                assert(is_neutral_input(before[i]));
            }
        }
        result
    }

    /// A new mixer of `size` neutral inputs.
    pub fn new_neutral(size: usize, initial_update_factor_index: u16) -> (r: Self)
        requires
            size <= MAX_MIXER_SIZE,
            initial_update_factor_index <= UPDATE_FACTOR_INDEX_LIMIT,
        ensures
            mixer_ok(r.inputs_of(), r.common_of()),
            r.inputs_of().len() == size,
            r.common_of() == neutral_common(initial_update_factor_index),
            forall|i: int| 0 <= i < size ==> #[trigger] is_neutral_input(r.inputs_of()[i]),
    {
        let inputs = MixerInput::new_array_neutral(size);
        let r = MixerN { inputs, common: MixerCommon::new(initial_update_factor_index) };
        proof {
            let n = size as u32;
            assert((1u32 << n) == (1u32 << size));
            lemma_no_input_set_ok(n);
            assert forall|i: int| 0 <= i < size implies #[trigger] input_ok(r.inputs_of()[i]) by {
                assert(is_neutral_input(r.inputs@[i]) && input_ok(r.inputs@[i]));
            }
        }
        r
    }
}

impl MixerData for MixerN {
    closed spec fn inputs_of(&self) -> Seq<MixerInput> {
        self.inputs@
    }

    closed spec fn common_of(&self) -> MixerCommon {
        self.common
    }

    fn size(&self) -> (r: usize) {
        self.inputs.len()
    }

    fn inputs(&self) -> (r: &[MixerInput]) {
        self.inputs.as_slice()
    }

    fn common(&self) -> (r: &MixerCommon) {
        &self.common
    }

    fn set_input_entry(&mut self, index: usize, input: MixerInput) {
        self.inputs.set(index, input);
    }

    fn set_common(&mut self, common: MixerCommon) {
        self.common = common;
    }
}

impl Mixer for MixerN {}

/// Rounding a product down to fewer fractional bits keeps its sign.
proof fn lemma_scaled_down_signed_sign(raw: int, shift: nat, min: int, max: int)
    requires
        min + 1 <= 0 <= max,
    ensures
        raw >= 0 ==> scaled_down_signed(raw, shift, min, max) >= 0,
        raw <= 0 ==> scaled_down_signed(raw, shift, min, max) <= 0,
{
    vstd::arithmetic::power2::lemma_pow2_pos(shift);
    let p = pow2(shift) as int;
    let half = pow2((shift - 1) as nat) as int;
    let biased = if raw > 0 {
        raw + half
    } else if raw < 0 {
        raw - half
    } else {
        raw
    };
    let m = clamp(biased, min + 1, max);
    if m >= 0 {
        assert(m / p >= 0) by (nonlinear_arith)
            requires
                m >= 0,
                p > 0,
        ;
    } else {
        assert((-m) / p >= 0) by (nonlinear_arith)
            requires
                -m >= 0,
                p > 0,
        ;
    }
}

/// The direction of a weight's update, for a mixed probability of a zero
/// between 0 and 1 and a non-negative rate: after a zero the weight of an
/// input that predicted a zero (a positive stretched prediction) does not
/// fall and that of an input that predicted a one does not rise; after a
/// one the reverse. The weight stays in `[-8, 8]`.
pub proof fn lemma_weight_update_direction(input: MixerInput, bit: Bit, sq: int, rate: int)
    requires
        0 <= sq <= 0x8000_0000,
        0 <= rate,
        -8 * 0x20_0000 <= input.weight.raw_of() <= 8 * 0x20_0000,
    ensures
        ({
            let w = input.weight.raw_of() as int;
            let st = input.prediction_st.raw_of() as int;
            let after = updated_weight(input, bit, error_step(bit, sq, rate));
            &&& (bit == Bit::Zero && st >= 0) || (bit == Bit::One && st <= 0) ==> w <= after
            &&& (bit == Bit::Zero && st <= 0) || (bit == Bit::One && st >= 0) ==> after <= w
            &&& -8 * 0x20_0000 <= after <= 8 * 0x20_0000
        }),
{
    let u = 0x4000_0000 * rate;
    assert(u >= 0) by (nonlinear_arith)
        requires
            rate >= 0,
            u == 0x4000_0000 * rate,
    ;
    lemma_scaled_down_signed_sign(u, 31, i64::MIN as int, i64::MAX as int);
    let r = update_rate(rate);
    let e = mix_error(bit, sq);
    let eu = e * r;
    assert(eu >= 0) by (nonlinear_arith)
        requires
            e >= 0,
            r >= 0,
            eu == e * r,
    ;
    lemma_scaled_down_signed_sign(eu, 31, i64::MIN as int, i64::MAX as int);
    let step = error_step(bit, sq, rate);
    let st = input.prediction_st.raw_of() as int;
    let product = st * step;
    assert(st >= 0 ==> product >= 0) by (nonlinear_arith)
        requires
            step >= 0,
            product == st * step,
    ;
    assert(st <= 0 ==> product <= 0) by (nonlinear_arith)
        requires
            step >= 0,
            product == st * step,
    ;
    lemma_scaled_down_signed_sign(product, 31, i64::MIN as int, i64::MAX as int);
}

/// The sizes of the mixers of three and four inputs.
pub proof fn lemma_fixed_sizes()
    ensures
        <Mixer3 as FixedSizeMixer>::SIZE == 3,
        <Mixer4 as FixedSizeMixer>::SIZE == 4,
{
}

} // verus!
