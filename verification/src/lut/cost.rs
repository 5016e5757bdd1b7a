use vstd::prelude::*;
use crate::bit::Bit;
use crate::entropy::{FinalProbability, probability_of_bit};
use crate::estimators::cost::{CostTracker, cost_next};
use crate::estimators::decelerating::{DeceleratingEstimator, prediction_of, count_of, lemma_update_ok};
use crate::fixed_point::{FixU32, scaled_down_unsigned};
use crate::fixed_point::fix_u32;
use crate::fixed_point::fix_u32::log2_spec;
use crate::lut::estimator::{DeceleratingEstimatorLut, after_zeros};
use crate::lut::log2::Log2Lut;
use vstd::arithmetic::power2::lemma2_to64;

verus! {

/// A 31-bit probability of bit 0 brought to 12 bits, rounded, and kept
/// strictly between 0 and 1.
pub open spec fn final_probability_of(prediction: int) -> int {
    let scaled = scaled_down_unsigned(prediction, 19, u32::MAX as int);
    if scaled < 1 {
        1
    } else if scaled > 4095 {
        4095
    } else {
        scaled
    }
}

/// The cost of coding a bit under a 12-bit probability of bit 0.
pub open spec fn coding_cost(log2_lut: Log2Lut, probability: int, is_1: bool) -> int {
    -log2_spec(&log2_lut, probability_of_bit(probability, is_1) as u32, 12)
}

/// The probability of bit 0 of an estimator after `n` zero bits.
pub open spec fn probability_after_zeros(rates: DeceleratingEstimatorLut, n: nat) -> int {
    final_probability_of(prediction_of(after_zeros(rates, n)))
}

/// The cost tracker after `n` zero bits, each coded under the estimator's
/// probability at that time.
pub open spec fn tracker_after_zeros(log2_lut: Log2Lut, rates: DeceleratingEstimatorLut, n: nat) -> int
    decreases n,
{
    if n == 0 {
        0x8000
    } else {
        let k = (n - 1) as nat;
        cost_next(
            tracker_after_zeros(log2_lut, rates, k),
            coding_cost(log2_lut, probability_after_zeros(rates, k), false),
        )
    }
}

/// The cost tracker of a new node whose context saw `n` zero bits and then
/// a one.
pub open spec fn new_node_tracker(log2_lut: Log2Lut, rates: DeceleratingEstimatorLut, n: nat) -> int {
    cost_next(
        tracker_after_zeros(log2_lut, rates, n),
        coding_cost(log2_lut, probability_after_zeros(rates, n), true),
    )
}

/// Cost trackers of new nodes, by the length of the run of the opposite bit
/// that their context saw before.
pub struct CostTrackersLut([CostTracker; 1024]);

impl CostTrackersLut {
    pub closed spec fn entry(&self, index: int) -> int {
        self.0@[index].raw_of() as int
    }

    /// Every entry is the raw value of a tracker.
    pub proof fn lemma_entry_range(&self, index: int)
        ensures
            0 <= self.entry(index) <= u16::MAX,
    {
    }

    pub fn new(log2_lut: &Log2Lut, rates_lut: &DeceleratingEstimatorLut) -> (r: Self)
        requires
            log2_lut.wf(),
            rates_lut.wf(),
        ensures
            forall|i: int| 0 <= i < 1024 ==> #[trigger] r.entry(i) == new_node_tracker(*log2_lut, *rates_lut, i as nat),
    {
        let mut cost_tracker = CostTracker::initial();
        let mut estimator = DeceleratingEstimator::new();
        let mut result = [cost_tracker; 1024];
        let mut index: usize = 0;
        proof {
            lemma2_to64();
        }
        while index < 1024
            invariant
                index <= 1024,
                log2_lut.wf(),
                rates_lut.wf(),
                estimator.wf(),
                estimator.raw_of() == after_zeros(*rates_lut, index as nat),
                cost_tracker.raw_of() == tracker_after_zeros(*log2_lut, *rates_lut, index as nat),
                forall|i: int| 0 <= i < index ==> #[trigger] result@[i].raw_of() == new_node_tracker(*log2_lut, *rates_lut, i as nat),
            decreases 1024 - index,
        {
            let prediction = estimator.prediction();
            let scaled = fix_u32::scaled_down(prediction.raw(), 19);
            let clamped = if scaled < 1 {
                1
            } else if scaled > 4095 {
                4095
            } else {
                scaled
            };
            let final_probability = FinalProbability::new(clamped, 12);
            let opposite_cost = final_probability.estimate_cost(true, log2_lut);
            result[index] = cost_tracker.updated(opposite_cost);
            let cost = final_probability.estimate_cost(false, log2_lut);
            cost_tracker = cost_tracker.updated(cost);
            proof {
                rates_lut.lemma_wf(count_of(estimator.raw_of() as int));
                lemma_update_ok(estimator, rates_lut.factor(count_of(estimator.raw_of() as int)), Bit::Zero);
            }
            estimator.update(Bit::Zero, rates_lut);
            index += 1;
        }
        CostTrackersLut(result)
    }

    /// The tracker of a new node after a run of the opposite bit; runs past
    /// the table's end share its last entry.
    pub fn for_new_node(&self, opposite_bit_run_length: u16) -> (r: CostTracker)
        ensures
            r.raw_of() == self.entry(if opposite_bit_run_length < 1023 {
                opposite_bit_run_length as int
            } else {
                1023
            }),
    {
        let index = if (opposite_bit_run_length as usize) < 1023 {
            opposite_bit_run_length as usize
        } else {
            1023
        };
        self.0[index]
    }
}

} // verus!
