use vstd::prelude::*;
use crate::bit::Bit;
use crate::estimators::decelerating::{
    DeceleratingEstimator, make_raw, prediction_of, count_of, next_prediction, lemma_update_ok, lemma_make_raw_ok,
    lemma_update_moves_towards_bit,
};
use crate::fixed_point::FixU32;
use crate::fixed_point::types::FractOnlyU32;

verus! {

/// The adaptation rate of a decelerating estimator after `index` updates:
/// `1 / (index * factor + addend)` with 31 fractional bits.
pub open spec fn rate_spec(index: int, factor: int, addend: int) -> int {
    0x8000_0000int / (index * factor + addend)
}

/// The rates decelerate: a later rate is never larger than an earlier one,
/// and the default table starts at one half and falls to one third.
pub proof fn lemma_rates_decelerate(i: int, j: int, factor: int, addend: int)
    requires
        0 <= i <= j,
        factor >= 0,
        addend > 0,
    ensures
        rate_spec(j, factor, addend) <= rate_spec(i, factor, addend),
        rate_spec(0, 1, 2) == 0x4000_0000,
        rate_spec(1, 1, 2) == 0x8000_0000int / 3,
{
    assert(0 < i * factor + addend <= j * factor + addend) by (nonlinear_arith)
        requires 0 <= i <= j, factor >= 0, addend > 0;
    vstd::arithmetic::div_mod::lemma_div_is_ordered_by_denominator(0x8000_0000, i * factor + addend, j * factor + addend);
    assert(0 * 1 + 2 == 2 && 1 * 1 + 2 == 3);
    assert(0x8000_0000int / 2 == 0x4000_0000);
}

/// The adaptation rates of decelerating estimators, by usage count.
pub struct DeceleratingEstimatorLut([FractOnlyU32; 1024]);

impl DeceleratingEstimatorLut {
    /// The rate used after `count` updates.
    pub closed spec fn factor(&self, count: int) -> int {
        self.0@[count].raw_of() as int
    }

    /// Every rate is at most one half.
    pub closed spec fn wf(&self) -> bool {
        forall|i: int| 0 <= i < 1024 ==> #[trigger] self.0@[i].raw_of() <= 0x4000_0000
    }

    pub proof fn lemma_wf(&self, count: int)
        requires
            self.wf(),
            0 <= count < 1024,
        ensures
            0 <= self.factor(count) <= 0x4000_0000,
    {
    }

    /// The rates `1 / (n + 2)`.
    pub fn make_default() -> (r: DeceleratingEstimatorLut)
        ensures
            r.wf(),
            forall|i: int| 0 <= i < 1024 ==> #[trigger] r.factor(i) == rate_spec(i, 1, 2),
    {
        Self::make(1, 2)
    }

    /// The rates `1 / (n * factor + addend)`.
    pub fn make(factor: u32, addend: u32) -> (r: DeceleratingEstimatorLut)
        requires
            addend > 0,
            1023 * factor + addend <= u32::MAX,
        ensures
            forall|i: int| 0 <= i < 1024 ==> #[trigger] r.factor(i) == rate_spec(i, factor as int, addend as int),
            addend >= 2 ==> r.wf(),
    {
        let mut array = [FractOnlyU32::new_unchecked(0); 1024];
        let mut index: usize = 0;
        while index < 1024
            invariant
                0 <= index <= 1024,
                addend > 0,
                1023 * factor + addend <= u32::MAX,
                forall|i: int| 0 <= i < index ==> #[trigger] array@[i].raw_of() == rate_spec(i, factor as int, addend as int),
                addend >= 2 ==> forall|i: int| 0 <= i < index ==> #[trigger] array@[i].raw_of() <= 0x4000_0000,
            decreases 1024 - index,
        {
            proof {
                assert(index * factor <= 1023 * factor) by (nonlinear_arith)
                    requires index <= 1023;
                assert(index * factor >= 0) by (nonlinear_arith)
                    requires index >= 0, factor >= 0;
            }
            let denominator = (index as u32) * factor + addend;
            let rate = 0x8000_0000u32 / denominator;
            proof {
                if addend >= 2 {
                    assert(rate <= 0x4000_0000) by (nonlinear_arith)
                        requires denominator >= 2, rate == 0x8000_0000u32 / denominator;
                }
            }
            array[index] = FractOnlyU32::new_unchecked(rate);
            index += 1;
        }
        DeceleratingEstimatorLut(array)
    }

    /// The rate used after `index` updates.
    pub fn get(&self, index: u16) -> (r: FractOnlyU32)
        requires
            index < 1024,
        ensures
            r.raw_of() == self.factor(index as int),
    {
        self.0[index as usize]
    }
}

/// The raw word of an estimator after `n` zero bits from the start.
pub open spec fn after_zeros(lut: DeceleratingEstimatorLut, n: nat) -> int
    decreases n,
{
    if n == 0 {
        make_raw(0x4000_0000, 0)
    } else {
        let previous = after_zeros(lut, (n - 1) as nat);
        let count = count_of(previous);
        make_raw(
            next_prediction(prediction_of(previous), lut.factor(count), Bit::Zero),
            if count < 1000 {
                count + 1
            } else {
                1000
            },
        )
    }
}

/// One more zero after a valid estimator of a run of zeros gives a valid
/// estimator whose prediction of a zero is not lower.
proof fn lemma_zero_step(lut: DeceleratingEstimatorLut, n: nat)
    requires
        lut.wf(),
        0 <= after_zeros(lut, n) <= u32::MAX,
        DeceleratingEstimator::from_raw(after_zeros(lut, n) as u32).wf(),
    ensures
        0 <= after_zeros(lut, n + 1) <= u32::MAX,
        DeceleratingEstimator::from_raw(after_zeros(lut, n + 1) as u32).wf(),
        prediction_of(after_zeros(lut, n + 1)) >= prediction_of(after_zeros(lut, n)),
{
    let raw = after_zeros(lut, n);
    let e = DeceleratingEstimator::from_raw(raw as u32);
    DeceleratingEstimator::lemma_from_raw(raw as u32);
    let count = count_of(raw);
    lut.lemma_wf(count);
    lemma_update_ok(e, lut.factor(count), Bit::Zero);
    lemma_update_moves_towards_bit(e, lut.factor(count), Bit::Zero);
    let c = if count < 1000 {
        count + 1
    } else {
        1000
    };
    lemma_make_raw_ok(next_prediction(prediction_of(raw), lut.factor(count), Bit::Zero), c);
    assert(after_zeros(lut, n + 1) == make_raw(next_prediction(prediction_of(raw), lut.factor(count), Bit::Zero), c));
}

/// Runs of zeros make a zero ever more likely: the estimator after `n`
/// zeros is valid, predicts a zero with probability at least one half, and
/// one more zero does not lower it.
pub proof fn lemma_zero_runs_raise_prediction(lut: DeceleratingEstimatorLut, n: nat)
    requires
        lut.wf(),
    ensures
        0 <= after_zeros(lut, n) <= u32::MAX,
        DeceleratingEstimator::from_raw(after_zeros(lut, n) as u32).wf(),
        prediction_of(after_zeros(lut, n)) >= 0x4000_0000,
        prediction_of(after_zeros(lut, n + 1)) >= prediction_of(after_zeros(lut, n)),
    decreases n,
{
    if n == 0 {
        lemma_make_raw_ok(0x4000_0000, 0);
        assert(prediction_of(make_raw(0x4000_0000, 0)) == 0x4000_0000);
    } else {
        lemma_zero_runs_raise_prediction(lut, (n - 1) as nat);
        lemma_zero_step(lut, (n - 1) as nat);
    }
    lemma_zero_step(lut, n);
}

/// The raw word of the estimator after a run of `n` copies of `bit`: a run of
/// ones mirrors the run of zeros.
pub open spec fn bit_run_raw(cache: DeceleratingEstimatorCache, bit: Bit, n: int) -> int {
    let zeros = cache.entry(n).raw_of() as int;
    if bit == Bit::Zero {
        zeros
    } else {
        make_raw(0x8000_0000 - prediction_of(zeros), count_of(zeros))
    }
}

/// The raw word of the estimator of a new node: a run of `n` copies of the
/// opposite bit, then `bit`.
pub open spec fn new_node_raw(cache: DeceleratingEstimatorCache, lut: DeceleratingEstimatorLut, bit: Bit, n: int) -> int {
    let run = bit_run_raw(cache, bit.flipped(), n);
    make_raw(
        next_prediction(prediction_of(run), lut.factor(count_of(run)), bit),
        if count_of(run) < 1000 {
            count_of(run) + 1
        } else {
            1000
        },
    )
}

/// The estimator of a new node is that of a run of the opposite bit, as
/// `for_bit_run` gives it, taught the node's bit as
/// `DeceleratingEstimator::update` does: a context that repeated one bit
/// and then saw the other starts from its history of the repeated bit.
pub proof fn lemma_new_node_continues_opposite_run(
    cache: DeceleratingEstimatorCache,
    lut: DeceleratingEstimatorLut,
    bit: Bit,
    n: int,
)
    ensures
        ({
            let run = if bit == Bit::One {
                cache.entry(n).raw_of() as int
            } else {
                make_raw(
                    0x8000_0000 - prediction_of(cache.entry(n).raw_of() as int),
                    count_of(cache.entry(n).raw_of() as int),
                )
            };
            new_node_raw(cache, lut, bit, n) == make_raw(
                next_prediction(prediction_of(run), lut.factor(count_of(run)), bit),
                if count_of(run) < 1000 {
                    count_of(run) + 1
                } else {
                    1000
                },
            )
        }),
{
}

/// The estimators after runs of zero bits, by run length.
pub struct DeceleratingEstimatorCache([DeceleratingEstimator; 1024]);

impl DeceleratingEstimatorCache {
    /// The estimator after `n` zero bits.
    pub closed spec fn entry(&self, n: int) -> DeceleratingEstimator {
        self.0@[n]
    }

    pub closed spec fn wf(&self) -> bool {
        forall|i: int| 0 <= i < 1024 ==> #[trigger] self.0@[i].wf()
    }

    /// Every estimator of the cache is valid.
    pub proof fn lemma_entry_wf(&self, n: int)
        requires
            self.wf(),
            0 <= n < 1024,
        ensures
            self.entry(n).wf(),
    {
    }

    pub fn new(lut: &DeceleratingEstimatorLut) -> (r: DeceleratingEstimatorCache)
        requires
            lut.wf(),
        ensures
            r.wf(),
            forall|i: int| 0 <= i < 1024 ==> #[trigger] r.entry(i).raw_of() == after_zeros(*lut, i as nat),
    {
        let mut current = DeceleratingEstimator::new();
        let mut array = [DeceleratingEstimator::invalid(); 1024];
        let mut index: usize = 0;
        while index < 1024
            invariant
                0 <= index <= 1024,
                lut.wf(),
                current.wf(),
                current.raw_of() == after_zeros(*lut, index as nat),
                forall|i: int| 0 <= i < index ==> #[trigger] array@[i].raw_of() == after_zeros(*lut, i as nat),
                forall|i: int| 0 <= i < index ==> #[trigger] array@[i].wf(),
            decreases 1024 - index,
        {
            array[index] = current;
            proof {
                lut.lemma_wf(count_of(current.raw_of() as int));
                lemma_update_ok(current, lut.factor(count_of(current.raw_of() as int)), Bit::Zero);
            }
            current.update(Bit::Zero, lut);
            index += 1;
        }
        DeceleratingEstimatorCache(array)
    }

    /// The estimator after a run of `run_length` copies of a bit; a run of
    /// ones mirrors the run of zeros.
    pub fn for_bit_run(&self, bit: Bit, run_length: u16) -> (r: DeceleratingEstimator)
        requires
            self.wf(),
            run_length <= 1000,
        ensures
            r.wf(),
            r.raw_of() == bit_run_raw(*self, bit, run_length as int),
            bit == Bit::Zero ==> r == self.entry(run_length as int),
            bit == Bit::One ==> r.raw_of() == make_raw(
                0x8000_0000 - prediction_of(self.entry(run_length as int).raw_of() as int),
                count_of(self.entry(run_length as int).raw_of() as int),
            ),
    {
        if bit.is_0() {
            self.0[run_length as usize]
        } else {
            let inverse = self.0[run_length as usize];
            assert(self.0@[run_length as int].wf());
            let prediction = FractOnlyU32::new(0x8000_0000 - inverse.prediction().raw(), 31);
            DeceleratingEstimator::make(prediction, inverse.usage_count())
        }
    }

    /// The estimator of a context that saw a run of the opposite bit, then
    /// `bit`.
    pub fn for_new_node(&self, bit: Bit, run_length: u16, lut: &DeceleratingEstimatorLut) -> (r: DeceleratingEstimator)
        requires
            self.wf(),
            lut.wf(),
            run_length <= 1000,
        ensures
            r.wf(),
            r.raw_of() == new_node_raw(*self, *lut, bit, run_length as int),
            ({
                let run = bit_run_raw(*self, bit.flipped(), run_length as int);
                r.raw_of() == make_raw(
                    next_prediction(prediction_of(run), lut.factor(count_of(run)), bit),
                    if count_of(run) < 1000 {
                        count_of(run) + 1
                    } else {
                        1000
                    },
                )
            }),
    {
        let mut estimator = self.for_bit_run(bit.negated(), run_length);
        proof {
            lut.lemma_wf(count_of(estimator.raw_of() as int));
            lemma_update_ok(estimator, lut.factor(count_of(estimator.raw_of() as int)), bit);
        }
        estimator.update(bit, lut);
        estimator
    }
}

} // verus!
