use vstd::prelude::*;
use crate::bit::Bit;
use crate::estimators::decelerating::{
    DeceleratingEstimator, make_raw, next_prediction, prediction_of, count_of, lemma_update_ok,
};
use crate::fixed_point::{FixI32, FixU32};
use crate::fixed_point::types::{FractOnlyU32, StretchedProbD};
use crate::lut::LookUpTables;
use crate::lut::estimator::DeceleratingEstimatorLut;
use crate::lut::stretch::stretch_spec;
use crate::mixing::mixer::{
    Mixer, FixedSizeMixer, MixerInput, mixer_ok, all_inputs_set, mixed_stretched, updated_weight, error_step,
    next_update_factor_index, UPDATE_FACTOR_INDEX_LIMIT,
};
use crate::lut::squash::{SquashLut, squash_spec, squash_table_ok};
use crate::util::indexer::{Indexer, index_prefix, size_prefix, size_fits, lemma_index_below_size};

verus! {

/// Whether the sub-indexes given after the first `start` ones are each below
/// the size of their dimension, and fill the remaining dimensions.
pub open spec fn sub_indices_fill(limits: Seq<usize>, start: nat, sub_indices: Seq<usize>) -> bool {
    &&& start + sub_indices.len() == limits.len()
    &&& forall|i: int| 0 <= i < sub_indices.len() ==> #[trigger] sub_indices[i] < limits[start + i]
}

/// The raw word of an estimator after it learns a bit.
pub open spec fn updated_estimator_raw(e: DeceleratingEstimator, lut: DeceleratingEstimatorLut, bit: Bit) -> int {
    let count = count_of(e.raw_of() as int);
    make_raw(
        next_prediction(prediction_of(e.raw_of() as int), lut.factor(count), bit),
        if count < 1000 { count + 1 } else { 1000 },
    )
}

/// What teaching a kit's waiting estimator the coded bit does: that
/// estimator learns the bit, the others stay, and none waits any more.
pub open spec fn estimators_updated<Idx: Indexer>(
    before: EstimatorsWithIndexer<Idx>,
    after: EstimatorsWithIndexer<Idx>,
    input_bit: Bit,
    luts: LookUpTables,
) -> bool {
    let index = before.index_of().unwrap() as int;
    &&& after.wf()
    &&& after.limits_of() == before.limits_of()
    &&& after.index_of() is None
    &&& after.estimators_of().len() == before.estimators_of().len()
    &&& forall|i: int| 0 <= i < before.estimators_of().len() && i != index ==> #[trigger] after.estimators_of()[i]
        == before.estimators_of()[i]
    &&& after.estimators_of()[index].raw_of() == updated_estimator_raw(
        before.estimators_of()[index],
        luts.rates_of(),
        input_bit,
    )
}

/// Gives the indexer the remaining sub-indexes and takes the array index
/// they make.
fn select_index<Idx: Indexer>(indexer: &mut Idx, sub_indices: &[usize]) -> (r: usize)
    requires
        size_fits(old(indexer).limits(), Idx::dims()),
        old(indexer).current() <= Idx::dims(),
        forall|i: int| 0 <= i < old(indexer).current() ==> #[trigger] old(indexer).values()[i] < old(indexer).limits()[i],
        sub_indices_fill(old(indexer).limits(), old(indexer).current(), sub_indices@),
    ensures
        r == index_prefix(
            old(indexer).limits(),
            old(indexer).values().subrange(0, old(indexer).current() as int) + sub_indices@,
            Idx::dims(),
        ),
        r < size_prefix(old(indexer).limits(), Idx::dims()),
        final(indexer).limits() == old(indexer).limits(),
        final(indexer).current() == 0,
{
    proof {
        indexer.lemma_lengths();
    }
    let ghost start = indexer.current();
    let ghost old_values = indexer.values();
    let ghost limits = indexer.limits();
    let n = sub_indices.len();
    let mut i: usize = 0;
    while i < n
        invariant
            i <= n,
            n == sub_indices@.len(),
            start + n == Idx::dims(),
            indexer.current() == start + i,
            indexer.limits() == limits,
            limits.len() == Idx::dims(),
            indexer.values().len() == Idx::dims(),
            sub_indices_fill(limits, start, sub_indices@),
            forall|j: int| 0 <= j < start ==> #[trigger] indexer.values()[j] == old_values[j],
            forall|j: int| 0 <= j < i ==> #[trigger] indexer.values()[start + j] == sub_indices@[j],
        decreases n - i,
    {
        assert(sub_indices@[i as int] < limits[start + i]);
        indexer.with_sub_index(sub_indices[i]);
        proof {
            indexer.lemma_lengths();
        }
        i += 1;
    }
    let ghost values = indexer.values();
    proof {
        let expected = old_values.subrange(0, start as int) + sub_indices@;
        assert(values =~= expected) by {
            assert forall|j: int| 0 <= j < Idx::dims() implies values[j] == expected[j] by {
                if j >= start {
                    assert(values[start + (j - start)] == sub_indices@[j - start]);
                }
            }
        }
        assert forall|j: int| 0 <= j < Idx::dims() implies values[j] < limits[j] by {
            if j >= start {
                assert(sub_indices@[j - start] < limits[start + (j - start)]);
            }
        }
        assert forall|k: nat| k <= Idx::dims() implies #[trigger] index_prefix(limits, values, k) <= usize::MAX by {
            lemma_index_below_size(limits, values, k);
        }
        lemma_index_below_size(limits, values, Idx::dims());
    }
    indexer.get_array_index_and_reset()
}

/// Estimators chosen by an index made of several sub-indexes; each predict is
/// followed by an update of the same estimator.
pub struct EstimatorsWithIndexer<Idx: Indexer> {
    estimators: Vec<DeceleratingEstimator>,
    indexer: Idx,
    index_opt: Option<usize>,
}

impl<Idx: Indexer> EstimatorsWithIndexer<Idx> {
    /// The estimators, by array index.
    pub closed spec fn estimators_of(&self) -> Seq<DeceleratingEstimator> {
        self.estimators@
    }

    /// The sizes of the dimensions.
    pub closed spec fn limits_of(&self) -> Seq<usize> {
        self.indexer.limits()
    }

    /// The index of the estimator that made the last prediction, while it
    /// waits for its update.
    pub closed spec fn index_of(&self) -> Option<usize> {
        self.index_opt
    }

    /// One valid estimator per index, and a pending index within range.
    pub closed spec fn wf(&self) -> bool {
        &&& self.indexer.current() == 0
        &&& size_fits(self.indexer.limits(), Idx::dims())
        &&& self.estimators@.len() == size_prefix(self.indexer.limits(), Idx::dims())
        &&& forall|i: int| 0 <= i < self.estimators@.len() ==> (#[trigger] self.estimators@[i]).wf()
        &&& (self.index_opt matches Some(i) ==> i < self.estimators@.len())
    }

    pub proof fn lemma_wf(&self)
        requires
            self.wf(),
        ensures
            self.estimators_of().len() == size_prefix(self.limits_of(), Idx::dims()),
            forall|i: int| 0 <= i < self.estimators_of().len() ==> (#[trigger] self.estimators_of()[i]).wf(),
            self.index_of() matches Some(i) ==> i < self.estimators_of().len(),
    {
    }

    /// Fresh estimators, one per index of the indexer.
    pub fn new(indexer: Idx) -> (r: Self)
        requires
            indexer.current() == 0,
            size_fits(indexer.limits(), Idx::dims()),
        ensures
            r.wf(),
            r.limits_of() == indexer.limits(),
            r.index_of() is None,
            r.estimators_of().len() == size_prefix(indexer.limits(), Idx::dims()),
            forall|i: int| 0 <= i < r.estimators_of().len() ==>
                (#[trigger] r.estimators_of()[i]).raw_of() == make_raw(0x4000_0000, 0),
    {
        let size = indexer.get_array_size();
        let mut estimators: Vec<DeceleratingEstimator> = Vec::new();
        let mut i: usize = 0;
        while i < size
            invariant
                i <= size,
                estimators@.len() == i,
                forall|j: int| 0 <= j < i ==> (#[trigger] estimators@[j]).wf()
                    && estimators@[j].raw_of() == make_raw(0x4000_0000, 0),
            decreases size - i,
        {
            estimators.push(DeceleratingEstimator::new());
            i += 1;
        }
        EstimatorsWithIndexer { estimators, indexer, index_opt: None }
    }

    /// The prediction of the estimator that the sub-indexes select, as a
    /// probability and stretched; that estimator waits for its update.
    pub fn predict(&mut self, luts: &LookUpTables, sub_indices: &[usize]) -> (r: (FractOnlyU32, StretchedProbD))
        requires
            old(self).wf(),
            luts.wf(),
            old(self).index_of() is None,
            sub_indices_fill(old(self).limits_of(), 0, sub_indices@),
        ensures
            final(self).wf(),
            final(self).limits_of() == old(self).limits_of(),
            final(self).estimators_of() == old(self).estimators_of(),
            final(self).index_of() == Some(index_prefix(old(self).limits_of(), sub_indices@, Idx::dims()) as usize),
            r.0.raw_of() == prediction_of(
                old(self).estimators_of()[index_prefix(old(self).limits_of(), sub_indices@, Idx::dims())].raw_of() as int,
            ),
            r.1.raw_of() == stretch_spec(luts.stretch_of().table(), r.0.raw_of()),
            predictions_ok(seq![r]),
    {
        proof {
            luts.lemma_wf();
            assert(self.indexer.values().subrange(0, 0) + sub_indices@ =~= sub_indices@);
        }
        let index = select_index(&mut self.indexer, sub_indices);
        self.index_opt = Some(index);
        let prediction_sq = self.estimators[index].prediction();
        let prediction_st = luts.stretch_lut().stretch(prediction_sq);
        (prediction_sq, prediction_st)
    }

    /// Teaches the estimator of the last prediction the coded bit.
    pub fn update(&mut self, input_bit: Bit, luts: &LookUpTables)
        requires
            old(self).wf(),
            luts.wf(),
            old(self).index_of() is Some,
        ensures
            estimators_updated(*old(self), *final(self), input_bit, *luts),
    {
        let index = self.index_opt.unwrap();
        self.index_opt = None;
        let rates = luts.d_estimator_rates();
        proof {
            luts.lemma_wf();
            let e = self.estimators@[index as int];
            assert(e.wf());
            rates.lemma_wf(count_of(e.raw_of() as int));
            lemma_update_ok(e, rates.factor(count_of(e.raw_of() as int)), input_bit);
        }
        self.estimators[index].update(input_bit, rates);
    }
}

/// A mixer that waits for its inputs: all of them valid, none set.
pub open spec fn fresh_mixer<M: Mixer>(m: M) -> bool {
    &&& mixer_ok(m.inputs_of(), m.common_of())
    &&& m.common_of().inputs_mask == 0
}

/// The inputs with the given predictions and their weights kept.
pub open spec fn with_predictions(inputs: Seq<MixerInput>, predictions: Seq<(FractOnlyU32, StretchedProbD)>) -> Seq<MixerInput> {
    Seq::new(
        inputs.len(),
        |i: int| MixerInput { weight: inputs[i].weight, prediction_sq: predictions[i].0, prediction_st: predictions[i].1 },
    )
}

/// Whether predictions can be given to a mixer: valid probabilities and
/// stretched values.
pub open spec fn predictions_ok(predictions: Seq<(FractOnlyU32, StretchedProbD)>) -> bool {
    forall|i: int| 0 <= i < predictions.len() ==> {
        &&& FractOnlyU32::raw_ok((#[trigger] predictions[i]).0.raw_of())
        &&& StretchedProbD::raw_ok(predictions[i].1.raw_of())
    }
}

/// Setting input `k` of a mixer whose first `k` inputs are set leaves the
/// first `k + 1` set.
proof fn lemma_next_input_mask(k: u32)
    requires
        k < 30,
    ensures
        ((1u32 << k) - 1) as u32 & (1u32 << k) == 0,
        ((1u32 << k) - 1) as u32 | (1u32 << k) == (1u32 << (k + 1) as u32) - 1,
        (((1u32 << k) - 1) as u32) < (1u32 << 30u32),
        (1u32 << 0u32) == 1,
{
    assert(((1u32 << k) - 1) as u32 & (1u32 << k) == 0
        && ((1u32 << k) - 1) as u32 | (1u32 << k) == (1u32 << (k + 1) as u32) - 1
        && (((1u32 << k) - 1) as u32) < (1u32 << 30u32)
        && (1u32 << 0u32) == 1) by (bit_vector)
        requires k < 30;
}

/// Gives a mixer with no input set the predictions of its inputs, in order,
/// and mixes them.
pub fn mix_predictions<M: Mixer>(
    mixer: &mut M,
    predictions: &[(FractOnlyU32, StretchedProbD)],
    squash_lut: &SquashLut,
) -> (r: (FractOnlyU32, StretchedProbD))
    requires
        fresh_mixer(*old(mixer)),
        predictions@.len() == old(mixer).inputs_of().len(),
        predictions_ok(predictions@),
        squash_table_ok(squash_lut.table()),
    ensures
        mixer_ok(final(mixer).inputs_of(), final(mixer).common_of()),
        final(mixer).inputs_of() == with_predictions(old(mixer).inputs_of(), predictions@),
        all_inputs_set(final(mixer).common_of(), final(mixer).inputs_of().len()),
        final(mixer).common_of().update_factor_index == old(mixer).common_of().update_factor_index,
        r.1.raw_of() == mixed_stretched(final(mixer).inputs_of()),
        r.0.raw_of() == squash_spec(squash_lut.table(), r.1.raw_of() as int),
        1 <= r.0.raw_of() < 0x8000_0000,
        StretchedProbD::raw_ok(r.1.raw_of()),
{
    proof {
        lemma_next_input_mask(0);
        assert((1u32 << 0usize) == (1u32 << 0u32));
    }
    let ghost old_inputs = mixer.inputs_of();
    let ghost old_ufi = mixer.common_of().update_factor_index;
    let n = predictions.len();
    let mut k: usize = 0;
    while k < n
        invariant
            k <= n,
            n == predictions@.len(),
            n <= 30,
            predictions_ok(predictions@),
            mixer_ok(mixer.inputs_of(), mixer.common_of()),
            mixer.inputs_of().len() == n,
            old_inputs.len() == n,
            mixer.common_of().inputs_mask == (1u32 << k) - 1,
            mixer.common_of().update_factor_index == old_ufi,
            forall|j: int| k <= j < n ==> #[trigger] mixer.inputs_of()[j] == old_inputs[j],
            forall|j: int| 0 <= j < k ==> #[trigger] mixer.inputs_of()[j] == with_predictions(old_inputs, predictions@)[j],
        decreases n - k,
    {
        let prediction = predictions[k];
        let ghost before_k = mixer.inputs_of()[k as int];
        proof {
            assert(before_k == old_inputs[k as int]);
            lemma_next_input_mask(k as u32);
            assert((1u32 << k) == (1u32 << (k as u32)));
            assert((1u32 << (k + 1)) == (1u32 << ((k + 1) as u32)));
            assert(FractOnlyU32::raw_ok(predictions@[k as int].0.raw_of()));
        }
        mixer.set_input(k, prediction.0, prediction.1);
        proof {
            let wp = with_predictions(old_inputs, predictions@);
            assert(mixer.inputs_of()[k as int] == wp[k as int]);
            assert forall|j: int| 0 <= j < k + 1 implies #[trigger] mixer.inputs_of()[j] == wp[j] by {
                if j < k {
                    assert(mixer.inputs_of()[j] == wp[j]);
                }
            }
        }
        k += 1;
    }
    proof {
        assert(mixer.inputs_of() =~= with_predictions(old_inputs, predictions@));
    }
    mixer.mix_all(squash_lut)
}

/// What teaching a kit's waiting mixer the coded bit does: the result of
/// its prediction is given back, its weights move by the error step of that
/// result, its inputs are cleared and its update factor index advances up to
/// `max_update_factor_index`; every other mixer stays.
pub open spec fn kit_updated<Mxr: Mixer + FixedSizeMixer, Idx: Indexer>(
    before_kit: MixersWithIndexer<Mxr, Idx>,
    after_kit: MixersWithIndexer<Mxr, Idx>,
    input_bit: Bit,
    max_update_factor_index: int,
    r: (FractOnlyU32, StretchedProbD),
    luts: LookUpTables,
) -> bool {
    let index = before_kit.index_of().unwrap() as int;
    let before = before_kit.mixers_of()[index];
    let after = after_kit.mixers_of()[index];
    let step = error_step(
        input_bit,
        r.0.raw_of() as int,
        luts.rates_of().factor(before.common_of().update_factor_index as int),
    );
    &&& Some(r) == before_kit.mixing_result_of()
    &&& after_kit.wf()
    &&& after_kit.limits_of() == before_kit.limits_of()
    &&& after_kit.pending_of().len() == 0
    &&& after_kit.index_of() is None
    &&& after_kit.mixers_of().len() == before_kit.mixers_of().len()
    &&& forall|j: int| 0 <= j < before_kit.mixers_of().len() && j != index ==>
        #[trigger] after_kit.mixers_of()[j] == before_kit.mixers_of()[j]
    &&& after.inputs_of().len() == before.inputs_of().len()
    &&& forall|i: int| 0 <= i < before.inputs_of().len() ==> {
        &&& (#[trigger] after.inputs_of()[i]).weight.raw_of()
            == updated_weight(before.inputs_of()[i], input_bit, step)
        &&& after.inputs_of()[i].prediction_sq == before.inputs_of()[i].prediction_sq
        &&& after.inputs_of()[i].prediction_st == before.inputs_of()[i].prediction_st
    }
    &&& after.common_of().inputs_mask == 0
    &&& after.common_of().update_factor_index == next_update_factor_index(
        before.common_of().update_factor_index as int,
        max_update_factor_index,
    )
}

/// Mixers chosen by an index made of several sub-indexes, some of which
/// may be given ahead of the prediction; each predict is followed by an
/// update of the same mixer.
pub struct MixersWithIndexer<Mxr: Mixer + FixedSizeMixer, Idx: Indexer> {
    mixers: Vec<Mxr>,
    indexer: Idx,
    index_opt: Option<usize>,
    mixing_result_opt: Option<(FractOnlyU32, StretchedProbD)>,
}

impl<Mxr: Mixer + FixedSizeMixer, Idx: Indexer> MixersWithIndexer<Mxr, Idx> {
    /// The mixers, by array index.
    pub closed spec fn mixers_of(&self) -> Seq<Mxr> {
        self.mixers@
    }

    /// The sizes of the dimensions.
    pub closed spec fn limits_of(&self) -> Seq<usize> {
        self.indexer.limits()
    }

    /// The sub-indexes given ahead of the next prediction.
    pub closed spec fn pending_of(&self) -> Seq<usize> {
        self.indexer.values().subrange(0, self.indexer.current() as int)
    }

    /// The index of the mixer that made the last prediction, while it waits
    /// for its update.
    pub closed spec fn index_of(&self) -> Option<usize> {
        self.index_opt
    }

    /// The result of the last prediction, while it waits for its update.
    pub closed spec fn mixing_result_of(&self) -> Option<(FractOnlyU32, StretchedProbD)> {
        self.mixing_result_opt
    }

    /// One valid mixer of the type's size per index; only the mixer that
    /// waits for its update has inputs set, all of them.
    pub closed spec fn wf(&self) -> bool {
        &&& self.indexer.current() <= Idx::dims()
        &&& forall|i: int| 0 <= i < self.indexer.current() ==> #[trigger] self.indexer.values()[i] < self.indexer.limits()[i]
        &&& size_fits(self.indexer.limits(), Idx::dims())
        &&& self.mixers@.len() == size_prefix(self.indexer.limits(), Idx::dims())
        &&& forall|i: int| 0 <= i < self.mixers@.len() ==> {
            &&& mixer_ok((#[trigger] self.mixers@[i]).inputs_of(), self.mixers@[i].common_of())
            &&& self.mixers@[i].inputs_of().len() == Mxr::SIZE
            &&& (self.index_opt != Some(i as usize) ==> self.mixers@[i].common_of().inputs_mask == 0)
        }
        &&& (self.index_opt is None <==> self.mixing_result_opt is None)
        &&& (self.index_opt matches Some(i) ==> {
            &&& i < self.mixers@.len()
            &&& self.indexer.current() == 0
            &&& all_inputs_set(self.mixers@[i as int].common_of(), Mxr::SIZE as nat)
        })
        &&& (self.mixing_result_opt matches Some(res) ==> 1 <= res.0.raw_of() < 0x8000_0000)
    }

    pub proof fn lemma_wf(&self)
        requires
            self.wf(),
        ensures
            self.mixers_of().len() == size_prefix(self.limits_of(), Idx::dims()),
            self.pending_of().len() <= Idx::dims(),
            forall|i: int| 0 <= i < self.mixers_of().len() ==> mixer_ok(
                (#[trigger] self.mixers_of()[i]).inputs_of(),
                self.mixers_of()[i].common_of(),
            ) && self.mixers_of()[i].inputs_of().len() == Mxr::SIZE,
            self.index_of() matches Some(i) ==> i < self.mixers_of().len() && self.pending_of().len() == 0,
            self.index_of() is None <==> self.mixing_result_of() is None,
    {
        self.indexer.lemma_lengths();
    }

    /// Mixers made by `mixer_maker`, one per index of the indexer.
    pub fn new<MxrMaker: Fn() -> Mxr>(mixer_maker: MxrMaker, indexer: Idx) -> (r: Self)
        requires
            indexer.current() == 0,
            size_fits(indexer.limits(), Idx::dims()),
            mixer_maker.requires(()),
            forall|m: Mxr| #[trigger] mixer_maker.ensures((), m) ==> fresh_mixer(m) && m.inputs_of().len() == Mxr::SIZE,
        ensures
            r.wf(),
            r.limits_of() == indexer.limits(),
            r.pending_of().len() == 0,
            r.index_of() is None,
            forall|i: int| 0 <= i < r.mixers_of().len() ==> #[trigger] mixer_maker.ensures((), r.mixers_of()[i]),
    {
        let size = indexer.get_array_size();
        let mut mixers: Vec<Mxr> = Vec::new();
        let mut i: usize = 0;
        while i < size
            invariant
                i <= size,
                mixers@.len() == i,
                mixer_maker.requires(()),
                forall|m: Mxr| #[trigger] mixer_maker.ensures((), m) ==> fresh_mixer(m) && m.inputs_of().len() == Mxr::SIZE,
                forall|j: int| 0 <= j < i ==> #[trigger] mixer_maker.ensures((), mixers@[j]),
            decreases size - i,
        {
            let mixer = mixer_maker();
            mixers.push(mixer);
            i += 1;
        }
        let r = MixersWithIndexer { mixers, indexer, index_opt: None, mixing_result_opt: None };
        proof {
            assert forall|j: int| 0 <= j < r.mixers@.len() implies {
                &&& mixer_ok((#[trigger] r.mixers@[j]).inputs_of(), r.mixers@[j].common_of())
                &&& r.mixers@[j].inputs_of().len() == Mxr::SIZE
                &&& (r.index_opt != Some(j as usize) ==> r.mixers@[j].common_of().inputs_mask == 0)
            } by {
                assert(mixer_maker.ensures((), r.mixers@[j]));
            }
        }
        r
    }

    /// Gives sub-indexes of the next mixer ahead of its prediction.
    pub fn pre_predict(&mut self, sub_indices: &[usize])
        requires
            old(self).wf(),
            old(self).index_of() is None,
            old(self).pending_of().len() + sub_indices@.len() <= Idx::dims(),
            forall|i: int| 0 <= i < sub_indices@.len() ==>
                #[trigger] sub_indices@[i] < old(self).limits_of()[old(self).pending_of().len() + i],
        ensures
            final(self).wf(),
            final(self).limits_of() == old(self).limits_of(),
            final(self).mixers_of() == old(self).mixers_of(),
            final(self).index_of() is None,
            final(self).pending_of() == old(self).pending_of() + sub_indices@,
    {
        proof {
            self.indexer.lemma_lengths();
        }
        let ghost start = self.indexer.current();
        let ghost old_values = self.indexer.values();
        let ghost limits = self.indexer.limits();
        let n = sub_indices.len();
        let mut i: usize = 0;
        while i < n
            invariant
                i <= n,
                n == sub_indices@.len(),
                start + n <= Idx::dims(),
                self.indexer.current() == start + i,
                self.indexer.limits() == limits,
                limits.len() == Idx::dims(),
                self.indexer.values().len() == Idx::dims(),
                self.mixers@ == old(self).mixers@,
                self.index_opt == old(self).index_opt,
                self.mixing_result_opt == old(self).mixing_result_opt,
                forall|j: int| 0 <= j < n ==> #[trigger] sub_indices@[j] < limits[start + j],
                forall|j: int| 0 <= j < start ==> #[trigger] self.indexer.values()[j] == old_values[j],
                forall|j: int| 0 <= j < start ==> #[trigger] old_values[j] < limits[j],
                forall|j: int| 0 <= j < i ==> #[trigger] self.indexer.values()[start + j] == sub_indices@[j],
            decreases n - i,
        {
            assert(sub_indices@[i as int] < limits[start + i]);
            self.indexer.with_sub_index(sub_indices[i]);
            proof {
                self.indexer.lemma_lengths();
            }
            i += 1;
        }
        proof {
            let values = self.indexer.values();
            assert(self.pending_of() =~= old_values.subrange(0, start as int) + sub_indices@) by {
                assert forall|j: int| 0 <= j < start + n implies self.pending_of()[j]
                    == (old_values.subrange(0, start as int) + sub_indices@)[j] by {
                    if j >= start {
                        assert(values[start + (j - start)] == sub_indices@[j - start]);
                    }
                }
            }
            assert forall|j: int| 0 <= j < self.indexer.current() implies #[trigger] self.indexer.values()[j] < self.indexer.limits()[j] by {
                if j >= start {
                    assert(values[start + (j - start)] == sub_indices@[j - start]);
                    assert(sub_indices@[j - start] < limits[start + (j - start)]);
                } else {
                    assert(old_values[j] < limits[j]);
                }
            }
        }
    }

    /// Completes the index with the remaining sub-indexes, gives the chosen
    /// mixer its inputs' predictions in order and mixes them; the mixer then
    /// waits for its update.
    pub fn predict(
        &mut self,
        sub_indices: &[usize],
        predictions: &[(FractOnlyU32, StretchedProbD)],
        luts: &LookUpTables,
    ) -> (r: (FractOnlyU32, StretchedProbD))
        requires
            old(self).wf(),
            luts.wf(),
            old(self).index_of() is None,
            sub_indices_fill(old(self).limits_of(), old(self).pending_of().len(), sub_indices@),
            predictions@.len() == Mxr::SIZE,
            predictions_ok(predictions@),
        ensures
            ({
                let index = index_prefix(old(self).limits_of(), old(self).pending_of() + sub_indices@, Idx::dims());
                let before = old(self).mixers_of()[index];
                let after = final(self).mixers_of()[index];
                &&& final(self).wf()
                &&& 0 <= index < old(self).mixers_of().len()
                &&& final(self).limits_of() == old(self).limits_of()
                &&& final(self).index_of() == Some(index as usize)
                &&& final(self).mixing_result_of() == Some(r)
                &&& final(self).mixers_of().len() == old(self).mixers_of().len()
                &&& forall|j: int| 0 <= j < old(self).mixers_of().len() && j != index ==>
                    #[trigger] final(self).mixers_of()[j] == old(self).mixers_of()[j]
                &&& after.inputs_of() == with_predictions(before.inputs_of(), predictions@)
                &&& after.common_of().update_factor_index == before.common_of().update_factor_index
                &&& r.1.raw_of() == mixed_stretched(after.inputs_of())
                &&& r.0.raw_of() == squash_spec(luts.squash_of().table(), r.1.raw_of() as int)
                &&& predictions_ok(seq![r])
            }),
    {
        proof {
            self.lemma_wf();
            luts.lemma_wf();
        }
        proof {
            self.indexer.lemma_lengths();
            lemma_next_input_mask(0);
            assert((1u32 << 0usize) == (1u32 << 0u32));
        }
        let index = select_index(&mut self.indexer, sub_indices);
        let mixed = mix_predictions(&mut self.mixers[index], predictions, luts.squash_lut());
        self.index_opt = Some(index);
        self.mixing_result_opt = Some(mixed);
        mixed
    }

    /// Teaches the mixer of the last prediction the coded bit, its update
    /// factor index advancing up to `max_update_factor_index`; gives back
    /// the result of that prediction.
    pub fn update(&mut self, input_bit: Bit, max_update_factor_index: u16, luts: &LookUpTables)
        -> (r: (FractOnlyU32, StretchedProbD))
        requires
            old(self).wf(),
            luts.wf(),
            old(self).index_of() is Some,
            old(self).mixers_of()[old(self).index_of().unwrap() as int].common_of().update_factor_index
                <= max_update_factor_index <= UPDATE_FACTOR_INDEX_LIMIT,
        ensures
            kit_updated(*old(self), *final(self), input_bit, max_update_factor_index as int, r, *luts),
    {
        proof {
            self.lemma_wf();
            luts.lemma_wf();
            self.indexer.lemma_lengths();
        }
        let index = self.index_opt.unwrap();
        self.index_opt = None;
        let mixing_result = self.mixing_result_opt.unwrap();
        self.mixing_result_opt = None;
        self.mixers[index].update_and_reset(input_bit, mixing_result.0, max_update_factor_index, luts.d_estimator_rates());
        proof {
            assert(self.pending_of() =~= Seq::<usize>::empty());
        }
        mixing_result
    }

    /// The mixer of the last prediction.
    pub fn current_mixer(&self) -> (r: &Mxr)
        requires
            self.wf(),
            self.index_of() is Some,
        ensures
            *r == self.mixers_of()[self.index_of().unwrap() as int],
    {
        let index = self.index_opt.unwrap();
        &self.mixers[index]
    }
}

} // verus!
