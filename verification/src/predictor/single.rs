use vstd::prelude::*;
use crate::estimators::decelerating::prediction_of;
use crate::fixed_point::{FixI32, FixU32};
use crate::fixed_point::types::{FractOnlyU32, StretchedProbD};
use crate::history::ContextState;
use crate::history::state::bits_runs::BitsRunsTracker;
use crate::lut::LookUpTables;
use crate::lut::squash::squash_spec;
use crate::lut::stretch::stretch_spec;
use crate::bit::Bit;
use crate::history::tree::node::CostTrackers;
use crate::mixing::mixer::{Mixer, MixerData, FixedSizeMixer, Mixer3, Mixer4, mixed_stretched, initial_inputs};
use crate::predictor::kits::{EstimatorsWithIndexer, MixersWithIndexer, predictions_ok, fresh_mixer, kit_updated, estimators_updated};
use crate::util::indexer::{Indexer, Indexer2, index_prefix, size_prefix, size_fits};
use crate::util::quantizers::{OccurrenceCountQuantizer, quantize_distance, quantize_cost_trackers, quantize_spec,
    distance_bucket, cost_ratio_bucket};

verus! {

/// The number of buckets of a run length or an occurrence count of at most
/// the maximum run length.
pub const RUN_BUCKETS: usize = 20;

/// What a kit of mixers did in a prediction: the mixer that the pending
/// sub-indexes and `sub_indices` select got the predictions `sq` and `st`
/// as its inputs' predictions, its weights kept, and mixed them into `r`;
/// it waits for its update, and every other mixer stays.
pub open spec fn kit_mixed<Mxr: Mixer + FixedSizeMixer, Idx: Indexer>(
    before: MixersWithIndexer<Mxr, Idx>,
    after: MixersWithIndexer<Mxr, Idx>,
    sub_indices: Seq<usize>,
    sq: Seq<int>,
    st: Seq<int>,
    r: (FractOnlyU32, StretchedProbD),
    luts: LookUpTables,
) -> bool {
    kit_mixed_after(before, before.pending_of(), after, sub_indices, sq, st, r, luts)
}

/// As `kit_mixed`, for a kit that was given the sub-indexes `pending` ahead
/// of the prediction.
pub open spec fn kit_mixed_after<Mxr: Mixer + FixedSizeMixer, Idx: Indexer>(
    before: MixersWithIndexer<Mxr, Idx>,
    pending: Seq<usize>,
    after: MixersWithIndexer<Mxr, Idx>,
    sub_indices: Seq<usize>,
    sq: Seq<int>,
    st: Seq<int>,
    r: (FractOnlyU32, StretchedProbD),
    luts: LookUpTables,
) -> bool {
    let index = index_prefix(before.limits_of(), pending + sub_indices, Idx::dims());
    let m0 = before.mixers_of()[index];
    let m1 = after.mixers_of()[index];
    &&& after.wf()
    &&& after.limits_of() == before.limits_of()
    &&& 0 <= index < before.mixers_of().len()
    &&& after.index_of() == Some(index as usize)
    &&& after.mixing_result_of() == Some(r)
    &&& after.mixers_of().len() == before.mixers_of().len()
    &&& forall|j: int| 0 <= j < before.mixers_of().len() && j != index ==> #[trigger] after.mixers_of()[j]
        == before.mixers_of()[j]
    &&& m1.inputs_of().len() == m0.inputs_of().len()
    &&& m1.inputs_of().len() == sq.len()
    &&& forall|k: int| 0 <= k < sq.len() ==> {
        &&& (#[trigger] m1.inputs_of()[k]).weight == m0.inputs_of()[k].weight
        &&& m1.inputs_of()[k].prediction_sq.raw_of() == sq[k]
        &&& m1.inputs_of()[k].prediction_st.raw_of() == st[k]
    }
    &&& m1.common_of().update_factor_index == m0.common_of().update_factor_index
    &&& r.1.raw_of() == mixed_stretched(m1.inputs_of())
    &&& r.0.raw_of() == squash_spec(luts.squash_of().table(), r.1.raw_of() as int)
}

/// What the predictor of one order does for the next bit, by the context's
/// state: the estimator it uses waits for its update, the other kit stays,
/// and the mixer kit, given `pending` ahead, mixes the inputs of the state's
/// kind into `r`.
pub open spec fn single_predicted<Mxr: Mixer + FixedSizeMixer, Idx: Indexer>(
    before: SingleContextPredictor,
    after: SingleContextPredictor,
    kit_before: MixersWithIndexer<Mxr, Idx>,
    pending: Seq<usize>,
    kit_after: MixersWithIndexer<Mxr, Idx>,
    ctx_state: ContextState,
    context_byte: u8,
    lower: (FractOnlyU32, StretchedProbD),
    direct: (FractOnlyU32, StretchedProbD),
    bits_runs: BitsRunsTracker,
    r: (FractOnlyU32, StretchedProbD),
    luts: LookUpTables,
) -> bool {
    match ctx_state {
        ContextState::ForEdge { last_occurrence_distance, occurrence_count, repeated_bit } => {
            let index = index_prefix(
                seq![RUN_BUCKETS, 256usize],
                seq![quantize_spec(occurrence_count) as usize, context_byte as usize],
                2,
            );
            let occ_sq = prediction_of(before.edge_kit_of().estimators_of()[index].raw_of() as int);
            let occ_st = stretch_spec(luts.stretch_of().table(), occ_sq as u32);
            let fixed = before.fixed_of();
            &&& after.edge_kit_of().index_of() == Some(index as usize)
            &&& after.edge_kit_of().estimators_of() == before.edge_kit_of().estimators_of()
            &&& after.node_kit_of() == before.node_kit_of()
            &&& kit_mixed_after(
                kit_before,
                pending,
                kit_after,
                seq![distance_bucket(last_occurrence_distance as int) as usize, repeated_bit.value() as usize],
                seq![lower.0.raw_of() as int, direct.0.raw_of() as int, fixed.0.raw_of() as int, occ_sq],
                seq![lower.1.raw_of() as int, direct.1.raw_of() as int, fixed.1.raw_of() as int, occ_st as int],
                r,
                luts,
            )
        },
        ContextState::ForNode { last_occurrence_distance, probability_estimator, cost_trackers, .. } => {
            let index = index_prefix(
                seq![RUN_BUCKETS, 2usize],
                seq![quantize_spec(bits_runs.run() as u16) as usize, bits_runs.last() as usize],
                2,
            );
            let run_sq = prediction_of(before.node_kit_of().estimators_of()[index].raw_of() as int);
            let run_st = stretch_spec(luts.stretch_of().table(), run_sq as u32);
            let node_sq = prediction_of(probability_estimator.raw_of() as int);
            let node_st = stretch_spec(luts.stretch_of().table(), node_sq as u32);
            &&& after.node_kit_of().index_of() == Some(index as usize)
            &&& after.node_kit_of().estimators_of() == before.node_kit_of().estimators_of()
            &&& after.edge_kit_of() == before.edge_kit_of()
            &&& kit_mixed_after(
                kit_before,
                pending,
                kit_after,
                seq![
                    cost_ratio_bucket(
                        cost_trackers.stationary.raw_of() as int,
                        cost_trackers.non_stationary.raw_of() as int,
                    ) as usize,
                    distance_bucket(last_occurrence_distance as int) as usize,
                    quantize_spec(bits_runs.opposite() as u16) as usize,
                ],
                seq![lower.0.raw_of() as int, node_sq, run_sq],
                seq![lower.1.raw_of() as int, node_st as int, run_st as int],
                r,
                luts,
            )
        },
    }
}

/// The predictor of one context order: for a context inside an edge it
/// mixes the lower order's prediction, a direct prediction, a fixed one and
/// an estimate by occurrence count and context byte; for a context at a
/// node it mixes the lower order's prediction, the node's estimator and an
/// estimate by the last run of bits.
pub struct SingleContextPredictor {
    edge_fixed_prediction: (FractOnlyU32, StretchedProbD),
    edge_occur_and_byte: EstimatorsWithIndexer<Indexer2>,
    node_bits_run: EstimatorsWithIndexer<Indexer2>,
}

impl SingleContextPredictor {
    pub closed spec fn fixed_of(&self) -> (FractOnlyU32, StretchedProbD) {
        self.edge_fixed_prediction
    }

    /// The estimators by occurrence count and context byte.
    pub closed spec fn edge_kit_of(&self) -> EstimatorsWithIndexer<Indexer2> {
        self.edge_occur_and_byte
    }

    /// The estimators by the length and the bit of the last run.
    pub closed spec fn node_kit_of(&self) -> EstimatorsWithIndexer<Indexer2> {
        self.node_bits_run
    }

    /// Both kits are in order, sized by run buckets and by 256 bytes or 2
    /// bits, and the fixed prediction is a valid input.
    pub open spec fn wf(&self) -> bool {
        &&& self.edge_kit_of().wf()
        &&& self.node_kit_of().wf()
        &&& self.edge_kit_of().limits_of() == seq![RUN_BUCKETS, 256usize]
        &&& self.node_kit_of().limits_of() == seq![RUN_BUCKETS, 2usize]
        &&& predictions_ok(seq![self.fixed_of()])
    }

    /// The mixer for contexts inside an edge: four inputs, the first one
    /// (the lower order's prediction) at full weight.
    pub fn new_edge_mixer() -> (r: Mixer4)
        ensures
            fresh_mixer(r),
            r.inputs_of().len() == Mixer4::SIZE,
            r.common_of().update_factor_index == 15,
            initial_inputs(r.inputs_of(), false),
    {
        Mixer4::new(15, false)
    }

    /// The sizes of the dimensions that a context inside an edge adds to
    /// the choice of its mixer: the distance bucket and the repeated bit.
    pub fn edge_mixer_extra_dimensions() -> (r: Vec<usize>)
        ensures
            r@ == seq![4usize, 2usize],
    {
        vec![4, 2]
    }

    /// The mixer for contexts at a node: three inputs, the first one (the
    /// lower order's prediction) at full weight.
    pub fn new_node_mixer() -> (r: Mixer3)
        ensures
            fresh_mixer(r),
            r.inputs_of().len() == Mixer3::SIZE,
            r.common_of().update_factor_index == 15,
            initial_inputs(r.inputs_of(), false),
    {
        Mixer3::new(15, false)
    }

    /// The sizes of the dimensions that a context at a node adds to the
    /// choice of its mixer: the cost ratio bucket, the distance bucket and
    /// the bucket of the opposite run's length.
    pub fn node_mixer_extra_dimensions() -> (r: Vec<usize>)
        ensures
            r@ == seq![6usize, 4usize, 32usize],
    {
        vec![6, 4, OccurrenceCountQuantizer::max_output() + 1]
    }

    /// Fresh estimators, and the fixed prediction of the stretched value 2.
    pub fn new(luts: &LookUpTables) -> (r: Self)
        requires
            luts.wf(),
        ensures
            r.wf(),
            r.edge_kit_of().index_of() is None,
            r.node_kit_of().index_of() is None,
            r.fixed_of().1.raw_of() == 0x40_0000,
            r.fixed_of().0.raw_of() == squash_spec(luts.squash_of().table(), 0x40_0000),
    {
        proof {
            luts.lemma_wf();
        }
        let edge_fixed_st = StretchedProbD::new(0x40_0000, 21);
        let edge_fixed_sq = luts.squash_lut().squash(edge_fixed_st);
        let edge_limits = vec![RUN_BUCKETS, 256];
        let node_limits = vec![RUN_BUCKETS, 2];
        proof {
            assert(size_fits(edge_limits@, 2)) by {
                let l = edge_limits@;
                assert(l.len() == 2 && l[0] == RUN_BUCKETS && l[1] == 256);
                assert(size_prefix(l, 0) == 1);
                assert(size_prefix(l, 1) == size_prefix(l, 0) * l[0]);
                assert(size_prefix(l, 2) == size_prefix(l, 1) * l[1]);
                assert forall|k: nat| k <= 2 implies #[trigger] size_prefix(l, k) <= usize::MAX by {
                    if k == 0 {
                    } else if k == 1 {
                    } else {
                    }
                }
            }
            assert(size_fits(node_limits@, 2)) by {
                let l = node_limits@;
                assert(l.len() == 2 && l[0] == RUN_BUCKETS && l[1] == 2);
                assert(size_prefix(l, 0) == 1);
                assert(size_prefix(l, 1) == size_prefix(l, 0) * l[0]);
                assert(size_prefix(l, 2) == size_prefix(l, 1) * l[1]);
                assert forall|k: nat| k <= 2 implies #[trigger] size_prefix(l, k) <= usize::MAX by {
                    if k == 0 {
                    } else if k == 1 {
                    } else {
                    }
                }
            }
        }
        SingleContextPredictor {
            edge_fixed_prediction: (edge_fixed_sq, edge_fixed_st),
            edge_occur_and_byte: EstimatorsWithIndexer::new(Indexer2::new(edge_limits)),
            node_bits_run: EstimatorsWithIndexer::new(Indexer2::new(node_limits)),
        }
    }

    /// The prediction of a context of this order for the next bit, mixed by
    /// the kit's mixer that the context's state selects: for a context
    /// inside an edge from the lower order's prediction, the direct one, the
    /// fixed one and the estimate by occurrence count and `context_byte`;
    /// for a context at a node from the lower order's prediction, the node's
    /// estimator and the estimate by the last run in `bits_runs`. The
    /// estimator used waits for its update.
    pub fn predict<Idx: Indexer, Mxr: Mixer + FixedSizeMixer>(
        &mut self,
        mixer_kit: &mut MixersWithIndexer<Mxr, Idx>,
        ctx_state: &ContextState,
        context_byte: u8,
        lower: (FractOnlyU32, StretchedProbD),
        direct: (FractOnlyU32, StretchedProbD),
        bits_runs: BitsRunsTracker,
        luts: &LookUpTables,
    ) -> (r: (FractOnlyU32, StretchedProbD))
        requires
            old(self).wf(),
            luts.wf(),
            old(self).edge_kit_of().index_of() is None,
            old(self).node_kit_of().index_of() is None,
            old(mixer_kit).wf(),
            old(mixer_kit).index_of() is None,
            ctx_state.wf(),
            predictions_ok(seq![lower, direct]),
            ctx_state is ForEdge ==> {
                let p = old(mixer_kit).pending_of().len() as int;
                let limits = old(mixer_kit).limits_of();
                &&& Mxr::SIZE == 4
                &&& p + 2 == limits.len()
                &&& limits[p] >= 4
                &&& limits[p + 1] >= 2
            },
            ctx_state is ForNode ==> {
                let p = old(mixer_kit).pending_of().len() as int;
                let limits = old(mixer_kit).limits_of();
                &&& Mxr::SIZE == 3
                &&& bits_runs.wf()
                &&& p + 3 == limits.len()
                &&& limits[p] >= 6
                &&& limits[p + 1] >= 4
                &&& limits[p + 2] >= RUN_BUCKETS
            },
        ensures
            final(self).wf(),
            final(self).fixed_of() == old(self).fixed_of(),
            predictions_ok(seq![r]),
            single_predicted(
                *old(self),
                *final(self),
                *old(mixer_kit),
                old(mixer_kit).pending_of(),
                *final(mixer_kit),
                *ctx_state,
                context_byte,
                lower,
                direct,
                bits_runs,
                r,
                *luts,
            ),
    {
        proof {
            luts.lemma_wf();
            mixer_kit.lemma_wf();
        }
        match ctx_state {
            ContextState::ForEdge { last_occurrence_distance, occurrence_count, repeated_bit } => {
                let quantized_count = OccurrenceCountQuantizer::quantize(*occurrence_count);
                let quantized_distance = quantize_distance(*last_occurrence_distance);
                let occ_indices = [quantized_count, context_byte as usize];
                proof {
                    assert(occ_indices@ =~= seq![quantize_spec(*occurrence_count) as usize, context_byte as usize]);
                }
                let occur_and_byte = self.edge_occur_and_byte.predict(luts, &occ_indices);
                let edge_fixed = self.edge_fixed_prediction;
                let predictions = [lower, direct, edge_fixed, occur_and_byte];
                proof {
                    assert(predictions_ok(predictions@)) by {
                        assert(predictions_ok(seq![lower, direct]));
                        assert(predictions_ok(seq![edge_fixed]));
                        assert(predictions_ok(seq![occur_and_byte]));
                        assert forall|i: int| 0 <= i < 4 implies {
                            &&& FractOnlyU32::raw_ok((#[trigger] predictions@[i]).0.raw_of())
                            &&& StretchedProbD::raw_ok(predictions@[i].1.raw_of())
                        } by {
                            if i == 0 {
                                assert(seq![lower, direct][0] == lower);
                            } else if i == 1 {
                                assert(seq![lower, direct][1] == direct);
                            } else if i == 2 {
                                assert(seq![edge_fixed][0] == edge_fixed);
                            } else {
                                assert(seq![occur_and_byte][0] == occur_and_byte);
                            }
                        }
                    }
                }
                let sub_indices = [quantized_distance, repeated_bit.to_u8() as usize];
                proof {
                    assert(sub_indices@ =~= seq![
                        distance_bucket(*last_occurrence_distance as int) as usize,
                        repeated_bit.value() as usize,
                    ]);
                }
                let r = mixer_kit.predict(&sub_indices, &predictions, luts);
                proof {
                    mixer_kit.lemma_wf();
                }
                r
            },
            ContextState::ForNode { last_occurrence_distance, probability_estimator, cost_trackers, .. } => {
                proof {
                    bits_runs.lemma_wf();
                }
                let stationary_sq = probability_estimator.prediction();
                let stationary_st = luts.stretch_lut().stretch(stationary_sq);
                let run_length = OccurrenceCountQuantizer::quantize(bits_runs.last_bit_run_length());
                let bits_run = self.node_bits_run.predict(luts, &[run_length, bits_runs.last_bit().to_u8() as usize]);
                let quantized_run_length = OccurrenceCountQuantizer::quantize(bits_runs.opposite_bit_run_length());
                let predictions = [lower, (stationary_sq, stationary_st), bits_run];
                proof {
                    assert(predictions_ok(predictions@)) by {
                        assert(predictions_ok(seq![lower, direct]));
                        assert(predictions_ok(seq![bits_run]));
                        assert forall|i: int| 0 <= i < 3 implies {
                            &&& FractOnlyU32::raw_ok((#[trigger] predictions@[i]).0.raw_of())
                            &&& StretchedProbD::raw_ok(predictions@[i].1.raw_of())
                        } by {
                            if i == 0 {
                                assert(seq![lower, direct][0] == lower);
                            } else if i == 2 {
                                assert(seq![bits_run][0] == bits_run);
                            }
                        }
                    }
                }
                let r = mixer_kit.predict(
                    &[quantize_cost_trackers(cost_trackers), quantize_distance(*last_occurrence_distance), quantized_run_length],
                    &predictions,
                    luts,
                );
                proof {
                    mixer_kit.lemma_wf();
                }
                r
            },
        }
    }

    /// Teaches the estimator and the mixer of the last prediction the coded
    /// bit: for a context inside an edge the mixer's update factor index
    /// advances up to 700 and nothing is given back; for a context at a node
    /// up to 250, and the node's cost trackers after the bit are given back.
    /// Those trackers are computed by the caller and handed in as
    /// `new_cost_trackers`.
    pub fn update<Idx: Indexer, Mxr: Mixer + FixedSizeMixer>(
        &mut self,
        mixer_kit: &mut MixersWithIndexer<Mxr, Idx>,
        ctx_state: &ContextState,
        input_bit: Bit,
        new_cost_trackers: CostTrackers,
        luts: &LookUpTables,
    ) -> (r: Option<CostTrackers>)
        requires
            old(self).wf(),
            luts.wf(),
            old(mixer_kit).wf(),
            old(mixer_kit).index_of() is Some,
            old(mixer_kit).mixers_of()[old(mixer_kit).index_of().unwrap() as int].common_of().update_factor_index
                <= update_limit(*ctx_state),
            ctx_state is ForEdge ==> old(self).edge_kit_of().index_of() is Some,
            ctx_state is ForNode ==> old(self).node_kit_of().index_of() is Some,
        ensures
            final(self).wf(),
            final(self).fixed_of() == old(self).fixed_of(),
            kit_updated(
                *old(mixer_kit),
                *final(mixer_kit),
                input_bit,
                update_limit(*ctx_state),
                old(mixer_kit).mixing_result_of().unwrap(),
                *luts,
            ),
            ctx_state is ForEdge ==> r is None && final(self).node_kit_of() == old(self).node_kit_of()
                && estimators_updated(old(self).edge_kit_of(), final(self).edge_kit_of(), input_bit, *luts),
            ctx_state is ForNode ==> r == Some(new_cost_trackers) && final(self).edge_kit_of() == old(
                self,
            ).edge_kit_of() && estimators_updated(old(self).node_kit_of(), final(self).node_kit_of(), input_bit, *luts),
    {
        proof {
            mixer_kit.lemma_wf();
        }
        match ctx_state {
            ContextState::ForEdge { .. } => {
                self.edge_occur_and_byte.update(input_bit, luts);
                mixer_kit.update(input_bit, 700, luts);
                None
            },
            ContextState::ForNode { .. } => {
                self.node_bits_run.update(input_bit, luts);
                mixer_kit.update(input_bit, 250, luts);
                Some(new_cost_trackers)
            },
        }
    }
}

/// The highest update factor index of the mixers of a context's kind: 700
/// inside an edge, 250 at a node.
pub open spec fn update_limit(ctx_state: ContextState) -> int {
    if ctx_state is ForEdge {
        700
    } else {
        250
    }
}

} // verus!
