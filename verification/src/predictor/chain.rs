use vstd::prelude::*;
use crate::bit::Bit;
use crate::estimators::decelerating::DeceleratingEstimator;
use crate::fixed_point::{FixI32, FixU32};
use crate::fixed_point::types::{FractOnlyU32, StretchedProbD};
use crate::history::{ContextState, CollectedContextStates};
use crate::history::state::bits_runs::BitsRunsTracker;
use crate::history::tree::node::CostTrackers;
use crate::lut::LookUpTables;
use crate::mixing::mixer::{Mixer, MixerData, FixedSizeMixer, Mixer3, Mixer4, lemma_fixed_sizes};
use crate::predictor::kits::{MixersWithIndexer, predictions_ok, kit_updated, estimators_updated};
use crate::predictor::single::{SingleContextPredictor, single_predicted, update_limit};
use crate::util::indexer::{Indexer, Indexer4, Indexer5, size_prefix, size_fits};

verus! {

/// The sizes of the dimensions of the mixers for contexts inside an edge:
/// whether the context is the highest, how it compares with the one below,
/// then the edge's own.
pub open spec fn edge_kit_limits() -> Seq<usize> {
    seq![2usize, 3usize, 4usize, 2usize]
}

/// The sizes of the dimensions of the mixers for contexts at a node.
pub open spec fn node_kit_limits() -> Seq<usize> {
    seq![2usize, 3usize, 6usize, 4usize, 32usize]
}

/// How the context of an order compares with the one below: 1 when both
/// are of one kind with the same estimator, 0 when of one kind with
/// different ones, 2 when a context at a node lies below one inside an edge.
pub open spec fn compare_spec(previous: ContextState, current: ContextState, e_previous: DeceleratingEstimator, e_current: DeceleratingEstimator) -> int {
    if (previous is ForNode) == (current is ForNode) {
        if e_previous == e_current {
            1
        } else {
            0
        }
    } else {
        2
    }
}

/// The sub-indexes that choose the mixer of order `k` ahead of its own:
/// whether it is the highest of the `count` contexts, and how it compares
/// with the one below.
pub open spec fn chain_pending(items: Seq<ContextState>, estimators: Seq<DeceleratingEstimator>, k: int) -> Seq<usize> {
    seq![
        (if k == items.len() - 1 { 1usize } else { 0usize }),
        (if k == 0 { 0usize } else { compare_spec(items[k - 1], items[k], estimators[k - 1], estimators[k]) as usize }),
    ]
}

/// The cost trackers of the contexts at nodes, in order, among the first
/// `n` given.
pub open spec fn node_trackers(items: Seq<ContextState>, trackers: Seq<CostTrackers>, n: int) -> Seq<CostTrackers>
    decreases n,
{
    if n <= 0 {
        Seq::empty()
    } else if items[n - 1] is ForNode {
        node_trackers(items, trackers, n - 1).push(trackers[n - 1])
    } else {
        node_trackers(items, trackers, n - 1)
    }
}

/// A predictor and its two kits are in order: the kits of the chain's
/// sizes, and every mixer's update factor index within its kind's limit.
pub open spec fn parts_wf(
    p: SingleContextPredictor,
    e: MixersWithIndexer<Mixer4, Indexer4>,
    n: MixersWithIndexer<Mixer3, Indexer5>,
) -> bool {
    &&& p.wf()
    &&& e.wf()
    &&& n.wf()
    &&& e.limits_of() == edge_kit_limits()
    &&& n.limits_of() == node_kit_limits()
    &&& forall|i: int| 0 <= i < e.mixers_of().len() ==> (#[trigger] e.mixers_of()[i]).common_of().update_factor_index <= 700
    &&& forall|i: int| 0 <= i < n.mixers_of().len() ==> (#[trigger] n.mixers_of()[i]).common_of().update_factor_index <= 250
}

/// Nothing of a predictor and its kits waits for an update.
pub open spec fn parts_resting(
    p: SingleContextPredictor,
    e: MixersWithIndexer<Mixer4, Indexer4>,
    n: MixersWithIndexer<Mixer3, Indexer5>,
) -> bool {
    &&& p.edge_kit_of().index_of() is None
    &&& p.node_kit_of().index_of() is None
    &&& e.index_of() is None
    &&& e.pending_of().len() == 0
    &&& n.index_of() is None
    &&& n.pending_of().len() == 0
}

/// The sizes of the chain's kits fit.
proof fn lemma_chain_sizes()
    ensures
        size_fits(edge_kit_limits(), 4),
        size_fits(node_kit_limits(), 5),
{
    let e = edge_kit_limits();
    let n = node_kit_limits();
    assert(size_prefix(e, 0) == 1);
    assert(size_prefix(e, 1) == size_prefix(e, 0) * 2);
    assert(size_prefix(e, 2) == size_prefix(e, 1) * 3);
    assert(size_prefix(e, 3) == size_prefix(e, 2) * 4);
    assert(size_prefix(e, 4) == size_prefix(e, 3) * 2);
    assert forall|k: nat| k <= 4 implies #[trigger] size_prefix(e, k) <= usize::MAX by {
        if k == 0 {
        } else if k == 1 {
        } else if k == 2 {
        } else if k == 3 {
        } else {
        }
    }
    assert(size_prefix(n, 0) == 1);
    assert(size_prefix(n, 1) == size_prefix(n, 0) * 2);
    assert(size_prefix(n, 2) == size_prefix(n, 1) * 3);
    assert(size_prefix(n, 3) == size_prefix(n, 2) * 6);
    assert(size_prefix(n, 4) == size_prefix(n, 3) * 4);
    assert(size_prefix(n, 5) == size_prefix(n, 4) * 32);
    assert forall|k: nat| k <= 5 implies #[trigger] size_prefix(n, k) <= usize::MAX by {
        if k == 0 {
        } else if k == 1 {
        } else if k == 2 {
        } else if k == 3 {
        } else if k == 4 {
        } else {
        }
    }
}

/// After the predictor of order `k` made its prediction for a context
/// at a node, the chain is in order, order `k` waits, and the
/// step is the one that `order_predicted` states.
pub proof fn lemma_node_order_done<'a>(
    start: &ContextsChainPredictionMixer<'a>,
    before: &ContextsChainPredictionMixer<'a>,
    after: &ContextsChainPredictionMixer<'a>,
    k: int,
    items: Seq<ContextState>,
    context_byte: u8,
    estimators: Seq<DeceleratingEstimator>,
    directs: Seq<(FractOnlyU32, StretchedProbD)>,
    bits_runs: Seq<BitsRunsTracker>,
    res: Seq<(FractOnlyU32, StretchedProbD)>,
    current: (FractOnlyU32, StretchedProbD),
    mid: MixersWithIndexer<Mixer3, Indexer5>,
)
    requires
        before.wf(),
        0 <= k < before.orders(),
        0 <= k < items.len(),
        res.len() == k + 1,
        items[k] is ForNode,
        start.resting(k),
        before.luts_of() == start.luts_of(),
        before.predictors_of()[k] == start.predictors_of()[k],
        before.edge_kits_of()[k] == start.edge_kits_of()[k],
        before.node_kits_of()[k] == start.node_kits_of()[k],
        after.luts_of() == before.luts_of(),
        after.predictors_of().len() == before.predictors_of().len(),
        after.edge_kits_of().len() == before.edge_kits_of().len(),
        after.node_kits_of().len() == before.node_kits_of().len(),
        forall|j: int| 0 <= j < before.orders() && j != k ==> {
            &&& #[trigger] after.predictors_of()[j] == before.predictors_of()[j]
            &&& after.edge_kits_of()[j] == before.edge_kits_of()[j]
            &&& after.node_kits_of()[j] == before.node_kits_of()[j]
        },
        after.edge_kits_of()[k] == before.edge_kits_of()[k],
        mid.limits_of() == before.node_kits_of()[k].limits_of(),
        mid.mixers_of() == before.node_kits_of()[k].mixers_of(),
        mid.pending_of() == chain_pending(items, estimators, k),
        after.predictors_of()[k].wf(),
        single_predicted(
            before.predictors_of()[k],
            after.predictors_of()[k],
            mid,
            mid.pending_of(),
            after.node_kits_of()[k],
            items[k],
            context_byte,
            res[k],
            directs[k],
            bits_runs[k],
            current,
            before.luts_of(),
        ),
    ensures
        after.wf(),
        after.waiting(k, items[k]),
        start.order_predicted(after, k, items, context_byte, estimators, directs, bits_runs, res.push(current)),
{
    let r2 = res.push(current);
    assert(r2[k] == res[k] && r2[k + 1] == current);
    let kit = after.node_kits_of()[k];
    let old_kit = before.node_kits_of()[k];
    assert(before.order_wf(k));
    assert forall|i: int| 0 <= i < kit.mixers_of().len() implies (#[trigger] kit.mixers_of()[i]).common_of().update_factor_index
        <= 250 by {
        assert(old_kit.mixers_of()[i].common_of().update_factor_index <= 250);
    }
    assert(parts_wf(after.predictors_of()[k], after.edge_kits_of()[k], after.node_kits_of()[k]));
    assert forall|j: int| 0 <= j < after.orders() implies #[trigger] after.order_wf(j) by {
        if j != k {
            assert(before.order_wf(j));
        }
    }
}

/// After the predictor of order `k` made its prediction for a context
/// inside an edge, the chain is in order, order `k` waits, and the
/// step is the one that `order_predicted` states.
pub proof fn lemma_edge_order_done<'a>(
    start: &ContextsChainPredictionMixer<'a>,
    before: &ContextsChainPredictionMixer<'a>,
    after: &ContextsChainPredictionMixer<'a>,
    k: int,
    items: Seq<ContextState>,
    context_byte: u8,
    estimators: Seq<DeceleratingEstimator>,
    directs: Seq<(FractOnlyU32, StretchedProbD)>,
    bits_runs: Seq<BitsRunsTracker>,
    res: Seq<(FractOnlyU32, StretchedProbD)>,
    current: (FractOnlyU32, StretchedProbD),
    mid: MixersWithIndexer<Mixer4, Indexer4>,
)
    requires
        before.wf(),
        0 <= k < before.orders(),
        0 <= k < items.len(),
        res.len() == k + 1,
        items[k] is ForEdge,
        start.resting(k),
        before.luts_of() == start.luts_of(),
        before.predictors_of()[k] == start.predictors_of()[k],
        before.edge_kits_of()[k] == start.edge_kits_of()[k],
        before.node_kits_of()[k] == start.node_kits_of()[k],
        after.luts_of() == before.luts_of(),
        after.predictors_of().len() == before.predictors_of().len(),
        after.edge_kits_of().len() == before.edge_kits_of().len(),
        after.node_kits_of().len() == before.node_kits_of().len(),
        forall|j: int| 0 <= j < before.orders() && j != k ==> {
            &&& #[trigger] after.predictors_of()[j] == before.predictors_of()[j]
            &&& after.edge_kits_of()[j] == before.edge_kits_of()[j]
            &&& after.node_kits_of()[j] == before.node_kits_of()[j]
        },
        after.node_kits_of()[k] == before.node_kits_of()[k],
        mid.limits_of() == before.edge_kits_of()[k].limits_of(),
        mid.mixers_of() == before.edge_kits_of()[k].mixers_of(),
        mid.pending_of() == chain_pending(items, estimators, k),
        after.predictors_of()[k].wf(),
        single_predicted(
            before.predictors_of()[k],
            after.predictors_of()[k],
            mid,
            mid.pending_of(),
            after.edge_kits_of()[k],
            items[k],
            context_byte,
            res[k],
            directs[k],
            bits_runs[k],
            current,
            before.luts_of(),
        ),
    ensures
        after.wf(),
        after.waiting(k, items[k]),
        start.order_predicted(after, k, items, context_byte, estimators, directs, bits_runs, res.push(current)),
{
    let r2 = res.push(current);
    assert(r2[k] == res[k] && r2[k + 1] == current);
    let kit = after.edge_kits_of()[k];
    let old_kit = before.edge_kits_of()[k];
    assert(before.order_wf(k));
    assert forall|i: int| 0 <= i < kit.mixers_of().len() implies (#[trigger] kit.mixers_of()[i]).common_of().update_factor_index
        <= 700 by {
        assert(old_kit.mixers_of()[i].common_of().update_factor_index <= 700);
    }
    assert(parts_wf(after.predictors_of()[k], after.edge_kits_of()[k], after.node_kits_of()[k]));
    assert forall|j: int| 0 <= j < after.orders() implies #[trigger] after.order_wf(j) by {
        if j != k {
            assert(before.order_wf(j));
        }
    }
}

/// After order `k` learnt the coded bit, the chain is in order, order `k`
/// rests, and the step is the one that `order_updated` states.
pub proof fn lemma_order_updated<'a>(
    start: &ContextsChainPredictionMixer<'a>,
    before: &ContextsChainPredictionMixer<'a>,
    after: &ContextsChainPredictionMixer<'a>,
    k: int,
    state: ContextState,
    input_bit: Bit,
)
    requires
        before.wf(),
        0 <= k < before.orders(),
        start.waiting(k, state),
        before.luts_of() == start.luts_of(),
        before.predictors_of()[k] == start.predictors_of()[k],
        before.edge_kits_of()[k] == start.edge_kits_of()[k],
        before.node_kits_of()[k] == start.node_kits_of()[k],
        after.luts_of() == before.luts_of(),
        after.predictors_of().len() == before.predictors_of().len(),
        after.edge_kits_of().len() == before.edge_kits_of().len(),
        after.node_kits_of().len() == before.node_kits_of().len(),
        forall|j: int| 0 <= j < before.orders() && j != k ==> {
            &&& #[trigger] after.predictors_of()[j] == before.predictors_of()[j]
            &&& after.edge_kits_of()[j] == before.edge_kits_of()[j]
            &&& after.node_kits_of()[j] == before.node_kits_of()[j]
        },
        after.predictors_of()[k].wf(),
        after.predictors_of()[k].fixed_of() == before.predictors_of()[k].fixed_of(),
        state is ForNode ==> {
            &&& kit_updated(
                before.node_kits_of()[k],
                after.node_kits_of()[k],
                input_bit,
                update_limit(state),
                before.node_kits_of()[k].mixing_result_of().unwrap(),
                before.luts_of(),
            )
            &&& estimators_updated(before.predictors_of()[k].node_kit_of(), after.predictors_of()[k].node_kit_of(), input_bit, before.luts_of())
            &&& after.predictors_of()[k].edge_kit_of() == before.predictors_of()[k].edge_kit_of()
            &&& after.edge_kits_of()[k] == before.edge_kits_of()[k]
        },
        state is ForEdge ==> {
            &&& kit_updated(
                before.edge_kits_of()[k],
                after.edge_kits_of()[k],
                input_bit,
                update_limit(state),
                before.edge_kits_of()[k].mixing_result_of().unwrap(),
                before.luts_of(),
            )
            &&& estimators_updated(before.predictors_of()[k].edge_kit_of(), after.predictors_of()[k].edge_kit_of(), input_bit, before.luts_of())
            &&& after.predictors_of()[k].node_kit_of() == before.predictors_of()[k].node_kit_of()
            &&& after.node_kits_of()[k] == before.node_kits_of()[k]
        },
    ensures
        after.wf(),
        after.resting(k),
        start.order_updated(after, k, state, input_bit),
{
    assert(before.order_wf(k));
    let e0 = before.edge_kits_of()[k];
    let n0 = before.node_kits_of()[k];
    let e1 = after.edge_kits_of()[k];
    let n1 = after.node_kits_of()[k];
    if state is ForNode {
        let index = n0.index_of().unwrap() as int;
        assert forall|i: int| 0 <= i < n1.mixers_of().len() implies (#[trigger] n1.mixers_of()[i]).common_of().update_factor_index
            <= 250 by {
            assert(n0.mixers_of()[i].common_of().update_factor_index <= 250);
        }
    } else {
        let index = e0.index_of().unwrap() as int;
        assert forall|i: int| 0 <= i < e1.mixers_of().len() implies (#[trigger] e1.mixers_of()[i]).common_of().update_factor_index
            <= 700 by {
            assert(e0.mixers_of()[i].common_of().update_factor_index <= 700);
        }
    }
    assert(parts_wf(after.predictors_of()[k], e1, n1));
    assert forall|j: int| 0 <= j < after.orders() implies #[trigger] after.order_wf(j) by {
        if j != k {
            assert(before.order_wf(j));
        }
    }
}

/// Mixes the predictions of the contexts of a chain, lowest order first,
/// each order's prediction the lower input of the next.
pub struct ContextsChainPredictionMixer<'a> {
    luts: &'a LookUpTables,
    single_context_predictors: Vec<SingleContextPredictor>,
    edge_mixer_kits: Vec<MixersWithIndexer<Mixer4, Indexer4>>,
    node_mixer_kits: Vec<MixersWithIndexer<Mixer3, Indexer5>>,
}

impl<'a> ContextsChainPredictionMixer<'a> {
    pub closed spec fn luts_of(&self) -> LookUpTables {
        *self.luts
    }

    /// The predictor of each order.
    pub closed spec fn predictors_of(&self) -> Seq<SingleContextPredictor> {
        self.single_context_predictors@
    }

    /// The mixer kit of each order for contexts inside an edge.
    pub closed spec fn edge_kits_of(&self) -> Seq<MixersWithIndexer<Mixer4, Indexer4>> {
        self.edge_mixer_kits@
    }

    /// The mixer kit of each order for contexts at a node.
    pub closed spec fn node_kits_of(&self) -> Seq<MixersWithIndexer<Mixer3, Indexer5>> {
        self.node_mixer_kits@
    }

    /// The number of orders.
    pub open spec fn orders(&self) -> int {
        self.predictors_of().len() as int
    }

    /// One predictor and two kits per order, all in order, the kits of the
    /// chain's sizes, and every mixer's update factor index within its
    /// kind's limit.
    pub open spec fn wf(&self) -> bool {
        &&& self.luts_of().wf()
        &&& self.orders() >= 1
        &&& self.edge_kits_of().len() == self.orders()
        &&& self.node_kits_of().len() == self.orders()
        &&& forall|k: int| 0 <= k < self.orders() ==> #[trigger] self.order_wf(k)
    }

    /// The predictor and the kits of order `k` are in order.
    pub open spec fn order_wf(&self, k: int) -> bool {
        parts_wf(self.predictors_of()[k], self.edge_kits_of()[k], self.node_kits_of()[k])
    }

    /// Nothing of order `k` waits for an update.
    pub open spec fn resting(&self, k: int) -> bool {
        parts_resting(self.predictors_of()[k], self.edge_kits_of()[k], self.node_kits_of()[k])
    }

    /// A predictor and two fresh kits for each order up to `max_order`.
    pub fn new(max_order: usize, luts: &'a LookUpTables) -> (r: Self)
        requires
            luts.wf(),
            max_order < 0x1_0000,
        ensures
            r.wf(),
            r.orders() == max_order + 1,
            r.luts_of() == *luts,
            forall|k: int| 0 <= k < r.orders() ==> #[trigger] r.resting(k),
    {
        proof {
            lemma_chain_sizes();
        }
        let mut single_context_predictors: Vec<SingleContextPredictor> = Vec::new();
        let mut edge_mixer_kits: Vec<MixersWithIndexer<Mixer4, Indexer4>> = Vec::new();
        let mut node_mixer_kits: Vec<MixersWithIndexer<Mixer3, Indexer5>> = Vec::new();
        let mut order: usize = 0;
        while order <= max_order
            invariant
                luts.wf(),
                max_order < 0x1_0000,
                order <= max_order + 1,
                size_fits(edge_kit_limits(), 4),
                size_fits(node_kit_limits(), 5),
                single_context_predictors@.len() == order,
                edge_mixer_kits@.len() == order,
                node_mixer_kits@.len() == order,
                forall|k: int| 0 <= k < order ==> #[trigger] parts_wf(
                    single_context_predictors@[k],
                    edge_mixer_kits@[k],
                    node_mixer_kits@[k],
                ) && parts_resting(single_context_predictors@[k], edge_mixer_kits@[k], node_mixer_kits@[k]),
            decreases max_order + 1 - order,
        {
            let edge_dimensions = vec![2, 3, 4, 2];
            let node_dimensions = vec![2, 3, 6, 4, 32];
            proof {
                assert(edge_dimensions@ =~= edge_kit_limits());
                assert(node_dimensions@ =~= node_kit_limits());
            }
            let predictor = SingleContextPredictor::new(luts);
            let edge_kit = MixersWithIndexer::new(SingleContextPredictor::new_edge_mixer, Indexer4::new(edge_dimensions));
            let node_kit = MixersWithIndexer::new(SingleContextPredictor::new_node_mixer, Indexer5::new(node_dimensions));
            proof {
                assert forall|i: int| 0 <= i < edge_kit.mixers_of().len() implies (#[trigger] edge_kit.mixers_of()[i]).common_of().update_factor_index <= 700 by {
                    assert(call_ensures(SingleContextPredictor::new_edge_mixer, (), edge_kit.mixers_of()[i]));
                }
                assert forall|i: int| 0 <= i < node_kit.mixers_of().len() implies (#[trigger] node_kit.mixers_of()[i]).common_of().update_factor_index <= 250 by {
                    assert(call_ensures(SingleContextPredictor::new_node_mixer, (), node_kit.mixers_of()[i]));
                }
            }
            single_context_predictors.push(predictor);
            edge_mixer_kits.push(edge_kit);
            node_mixer_kits.push(node_kit);
            proof {
                assert(parts_wf(predictor, edge_kit, node_kit));
                assert forall|k: int| 0 <= k < order + 1 implies #[trigger] parts_wf(
                    single_context_predictors@[k],
                    edge_mixer_kits@[k],
                    node_mixer_kits@[k],
                ) && parts_resting(single_context_predictors@[k], edge_mixer_kits@[k], node_mixer_kits@[k]) by {
                }
            }
            order += 1;
        }
        let r = ContextsChainPredictionMixer { luts, single_context_predictors, edge_mixer_kits, node_mixer_kits };
        proof {
            assert forall|k: int| 0 <= k < r.orders() implies #[trigger] r.order_wf(k) by {
            }
            assert forall|k: int| 0 <= k < r.orders() implies #[trigger] r.resting(k) by {
                assert(parts_wf(r.predictors_of()[k], r.edge_kits_of()[k], r.node_kits_of()[k]));
            }
        }
        r
    }

    /// Order `k` made its prediction `res[k + 1]` from the lower order's
    /// `res[k]`: the predictor of order `k` with the kit of its context's
    /// kind, chosen first by `chain_pending`; the kit of the other kind
    /// stays.
    pub open spec fn order_predicted(
        &self,
        after: &Self,
        k: int,
        items: Seq<ContextState>,
        context_byte: u8,
        estimators: Seq<DeceleratingEstimator>,
        directs: Seq<(FractOnlyU32, StretchedProbD)>,
        bits_runs: Seq<BitsRunsTracker>,
        res: Seq<(FractOnlyU32, StretchedProbD)>,
    ) -> bool {
        let pending = chain_pending(items, estimators, k);
        if items[k] is ForNode {
            &&& single_predicted(
                self.predictors_of()[k],
                after.predictors_of()[k],
                self.node_kits_of()[k],
                pending,
                after.node_kits_of()[k],
                items[k],
                context_byte,
                res[k],
                directs[k],
                bits_runs[k],
                res[k + 1],
                self.luts_of(),
            )
            &&& after.edge_kits_of()[k] == self.edge_kits_of()[k]
        } else {
            &&& single_predicted(
                self.predictors_of()[k],
                after.predictors_of()[k],
                self.edge_kits_of()[k],
                pending,
                after.edge_kits_of()[k],
                items[k],
                context_byte,
                res[k],
                directs[k],
                bits_runs[k],
                res[k + 1],
                self.luts_of(),
            )
            &&& after.node_kits_of()[k] == self.node_kits_of()[k]
        }
    }

    /// How the context of an order compares with the one below, by the
    /// estimators that their states stand for.
    fn compare_context_states(
        &self,
        previous: &ContextState,
        current: &ContextState,
        previous_estimator: &DeceleratingEstimator,
        current_estimator: &DeceleratingEstimator,
    ) -> (r: usize)
        requires
            !(*previous is ForEdge && *current is ForNode),
        ensures
            r == compare_spec(*previous, *current, *previous_estimator, *current_estimator),
    {
        let previous_is_node = previous.is_for_node();
        let current_is_node = current.is_for_node();
        if previous_is_node == current_is_node {
            if *previous_estimator == *current_estimator {
                1
            } else {
                0
            }
        } else {
            2
        }
    }

    /// The prediction of the chain of contexts for the next bit: each
    /// order, lowest first, mixes its context's inputs with the prediction
    /// of the order below (one half for the lowest), its mixer chosen first
    /// by whether it is the highest order and how its context compares with
    /// the one below. The estimator that each context's state stands for,
    /// its direct prediction and the runs of its bits are handed in by the
    /// caller as `estimators`, `directs` and `bits_runs`, one per context.
    #[verifier::rlimit(80)]
    pub fn predict(
        &mut self,
        contexts: &CollectedContextStates,
        context_byte: u8,
        estimators: &[DeceleratingEstimator],
        directs: &[(FractOnlyU32, StretchedProbD)],
        bits_runs: &[BitsRunsTracker],
    ) -> (r: (FractOnlyU32, StretchedProbD))
        requires
            old(self).wf(),
            forall|k: int| 0 <= k < old(self).orders() ==> #[trigger] old(self).resting(k),
            contexts.items_view().len() <= old(self).orders(),
            estimators@.len() == contexts.items_view().len(),
            directs@.len() == contexts.items_view().len(),
            bits_runs@.len() == contexts.items_view().len(),
            predictions_ok(directs@),
            forall|k: int| 0 <= k < contexts.items_view().len() ==> (#[trigger] contexts.items_view()[k]).wf(),
            forall|k: int| 0 <= k < contexts.items_view().len() && (#[trigger] contexts.items_view()[k]) is ForNode
                ==> bits_runs@[k].wf(),
            forall|k: int| 1 <= k < contexts.items_view().len() ==> !(contexts.items_view()[k - 1] is ForEdge
                && #[trigger] contexts.items_view()[k] is ForNode),
        ensures
            chain_predicted(*old(self), *final(self), *contexts, context_byte, estimators@, directs@, bits_runs@, r),

    {
        proof {
            reveal(chain_predicted);
        }
        let items = contexts.items();
        let count = items.len();
        let mut last = (FractOnlyU32::half(), StretchedProbD::zero());
        let ghost mut res: Seq<(FractOnlyU32, StretchedProbD)> = seq![last];
        let mut order: usize = 0;
        while order < count
            invariant
                self.wf(),
                self.luts_of() == old(self).luts_of(),
                self.orders() == old(self).orders(),
                items@ == contexts.items_view(),
                count == items@.len(),
                count <= self.orders(),
                order <= count,
                estimators@.len() == count,
                directs@.len() == count,
                bits_runs@.len() == count,
                predictions_ok(directs@),
                forall|k: int| 0 <= k < count ==> (#[trigger] items@[k]).wf(),
                forall|k: int| 0 <= k < count && (#[trigger] items@[k]) is ForNode ==> bits_runs@[k].wf(),
                forall|k: int| 1 <= k < count ==> !(items@[k - 1] is ForEdge && #[trigger] items@[k] is ForNode),
                res.len() == order + 1,
                res[0].0.raw_of() == 0x4000_0000,
                res[0].1.raw_of() == 0,
                last == res[order as int],
                predictions_ok(seq![last]),
                forall|k: int| order <= k < self.orders() ==> {
                    &&& #[trigger] self.predictors_of()[k] == old(self).predictors_of()[k]
                    &&& self.edge_kits_of()[k] == old(self).edge_kits_of()[k]
                    &&& self.node_kits_of()[k] == old(self).node_kits_of()[k]
                },
                forall|k: int| 0 <= k < old(self).orders() ==> #[trigger] old(self).resting(k),
                forall|k: int| 0 <= k < order ==> #[trigger] self.waiting(k, items@[k]),
                forall|k: int| 0 <= k < order ==> #[trigger] old(self).order_predicted(
                    &*self,
                    k,
                    items@,
                    context_byte,
                    estimators@,
                    directs@,
                    bits_runs@,
                    res,
                ),
            decreases count - order,
        {
            let is_max_order: usize = if order == count - 1 {
                1
            } else {
                0
            };
            let compared: usize = if order == 0 {
                0
            } else {
                self.compare_context_states(&items[order - 1], &items[order], &estimators[order - 1], &estimators[order])
            };
            let context = &items[order];
            let ghost before = *self;
            let ghost k = order as int;
            proof {
                lemma_fixed_sizes();
                assert(self.order_wf(k));
                assert(old(self).resting(k));
                assert(seq![is_max_order, compared] =~= chain_pending(items@, estimators@, k));
                assert(predictions_ok(seq![last, directs[order as int]])) by {
                    assert(predictions_ok(seq![last]));
                    assert(seq![last][0] == last);
                }
            }
            let current = if context.is_for_node() {
                self.node_mixer_kits[order].pre_predict(&[is_max_order, compared]);
                let ghost mid = self.node_kits_of()[k];
                let current = self.single_context_predictors[order].predict(
                    &mut self.node_mixer_kits[order],
                    context,
                    context_byte,
                    last,
                    directs[order],
                    bits_runs[order],
                    self.luts,
                );
                proof {
                    assert(mid.pending_of() =~= chain_pending(items@, estimators@, k));
                    lemma_node_order_done(old(self), &before, &*self, k, items@, context_byte, estimators@, directs@,
                        bits_runs@, res, current, mid);
                }
                current
            } else {
                self.edge_mixer_kits[order].pre_predict(&[is_max_order, compared]);
                let ghost mid = self.edge_kits_of()[k];
                let current = self.single_context_predictors[order].predict(
                    &mut self.edge_mixer_kits[order],
                    context,
                    context_byte,
                    last,
                    directs[order],
                    bits_runs[order],
                    self.luts,
                );
                proof {
                    assert(mid.pending_of() =~= chain_pending(items@, estimators@, k));
                    lemma_edge_order_done(old(self), &before, &*self, k, items@, context_byte, estimators@, directs@,
                        bits_runs@, res, current, mid);
                }
                current
            };
            proof {
                let new_res = res.push(current);
                assert forall|j: int| 0 <= j < k + 1 implies #[trigger] old(self).order_predicted(
                    &*self,
                    j,
                    items@,
                    context_byte,
                    estimators@,
                    directs@,
                    bits_runs@,
                    new_res,
                ) by {
                    if j < k {
                        assert(old(self).order_predicted(&before, j, items@, context_byte, estimators@, directs@, bits_runs@, res));
                        assert(new_res[j] == res[j] && new_res[j + 1] == res[j + 1]);
                        assert(self.predictors_of()[j] == before.predictors_of()[j]);
                        assert(self.node_kits_of()[j] == before.node_kits_of()[j]);
                        assert(self.edge_kits_of()[j] == before.edge_kits_of()[j]);
                    }
                }
                assert forall|j: int| 0 <= j < k + 1 implies #[trigger] self.waiting(j, items@[j]) by {
                    if j < k {
                        assert(before.waiting(j, items@[j]));
                        assert(self.predictors_of()[j] == before.predictors_of()[j]);
                        assert(self.node_kits_of()[j] == before.node_kits_of()[j]);
                        assert(self.edge_kits_of()[j] == before.edge_kits_of()[j]);
                    }
                }
                assert forall|j: int| k + 1 <= j < self.orders() implies {
                    &&& #[trigger] self.predictors_of()[j] == old(self).predictors_of()[j]
                    &&& self.edge_kits_of()[j] == old(self).edge_kits_of()[j]
                    &&& self.node_kits_of()[j] == old(self).node_kits_of()[j]
                } by {
                    assert(before.predictors_of()[j] == old(self).predictors_of()[j]);
                    assert(self.predictors_of()[j] == before.predictors_of()[j]);
                    assert(self.edge_kits_of()[j] == before.edge_kits_of()[j]);
                    assert(self.node_kits_of()[j] == before.node_kits_of()[j]);
                }
                res = new_res;
            }
            last = current;
            order += 1;
        }
        last
    }

    /// Order `k` learnt the coded bit: the estimator and the mixer that its
    /// prediction used learnt it as `SingleContextPredictor::update` states,
    /// and the kit of the other kind stays.
    pub open spec fn order_updated(&self, after: &Self, k: int, state: ContextState, input_bit: Bit) -> bool {
        let p0 = self.predictors_of()[k];
        let p1 = after.predictors_of()[k];
        &&& p1.fixed_of() == p0.fixed_of()
        &&& if state is ForNode {
            &&& kit_updated(
                self.node_kits_of()[k],
                after.node_kits_of()[k],
                input_bit,
                250,
                self.node_kits_of()[k].mixing_result_of().unwrap(),
                self.luts_of(),
            )
            &&& estimators_updated(p0.node_kit_of(), p1.node_kit_of(), input_bit, self.luts_of())
            &&& p1.edge_kit_of() == p0.edge_kit_of()
            &&& after.edge_kits_of()[k] == self.edge_kits_of()[k]
        } else {
            &&& kit_updated(
                self.edge_kits_of()[k],
                after.edge_kits_of()[k],
                input_bit,
                700,
                self.edge_kits_of()[k].mixing_result_of().unwrap(),
                self.luts_of(),
            )
            &&& estimators_updated(p0.edge_kit_of(), p1.edge_kit_of(), input_bit, self.luts_of())
            &&& p1.node_kit_of() == p0.node_kit_of()
            &&& after.node_kits_of()[k] == self.node_kits_of()[k]
        }
    }

    /// Teaches every order that predicted the coded bit, lowest first, and
    /// gives back the cost trackers of the contexts at nodes, in order.
    /// Those trackers are computed by the caller and handed in as
    /// `new_cost_trackers`, one per context; those of contexts inside edges
    /// are not used.
    pub fn update(
        &mut self,
        input_bit: Bit,
        contexts: &CollectedContextStates,
        new_cost_trackers: &[CostTrackers],
    ) -> (r: Vec<CostTrackers>)
        requires
            old(self).wf(),
            contexts.items_view().len() <= old(self).orders(),
            new_cost_trackers@.len() == contexts.items_view().len(),
            forall|k: int| 0 <= k < contexts.items_view().len() ==> #[trigger] old(self).waiting(
                k,
                contexts.items_view()[k],
            ),
            forall|k: int| contexts.items_view().len() <= k < old(self).orders() ==> #[trigger] old(self).resting(k),
        ensures
            chain_updated(*old(self), *final(self), input_bit, *contexts, new_cost_trackers@, r@),

    {
        let items = contexts.items();
        let count = items.len();
        let mut cost_trackers: Vec<CostTrackers> = Vec::new();
        let mut order: usize = 0;
        while order < count
            invariant
                self.wf(),
                self.luts_of() == old(self).luts_of(),
                self.orders() == old(self).orders(),
                items@ == contexts.items_view(),
                count == items@.len(),
                count <= self.orders(),
                order <= count,
                new_cost_trackers@.len() == count,
                cost_trackers@ == node_trackers(items@, new_cost_trackers@, order as int),
                forall|k: int| order <= k < self.orders() ==> {
                    &&& #[trigger] self.predictors_of()[k] == old(self).predictors_of()[k]
                    &&& self.edge_kits_of()[k] == old(self).edge_kits_of()[k]
                    &&& self.node_kits_of()[k] == old(self).node_kits_of()[k]
                },
                forall|k: int| 0 <= k < count ==> #[trigger] old(self).waiting(k, items@[k]),
                forall|k: int| count <= k < old(self).orders() ==> #[trigger] old(self).resting(k),
                forall|k: int| 0 <= k < order ==> #[trigger] self.resting(k),
                forall|k: int| 0 <= k < order ==> #[trigger] old(self).order_updated(&*self, k, items@[k], input_bit),
            decreases count - order,
        {
            let context = &items[order];
            let ghost before = *self;
            let ghost k = order as int;
            proof {
                assert(self.order_wf(k));
                assert(old(self).waiting(k, items@[k]));
                self.edge_kits_of()[k].lemma_wf();
                self.node_kits_of()[k].lemma_wf();
            }
            let result = if context.is_for_node() {
                proof {
                    let kit = self.node_kits_of()[k];
                    assert(kit.mixers_of()[kit.index_of().unwrap() as int].common_of().update_factor_index <= 250);
                }
                self.single_context_predictors[order].update(
                    &mut self.node_mixer_kits[order],
                    context,
                    input_bit,
                    new_cost_trackers[order],
                    self.luts,
                )
            } else {
                proof {
                    let kit = self.edge_kits_of()[k];
                    assert(kit.mixers_of()[kit.index_of().unwrap() as int].common_of().update_factor_index <= 700);
                }
                self.single_context_predictors[order].update(
                    &mut self.edge_mixer_kits[order],
                    context,
                    input_bit,
                    new_cost_trackers[order],
                    self.luts,
                )
            };
            proof {
                lemma_order_updated(old(self), &before, &*self, k, items@[k], input_bit);
                assert forall|j: int| 0 <= j < k + 1 implies #[trigger] old(self).order_updated(&*self, j, items@[j], input_bit) by {
                    if j < k {
                        assert(old(self).order_updated(&before, j, items@[j], input_bit));
                        assert(self.predictors_of()[j] == before.predictors_of()[j]);
                        assert(self.node_kits_of()[j] == before.node_kits_of()[j]);
                        assert(self.edge_kits_of()[j] == before.edge_kits_of()[j]);
                    }
                }
                assert forall|j: int| 0 <= j < k + 1 implies #[trigger] self.resting(j) by {
                    if j < k {
                        assert(before.resting(j));
                        assert(self.predictors_of()[j] == before.predictors_of()[j]);
                        assert(self.node_kits_of()[j] == before.node_kits_of()[j]);
                        assert(self.edge_kits_of()[j] == before.edge_kits_of()[j]);
                    }
                }
                assert forall|j: int| k + 1 <= j < self.orders() implies {
                    &&& #[trigger] self.predictors_of()[j] == old(self).predictors_of()[j]
                    &&& self.edge_kits_of()[j] == old(self).edge_kits_of()[j]
                    &&& self.node_kits_of()[j] == old(self).node_kits_of()[j]
                } by {
                    assert(before.predictors_of()[j] == old(self).predictors_of()[j]);
                    assert(self.predictors_of()[j] == before.predictors_of()[j]);
                    assert(self.edge_kits_of()[j] == before.edge_kits_of()[j]);
                    assert(self.node_kits_of()[j] == before.node_kits_of()[j]);
                }
            }
            match result {
                Some(trackers) => {
                    cost_trackers.push(trackers);
                },
                None => {},
            }
            proof {
                assert(node_trackers(items@, new_cost_trackers@, k + 1) == node_trackers(items@, new_cost_trackers@, k) + (
                if items@[k] is ForNode {
                    seq![new_cost_trackers@[k]]
                } else {
                    Seq::<CostTrackers>::empty()
                }));
            }
            order += 1;
        }
        proof {
            assert forall|k: int| 0 <= k < old(self).orders() implies #[trigger] self.resting(k) by {
                if k >= count {
                    assert(old(self).resting(k));
                    assert(self.predictors_of()[k] == old(self).predictors_of()[k]);
                }
            }
        }
        cost_trackers
    }

    /// Order `k` made a prediction for a context of the kind of `state` and
    /// waits for its update; the kit of the other kind rests.
    pub open spec fn waiting(&self, k: int, state: ContextState) -> bool {
        if state is ForNode {
            &&& self.predictors_of()[k].node_kit_of().index_of() is Some
            &&& self.predictors_of()[k].edge_kit_of().index_of() is None
            &&& self.node_kits_of()[k].index_of() is Some
            &&& self.edge_kits_of()[k].index_of() is None
            &&& self.edge_kits_of()[k].pending_of().len() == 0
        } else {
            &&& self.predictors_of()[k].edge_kit_of().index_of() is Some
            &&& self.predictors_of()[k].node_kit_of().index_of() is None
            &&& self.edge_kits_of()[k].index_of() is Some
            &&& self.node_kits_of()[k].index_of() is None
            &&& self.node_kits_of()[k].pending_of().len() == 0
        }
    }
}

/// What the chain's prediction does, as
/// `ContextsChainPredictionMixer::predict` states it.
#[verifier::opaque]
pub open spec fn chain_predicted<'a>(c0: ContextsChainPredictionMixer<'a>, c1: ContextsChainPredictionMixer<'a>, contexts: CollectedContextStates, context_byte: u8, estimators: Seq<DeceleratingEstimator>, directs: Seq<(FractOnlyU32, StretchedProbD)>, bits_runs: Seq<BitsRunsTracker>, r: (FractOnlyU32, StretchedProbD)) -> bool {
    &&& c1.wf()
    &&& c1.luts_of() == c0.luts_of()
    &&& c1.orders() == c0.orders()
    &&& predictions_ok(seq![r])
    &&& forall|k: int| contexts.items_view().len() <= k < c0.orders() ==> {
            &&& #[trigger] c1.predictors_of()[k] == c0.predictors_of()[k]
            &&& c1.edge_kits_of()[k] == c0.edge_kits_of()[k]
            &&& c1.node_kits_of()[k] == c0.node_kits_of()[k]
        }
    &&& forall|k: int| 0 <= k < contexts.items_view().len() ==> #[trigger] c1.waiting(
            k,
            contexts.items_view()[k],
        )
    &&& exists|res: Seq<(FractOnlyU32, StretchedProbD)>|
            {
                &&& res.len() == contexts.items_view().len() + 1
                &&& res[0].0.raw_of() == 0x4000_0000
                &&& res[0].1.raw_of() == 0
                &&& r == res[contexts.items_view().len() as int]
                &&& forall|k: int| 0 <= k < contexts.items_view().len() ==> #[trigger] c0.order_predicted(
                    &c1,
                    k,
                    contexts.items_view(),
                    context_byte,
                    estimators,
                    directs,
                    bits_runs,
                    res,
                )
            }
}

/// What teaching the chain the coded bit does, as
/// `ContextsChainPredictionMixer::update` states it.
pub open spec fn chain_updated<'a>(c0: ContextsChainPredictionMixer<'a>, c1: ContextsChainPredictionMixer<'a>, input_bit: Bit, contexts: CollectedContextStates, new_cost_trackers: Seq<CostTrackers>, r: Seq<CostTrackers>) -> bool {
    &&& c1.wf()
    &&& c1.luts_of() == c0.luts_of()
    &&& c1.orders() == c0.orders()
    &&& forall|k: int| 0 <= k < c0.orders() ==> #[trigger] c1.resting(k)
    &&& r == node_trackers(contexts.items_view(), new_cost_trackers, contexts.items_view().len() as int)
    &&& forall|k: int| 0 <= k < contexts.items_view().len() ==> #[trigger] c0.order_updated(
            &c1,
            k,
            contexts.items_view()[k],
            input_bit,
        )
    &&& forall|k: int| contexts.items_view().len() <= k < c0.orders() ==> {
            &&& #[trigger] c1.predictors_of()[k] == c0.predictors_of()[k]
            &&& c1.edge_kits_of()[k] == c0.edge_kits_of()[k]
            &&& c1.node_kits_of()[k] == c0.node_kits_of()[k]
        }
}

} // verus!
