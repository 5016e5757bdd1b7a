pub mod kits;
pub mod post_process;
pub mod stats;
pub mod single;
pub mod chain;

use vstd::prelude::*;
use crate::bit::Bit;
use crate::entropy::FinalProbability;
use crate::estimators::decelerating::DeceleratingEstimator;
use crate::fixed_point::{FixI32, FixI64, FixU32};
use crate::fixed_point::types::{FractOnlyU32, StretchedProbD};
use crate::history::{ContextState, CollectedContextStates};
use crate::history::state::bits_runs::BitsRunsTracker;
use crate::history::tree::{TreeHistorySource, TreeInconsistency, history_gathered, history_byte_started, history_bit_taken};
use crate::history::tree::node::CostTrackers;
use crate::lut::LookUpTables;
use crate::util::last_bytes::{LastBytesCache, unfinished_spec};
use self::chain::{ContextsChainPredictionMixer, chain_predicted, chain_updated, node_trackers};
use self::kits::predictions_ok;
use self::post_process::{PredictionFinalizer, refined, finalizer_updated, quantized_contexts_count, apm_factor_indexes_spec,
    INDEX_SCALE_DOWN_BITS};
use self::stats::{PredictionStatistics, stats_byte_started, stats_bit_counted, stats_index_spec, bit_cost_spec,
    occurrences_spec};

verus! {

/// The highest context order of the predictor.
pub const MAX_ORDER: usize = 20;

/// The number of bytes that the predictor's history keeps.
pub const WINDOW_SIZE: usize = 10_000_000;

/// Whether no context inside an edge lies below a context at a node.
pub open spec fn chain_shape_ok(items: Seq<ContextState>) -> bool {
    forall|k: int| 1 <= k < items.len() ==> !(items[k - 1] is ForEdge && #[trigger] items[k] is ForNode)
}

/// The first `n` items of a slice.
fn prefix<T: Copy>(items: &[T], n: usize) -> (r: Vec<T>)
    requires
        n <= items@.len(),
    ensures
        r@ == items@.subrange(0, n as int),
{
    let mut r: Vec<T> = Vec::new();
    let mut i: usize = 0;
    while i < n
        invariant
            i <= n,
            n <= items@.len(),
            r@ == items@.subrange(0, i as int),
        decreases n - i,
    {
        r.push(items[i]);
        i += 1;
        proof {
            assert(r@ =~= items@.subrange(0, i as int));
        }
    }
    r
}

/// Whether the chain of contexts has a node context above an edge one.
fn check_chain_shape(items: &[ContextState]) -> (r: bool)
    ensures
        r == chain_shape_ok(items@),
{
    let mut k: usize = 1;
    while k < items.len()
        invariant
            1 <= k,
            forall|j: int| 1 <= j < k && j < items@.len() ==> !(items@[j - 1] is ForEdge && #[trigger] items@[j] is ForNode),
        decreases items.len() - k,
    {
        if !items[k - 1].is_for_node() && items[k].is_for_node() {
            return false;
        }
        k += 1;
    }
    true
}

/// The whole prediction of each bit: the history gives the contexts, the
/// chain mixes their predictions, the finalizer refines the result, and the
/// statistics count the coded bits.
pub struct Predictor<'a> {
    last_bytes: LastBytesCache,
    tree_source: TreeHistorySource<'a>,
    contexts_chain: CollectedContextStates,
    contexts_chain_predictor: ContextsChainPredictionMixer<'a>,
    prediction_finalizer: PredictionFinalizer<'a>,
    final_probability_opt: Option<FinalProbability>,
    statistics: PredictionStatistics<'a>,
    failed: Ghost<bool>,
}

impl<'a> Predictor<'a> {
    pub closed spec fn last_bytes_of(&self) -> LastBytesCache {
        self.last_bytes
    }

    pub closed spec fn history_of(&self) -> TreeHistorySource<'a> {
        self.tree_source
    }

    pub closed spec fn contexts_of(&self) -> CollectedContextStates {
        self.contexts_chain
    }

    pub closed spec fn chain_of(&self) -> ContextsChainPredictionMixer<'a> {
        self.contexts_chain_predictor
    }

    pub closed spec fn finalizer_of(&self) -> PredictionFinalizer<'a> {
        self.prediction_finalizer
    }

    pub closed spec fn statistics_of(&self) -> PredictionStatistics<'a> {
        self.statistics
    }

    /// The final probability of the last prediction, while it waits for its
    /// update.
    pub closed spec fn pending_of(&self) -> Option<FinalProbability> {
        self.final_probability_opt
    }

    /// Whether a step that cannot go on was met (an inconsistent history, a
    /// chain with a node context above an edge one, or a prediction outside
    /// the range of the next part); the predictor is not used after it.
    pub closed spec fn failed(&self) -> bool {
        self.failed@
    }

    /// The parts are in order and agree: the history and the cache of the
    /// last bytes are at the same bit, the chain and the contexts fit the
    /// order limit, and between a prediction and its update the chain and the
    /// finalizer wait for the update, otherwise they rest.
    pub closed spec fn wf(&self) -> bool {
        &&& self.last_bytes.wf()
        &&& self.tree_source.wf()
        &&& self.contexts_chain_predictor.wf()
        &&& self.prediction_finalizer.wf()
        &&& self.statistics.wf()
        &&& self.tree_source.active_contexts.max_order_of() == MAX_ORDER
        &&& self.contexts_chain.limit_of() == MAX_ORDER + 1
        &&& self.contexts_chain_predictor.orders() == MAX_ORDER + 1
        &&& self.tree_source.bit_index == self.last_bytes.bit_index_of()
        &&& self.final_probability_opt is None ==> {
            &&& self.prediction_finalizer.idle()
            &&& forall|k: int| 0 <= k < MAX_ORDER + 1 ==> #[trigger] self.contexts_chain_predictor.resting(k)
        }
        &&& self.final_probability_opt matches Some(p) ==> {
            let items = self.contexts_chain.items_view();
            &&& FinalProbability::raw_ok(p.raw_of())
            &&& items.len() <= MAX_ORDER + 1
            &&& self.last_bytes.bit_index_of() >= 0
            &&& self.prediction_finalizer.awaiting_update(quantized_contexts_count(items.len() as int))
            &&& forall|k: int| 0 <= k < items.len() ==> #[trigger] self.contexts_chain_predictor.waiting(k, items[k])
            &&& forall|k: int| items.len() <= k < MAX_ORDER + 1 ==> #[trigger] self.contexts_chain_predictor.resting(k)
        }
    }
}


impl<'a> Predictor<'a> {
    /// A predictor over an empty history, with fresh parts.
    pub fn new(luts: &'a LookUpTables) -> (r: Self)
        requires
            luts.wf(),
        ensures
            r.wf(),
            !r.failed(),
            r.pending_of() is None,
            r.last_bytes_of().bit_index_of() == -1,
            r.last_bytes_of().cache() == 0,
            r.history_of().bit_index == -1,
            r.history_of().tree.window_of().max() == WINDOW_SIZE,
            r.history_of().tree.window_of().size_of() == 0,
            r.contexts_of().items_view().len() == 0,
            r.chain_of().luts_of() == *luts,
            r.finalizer_of().luts_of() == *luts,
            r.statistics_of().luts_of() == *luts,
            r.statistics_of().total_bytes_of() == 0,
            r.statistics_of().total_cost_of().raw_of() == 0,
    {
        let max_order = MAX_ORDER;
        let r = Predictor {
            last_bytes: LastBytesCache::new(),
            tree_source: TreeHistorySource::new(WINDOW_SIZE, max_order, luts),
            contexts_chain: CollectedContextStates::new(max_order),
            contexts_chain_predictor: ContextsChainPredictionMixer::new(max_order, luts),
            prediction_finalizer: PredictionFinalizer::new(luts),
            final_probability_opt: None,
            statistics: PredictionStatistics::new(max_order, luts),
            failed: Ghost(false),
        };
        r
    }

    /// Starts the next byte: the cache of the last bytes moves up by a
    /// byte, the history takes a new byte, and the statistics count the
    /// byte just finished. On an inconsistent history the error comes back
    /// and the predictor is failed.
    pub fn start_new_byte(&mut self) -> (r: Result<(), TreeInconsistency>)
        requires
            old(self).wf(),
            !old(self).failed(),
            old(self).pending_of() is None,
            old(self).last_bytes_of().bit_index_of() == -1,
            old(self).statistics_of().total_bytes_of() < u64::MAX,
            old(self).statistics_of().total_bytes_of() > 0 ==> {
                let last_byte = old(self).last_bytes_of().cache() as u8 as int;
                &&& old(self).statistics_of().per_symbol_counts_of()[last_byte] < usize::MAX
                &&& i64::MIN <= old(self).statistics_of().per_symbol_costs_of()[last_byte].raw_of()
                    + old(self).statistics_of().current_byte_cost_of().raw_of() <= i64::MAX
            },
        ensures
            predictor_byte_started(*old(self), *final(self), r),
    {
        let ghost c = self.last_bytes.cache();
        self.last_bytes.start_new_byte();
        let started = self.tree_source.start_new_byte();
        match started {
            Ok(()) => {},
            Err(e) => {
                self.failed = Ghost(true);
                return Err(e);
            },
        }
        proof {
            let c1 = self.last_bytes.cache();
            assert(c1 == ((c as int * 256) % 0x1_0000_0000) as u32);
            assert((c1 >> 8u32) as u8 == c as u8 && ((1u32 << 0u32) + ((c1 & 0xff) >> 8u32)) as u8 == 1) by (bit_vector)
                requires
                    c1 == ((c as int * 256) % 0x1_0000_0000) as u32,
            ;
            assert(unfinished_spec(c1, 7) == 1);
        }
        self.statistics.start_new_byte(&self.last_bytes);
        Ok(())
    }
}


impl<'a> Predictor<'a> {
    /// Predicts the next bit: the history gives the states of the contexts,
    /// the chain mixes their predictions, and the finalizer refines the
    /// result. Each order's estimator, direct prediction and bits runs are
    /// handed in by the caller, one per order, of which the first as many as
    /// there are contexts are used. On an inconsistent history, a context at
    /// a node above one inside an edge, a mixed prediction outside the
    /// finalizer's range, or a refined probability outside the coder's, the
    /// result is `None` and the predictor is failed.
    #[verifier::rlimit(100)]
    pub fn predict(
        &mut self,
        estimators: &[DeceleratingEstimator],
        directs: &[(FractOnlyU32, StretchedProbD)],
        bits_runs: &[BitsRunsTracker],
    ) -> (r: Option<FinalProbability>)
        requires
            old(self).wf(),
            !old(self).failed(),
            old(self).pending_of() is None,
            old(self).last_bytes_of().bit_index_of() >= 0,
            estimators@.len() >= MAX_ORDER + 1,
            directs@.len() >= MAX_ORDER + 1,
            bits_runs@.len() >= MAX_ORDER + 1,
            predictions_ok(directs@),
            forall|k: int| 0 <= k < bits_runs@.len() ==> (#[trigger] bits_runs@[k]).wf(),
        ensures
            predictor_predicted(*old(self), *final(self), estimators@, directs@, bits_runs@, r),
    {
        let ghost p0 = *self;
        self.contexts_chain.reset();
        let ghost cs0 = self.contexts_chain;
        let gathered = self.tree_source.gather_history_states(&mut self.contexts_chain);
        if gathered.is_err() {
            self.failed = Ghost(true);
            proof {
                assert(history_gathered(p0.history_of(), cs0, self.contexts_of(), gathered));
            }
            return None;
        }
        proof {
            assert(self.contexts_of().items_view().len() <= MAX_ORDER + 1 && self.contexts_of().limit_of()
                == MAX_ORDER + 1 && forall|k: int|
                0 <= k < self.contexts_of().items_view().len() ==> (#[trigger] self.contexts_of().items_view()[k]).wf())
                by {
                reveal(history_gathered);
            }
        }
        let items = self.contexts_chain.items();
        let contexts_count = items.len();
        if !check_chain_shape(items) {
            self.failed = Ghost(true);
            proof {
                assert(history_gathered(p0.history_of(), cs0, self.contexts_of(), gathered));
            }
            return None;
        }
        let estimators_used = prefix(estimators, contexts_count);
        let directs_used = prefix(directs, contexts_count);
        let bits_runs_used = prefix(bits_runs, contexts_count);
        let context_byte = self.last_bytes.unfinished_byte().raw();
        let mixed = self.contexts_chain_predictor.predict(
            &self.contexts_chain,
            context_byte,
            estimators_used.as_slice(),
            directs_used.as_slice(),
            bits_runs_used.as_slice(),
        );
        let ghost n = contexts_count as int;
        proof {
            assert(context_byte == unfinished_spec(p0.last_bytes_of().cache(), p0.last_bytes_of().bit_index_of()));
            assert(chain_predicted(
                p0.chain_of(),
                self.chain_of(),
                self.contexts_of(),
                unfinished_spec(p0.last_bytes_of().cache(), p0.last_bytes_of().bit_index_of()),
                estimators@.subrange(0, n),
                directs@.subrange(0, n),
                bits_runs@.subrange(0, n),
                mixed,
            ));
            let c0 = p0.chain_of();
            let c1 = self.chain_of();
            assert({
                &&& c1.wf()
                &&& c1.orders() == c0.orders()
                &&& predictions_ok(seq![mixed])
                &&& forall|k: int| n <= k < c0.orders() ==> #[trigger] c1.resting(k)
                &&& forall|k: int| 0 <= k < n ==> #[trigger] c1.waiting(k, self.contexts_of().items_view()[k])
            }) by {
                reveal(chain_predicted);
                assert forall|k: int| n <= k < c0.orders() implies #[trigger] c1.resting(k) by {
                    assert(c0.resting(k));
                }
            }
            assert(seq![mixed][0] == mixed);
        }
        let ghost c1_after = self.chain_of();
        if !(-12 * 0x20_0000 <= mixed.1.raw() && mixed.1.raw() < 12 * 0x20_0000) {
            self.failed = Ghost(true);
            proof {
                let p1 = *self;
                assert(history_gathered(p0.history_of(), cs0, p1.contexts_of(), gathered));
                assert(chain_predicted(
                    p0.chain_of(),
                    p1.chain_of(),
                    p1.contexts_of(),
                    unfinished_spec(p0.last_bytes_of().cache(), p0.last_bytes_of().bit_index_of()),
                    estimators@.subrange(0, n),
                    directs@.subrange(0, n),
                    bits_runs@.subrange(0, n),
                    mixed,
                ));
            }
            return None;
        }
        let refined_opt = self.prediction_finalizer.refine(mixed.0, mixed.1, contexts_count, &self.last_bytes);
        let result = match refined_opt {
            Some(final_probability) => {
                self.final_probability_opt = Some(final_probability);
                Some(final_probability)
            },
            None => {
                self.failed = Ghost(true);
                None
            },
        };
        proof {
            let p1 = *self;
            assert(p1.chain_of() == c1_after);
            assert(history_gathered(p0.history_of(), cs0, p1.contexts_of(), gathered));
            assert(chain_predicted(
                p0.chain_of(),
                p1.chain_of(),
                p1.contexts_of(),
                unfinished_spec(p0.last_bytes_of().cache(), p0.last_bytes_of().bit_index_of()),
                estimators@.subrange(0, n),
                directs@.subrange(0, n),
                bits_runs@.subrange(0, n),
                mixed,
            ));
            assert(refined(p0.finalizer_of(), p1.finalizer_of(), mixed.0, mixed.1, n as usize, p0.last_bytes_of(), result));
            if result is Some {
                let fin1 = p1.finalizer_of();
                assert({
                    &&& fin1.wf()
                    &&& fin1.awaiting_update(quantized_contexts_count(n))
                    &&& FinalProbability::raw_ok(result.unwrap().raw_of())
                }) by {
                    reveal(refined);
                }
                assert(p1.wf());
            }
        }
        result
    }
}

/// What predicting a bit does to the predictor, as `Predictor::predict`
/// states it: the contexts are gathered anew; where they are readable and
/// in order, the chain predicts from the first of each argument's items,
/// one per context, and, where its mixed prediction is in the finalizer's
/// range, the finalizer refines it.
pub open spec fn predictor_predicted<'a>(
    p0: Predictor<'a>,
    p1: Predictor<'a>,
    estimators: Seq<DeceleratingEstimator>,
    directs: Seq<(FractOnlyU32, StretchedProbD)>,
    bits_runs: Seq<BitsRunsTracker>,
    r: Option<FinalProbability>,
) -> bool {
    let items = p1.contexts_of().items_view();
    let n = items.len() as int;
    let lb = p0.last_bytes_of();
    &&& (r is Some <==> !p1.failed())
    &&& r is Some ==> p1.wf() && p1.pending_of() == r
    &&& p1.last_bytes_of() == lb
    &&& p1.history_of() == p0.history_of()
    &&& p1.statistics_of() == p0.statistics_of()
    &&& exists|cs0: CollectedContextStates, g: Result<(), TreeInconsistency>|
        {
            &&& cs0.items_view().len() == 0
            &&& cs0.limit_of() == p0.contexts_of().limit_of()
            &&& #[trigger] history_gathered(p0.history_of(), cs0, p1.contexts_of(), g)
            &&& (g is Err || !chain_shape_ok(items)) ==> {
                &&& r is None
                &&& p1.chain_of() == p0.chain_of()
                &&& p1.finalizer_of() == p0.finalizer_of()
            }
            &&& (g is Ok && chain_shape_ok(items)) ==> exists|m: (FractOnlyU32, StretchedProbD)|
                {
                    &&& #[trigger] chain_predicted(
                        p0.chain_of(),
                        p1.chain_of(),
                        p1.contexts_of(),
                        unfinished_spec(lb.cache(), lb.bit_index_of()),
                        estimators.subrange(0, n),
                        directs.subrange(0, n),
                        bits_runs.subrange(0, n),
                        m,
                    )
                    &&& !(-12 * 0x20_0000 <= m.1.raw_of() < 12 * 0x20_0000) ==> r is None
                        && p1.finalizer_of() == p0.finalizer_of()
                    &&& -12 * 0x20_0000 <= m.1.raw_of() < 12 * 0x20_0000 ==> refined(
                        p0.finalizer_of(),
                        p1.finalizer_of(),
                        m.0,
                        m.1,
                        n as usize,
                        lb,
                        r,
                    )
                }
        }
}


impl<'a> Predictor<'a> {
    /// The statistics of the coded bits.
    pub fn statistics(&self) -> (r: &PredictionStatistics<'a>)
        ensures
            *r == self.statistics_of(),
    {
        &self.statistics
    }

    /// The row of the finalizer's mixers that the last prediction used,
    /// while it waits for its update.
    pub fn pending_row_index(&self) -> (r: Option<usize>)
        ensures
            r == self.finalizer_of().row_index_of(),
    {
        self.prediction_finalizer.pending_row_index()
    }

    /// Teaches every part the coded bit of the last prediction: the chain,
    /// then the history (with the cost trackers that the chain gives back),
    /// the finalizer, the statistics, and last the cache of the last bytes.
    /// The new cost trackers of the contexts are handed in by the caller,
    /// one per order, of which the first as many as there are contexts are
    /// used. On an inconsistent history the error comes back, the parts
    /// after the history keep their state, and the predictor is failed. A
    /// row of the last prediction too far from the middle for the
    /// finalizer's rates cannot be updated; `requires` leaves it out.
    pub fn update(&mut self, input_bit: Bit, new_cost_trackers: &[CostTrackers]) -> (r: Result<(), TreeInconsistency>)
        requires
            old(self).wf(),
            !old(self).failed(),
            old(self).pending_of() is Some,
            new_cost_trackers@.len() >= MAX_ORDER + 1,
            apm_factor_indexes_spec(old(self).finalizer_of().row_index_of().unwrap(), INDEX_SCALE_DOWN_BITS).0 < 13,
            apm_factor_indexes_spec(old(self).finalizer_of().row_index_of().unwrap(), INDEX_SCALE_DOWN_BITS).1 < 13,
            old(self).statistics_of().total_contexts_count_of() + old(self).contexts_of().items_view().len() <= u64::MAX,
            old(self).contexts_of().items_view().len() > 0 ==> {
                let stats = old(self).statistics_of();
                let items = old(self).contexts_of().items_view();
                let index = stats_index_spec(items);
                let cost = bit_cost_spec(stats.luts_of(), old(self).pending_of().unwrap(), input_bit);
                &&& index < stats.per_order_occurrences_of().len()
                &&& stats.per_order_counts_of()[index] < usize::MAX
                &&& stats.current_byte_cost_of().raw_of() + cost <= i64::MAX
                &&& stats.total_cost_of().raw_of() + cost <= i64::MAX
                &&& stats.per_order_costs_of()[index].raw_of() + cost <= i64::MAX
                &&& stats.per_order_occurrences_of()[index] + occurrences_spec(items.last()) <= u64::MAX
            },
        ensures
            predictor_updated(*old(self), *final(self), input_bit, new_cost_trackers@, r),
    {
        let ghost p0 = *self;
        let contexts_count = self.contexts_chain.items().len();
        let trackers_used = prefix(new_cost_trackers, contexts_count);
        let cost_trackers = self.contexts_chain_predictor.update(input_bit, &self.contexts_chain, trackers_used.as_slice());
        let processed = self.tree_source.process_input_bit(input_bit, cost_trackers.as_slice());
        match processed {
            Ok(()) => {},
            Err(e) => {
                self.failed = Ghost(true);
                return Err(e);
            },
        }
        self.prediction_finalizer.update(input_bit, contexts_count, &self.last_bytes);
        let final_probability = self.final_probability_opt.unwrap();
        self.statistics.on_next_bit(input_bit, &self.contexts_chain, final_probability);
        self.final_probability_opt = None;
        self.last_bytes.on_next_bit(input_bit);
        Ok(())
    }
}

/// What teaching the predictor a coded bit does, as `Predictor::update`
/// states it.
pub open spec fn predictor_updated<'a>(
    p0: Predictor<'a>,
    p1: Predictor<'a>,
    input_bit: Bit,
    new_cost_trackers: Seq<CostTrackers>,
    r: Result<(), TreeInconsistency>,
) -> bool {
    let items = p0.contexts_of().items_view();
    let n = items.len() as int;
    let trackers = node_trackers(items, new_cost_trackers.subrange(0, n), n);
    let lb0 = p0.last_bytes_of();
    &&& (r is Err <==> p1.failed())
    &&& r is Ok ==> p1.wf()
    &&& p1.contexts_of() == p0.contexts_of()
    &&& chain_updated(p0.chain_of(), p1.chain_of(), input_bit, p0.contexts_of(), new_cost_trackers.subrange(0, n), trackers)
    &&& history_bit_taken(p0.history_of(), p1.history_of(), input_bit, trackers, r)
    &&& r is Err ==> {
        &&& p1.finalizer_of() == p0.finalizer_of()
        &&& p1.statistics_of() == p0.statistics_of()
        &&& p1.last_bytes_of() == lb0
        &&& p1.pending_of() == p0.pending_of()
    }
    &&& r is Ok ==> {
        &&& p1.pending_of() is None
        &&& finalizer_updated(p0.finalizer_of(), p1.finalizer_of(), input_bit, n as usize, lb0)
        &&& stats_bit_counted(p0.statistics_of(), p1.statistics_of(), input_bit, p0.contexts_of(), p0.pending_of().unwrap())
        &&& p1.last_bytes_of().bit_index_of() == lb0.bit_index_of() - 1
        &&& p1.last_bytes_of().cache() == lb0.cache() | ((input_bit.value() as u32) << (lb0.bit_index_of() as u32))
    }
}

/// What starting a byte does to the predictor, as
/// `Predictor::start_new_byte` states it.
pub open spec fn predictor_byte_started<'a>(p0: Predictor<'a>, p1: Predictor<'a>, r: Result<(), TreeInconsistency>) -> bool {
    &&& (r is Err <==> p1.failed())
    &&& r is Ok ==> p1.wf()
    &&& p1.pending_of() is None
    &&& p1.last_bytes_of().bit_index_of() == 7
    &&& p1.last_bytes_of().cache() == (p0.last_bytes_of().cache() as int * 256) % 0x1_0000_0000
    &&& history_byte_started(p0.history_of(), p1.history_of(), r)
    &&& p1.contexts_of() == p0.contexts_of()
    &&& p1.chain_of() == p0.chain_of()
    &&& p1.finalizer_of() == p0.finalizer_of()
    &&& r is Ok ==> stats_byte_started(p0.statistics_of(), p1.statistics_of(), p1.last_bytes_of())
    &&& r is Err ==> p1.statistics_of() == p0.statistics_of()
}

} // verus!
