pub mod state;
pub mod window;
pub mod naive;
pub mod fat_map;
pub mod tree;

use vstd::prelude::*;
use crate::bit::Bit;
use crate::estimators::decelerating::DeceleratingEstimator;
use crate::history::state::recent_bits::{RecentBitsState, run_raw, updated_raw, lemma_updated_shifts_in_bit};
use crate::lut::LookUpTables;
use crate::lut::estimator::{new_node_raw, bit_run_raw};
use crate::estimators::decelerating::{make_raw, next_prediction, prediction_of, count_of, lemma_update_ok, lemma_make_raw_ok,
    lemma_update_moves_towards_bit};
use crate::estimators::cost::CostTracker;
use self::tree::node::{CostTrackers, MAX_OCCURRENCE_COUNT, incremented_count};

verus! {

/// What a context of the history knows before the next bit: for an edge of
/// the tree, the run of one bit that it repeats; for a node, its estimator,
/// bit history and cost trackers.
#[derive(Clone, Copy, Debug, PartialEq, Eq, Structural)]
pub enum ContextState {
    ForEdge { last_occurrence_distance: usize, occurrence_count: u16, repeated_bit: Bit },
    ForNode {
        last_occurrence_distance: usize,
        probability_estimator: DeceleratingEstimator,
        bit_history: RecentBitsState,
        cost_trackers: CostTrackers,
    },
}

/// How a context's state follows from the previous one when the context
/// occurs again at `new_occurrence_distance`, followed by `bit_in_context`.
pub open spec fn next_state_rel(
    prev: ContextState,
    r: ContextState,
    new_occurrence_distance: usize,
    bit_in_context: Bit,
    cost_trackers_opt: Option<CostTrackers>,
    luts: LookUpTables,
) -> bool {
    &&& (r.distance_of() == new_occurrence_distance)
    &&& (prev matches ContextState::ForNode { probability_estimator, bit_history, .. } ==> (r matches ContextState::ForNode {
                probability_estimator: e,
                bit_history: h,
                cost_trackers: c,
                ..
            } && c == cost_trackers_opt->0 && h.raw_of() == updated_raw(bit_history.raw_of(), bit_in_context)
                && e.raw_of() == make_raw(
                next_prediction(
                    prediction_of(probability_estimator.raw_of() as int),
                    luts.rates_of().factor(count_of(probability_estimator.raw_of() as int)),
                    bit_in_context,
                ),
                incremented_count(count_of(probability_estimator.raw_of() as int)),
            )))
    &&& (prev matches ContextState::ForEdge { occurrence_count, repeated_bit, .. } ==> (repeated_bit == bit_in_context
                ==> r == (ContextState::ForEdge {
                last_occurrence_distance: new_occurrence_distance,
                occurrence_count: incremented_count(occurrence_count as int) as u16,
                repeated_bit,
            })))
    &&& (prev matches ContextState::ForEdge { occurrence_count, repeated_bit, .. } ==> (repeated_bit != bit_in_context
                ==> (r matches ContextState::ForNode { probability_estimator: e, bit_history: h, cost_trackers: c, .. }
                && e.raw_of() == new_node_raw(luts.cache_of(), luts.rates_of(), bit_in_context, occurrence_count as int)
                && h.raw_of() == updated_raw(run_raw(bit_in_context.flipped(), occurrence_count), bit_in_context)
                && c.stationary == c.non_stationary
                && c.stationary.raw_of() == luts.cost_lut_of().entry(
                if occurrence_count < 1023 {
                    occurrence_count as int
                } else {
                    1023
                },
            ))))
}

/// The state that follows from the previous one.
pub open spec fn next_state_spec(
    prev: ContextState,
    new_occurrence_distance: usize,
    bit_in_context: Bit,
    cost_trackers_opt: Option<CostTrackers>,
    luts: LookUpTables,
) -> ContextState {
    choose|r: ContextState| next_state_rel(prev, r, new_occurrence_distance, bit_in_context, cost_trackers_opt, luts)
}

/// A context's next state follows the coded bit: it records the bit at the
/// bottom of a node's history; a node's estimator moves towards the bit; an
/// edge that repeats the bit counts one more occurrence (up to the limit)
/// and stays an edge of that bit; an edge of the other bit becomes a node
/// whose history is the run of the repeated bit with the new bit below it.
pub proof fn lemma_next_state_follows_bit(
    prev: ContextState,
    r: ContextState,
    new_occurrence_distance: usize,
    bit_in_context: Bit,
    cost_trackers_opt: Option<CostTrackers>,
    luts: LookUpTables,
)
    requires
        prev.wf(),
        luts.wf(),
        next_state_rel(prev, r, new_occurrence_distance, bit_in_context, cost_trackers_opt, luts),
    ensures
        r.distance_of() == new_occurrence_distance,
        r matches ContextState::ForNode { bit_history, .. } ==> bit_history.raw_of() & 1u16 == (if bit_in_context
            == Bit::Zero {
            0u16
        } else {
            1u16
        }),
        prev matches ContextState::ForNode { probability_estimator: e0, bit_history: h0, .. } ==> (r matches ContextState::ForNode {
            probability_estimator: e1,
            bit_history: h1,
            ..
        } && (bit_in_context == Bit::Zero ==> prediction_of(e1.raw_of() as int) >= prediction_of(e0.raw_of() as int))
            && (bit_in_context == Bit::One ==> prediction_of(e1.raw_of() as int) <= prediction_of(e0.raw_of() as int))
            && (h1.raw_of() >> 1u16) & 0x3fffu16 == h0.raw_of() & 0x3fffu16),
        prev is ForEdge && prev->repeated_bit == bit_in_context ==> {
            &&& r is ForEdge
            &&& r->repeated_bit == bit_in_context
            &&& r->occurrence_count == (if prev->occurrence_count + 1 < MAX_OCCURRENCE_COUNT {
                prev->occurrence_count + 1
            } else {
                MAX_OCCURRENCE_COUNT as int
            })
        },
        prev is ForEdge && prev->repeated_bit != bit_in_context ==> {
            &&& r is ForNode
            &&& (r->bit_history.raw_of() >> 1u16) & 0x3fffu16 == run_raw(prev->repeated_bit, prev->occurrence_count)
                & 0x3fffu16
        },
{
    luts.lemma_wf();
    match prev {
        ContextState::ForNode { probability_estimator, bit_history, .. } => {
            let raw = probability_estimator.raw_of() as int;
            luts.rates_of().lemma_wf(count_of(raw));
            lemma_update_moves_towards_bit(probability_estimator, luts.rates_of().factor(count_of(raw)), bit_in_context);
            lemma_updated_shifts_in_bit(bit_history.raw_of(), bit_in_context);
        },
        ContextState::ForEdge { occurrence_count, repeated_bit, .. } => {
            if repeated_bit != bit_in_context {
                assert(bit_in_context.flipped() == repeated_bit) by {
                    match bit_in_context {
                        Bit::Zero => {},
                        Bit::One => {},
                    }
                }
                lemma_updated_shifts_in_bit(run_raw(repeated_bit, occurrence_count), bit_in_context);
            }
        },
    }
}

/// At most one state follows from the previous one.
pub proof fn lemma_next_state_unique(
    prev: ContextState,
    a: ContextState,
    b: ContextState,
    new_occurrence_distance: usize,
    bit_in_context: Bit,
    cost_trackers_opt: Option<CostTrackers>,
    luts: LookUpTables,
)
    requires
        next_state_rel(prev, a, new_occurrence_distance, bit_in_context, cost_trackers_opt, luts),
        next_state_rel(prev, b, new_occurrence_distance, bit_in_context, cost_trackers_opt, luts),
    ensures
        a == b,
{
    match (a, b) {
        (
            ContextState::ForNode { probability_estimator: ea, bit_history: ha, cost_trackers: ca, .. },
            ContextState::ForNode { probability_estimator: eb, bit_history: hb, cost_trackers: cb, .. },
        ) => {
            DeceleratingEstimator::lemma_raw_injective(ea, eb);
            RecentBitsState::lemma_raw_injective(ha, hb);
            if prev is ForEdge {
                crate::estimators::cost::CostTracker::lemma_raw_injective(ca.stationary, cb.stationary);
            }
        },
        _ => {},
    }
}

/// A state with its distance replaced.
pub open spec fn with_distance(state: ContextState, distance: usize) -> ContextState {
    match state {
        ContextState::ForEdge { occurrence_count, repeated_bit, .. } => ContextState::ForEdge {
            last_occurrence_distance: distance,
            occurrence_count,
            repeated_bit,
        },
        ContextState::ForNode { probability_estimator, bit_history, cost_trackers, .. } => ContextState::ForNode {
            last_occurrence_distance: distance,
            probability_estimator,
            bit_history,
            cost_trackers,
        },
    }
}

/// A valid state always has a next state.
pub proof fn lemma_next_state_exists(
    prev: ContextState,
    new_occurrence_distance: usize,
    bit_in_context: Bit,
    cost_trackers_opt: Option<CostTrackers>,
    luts: LookUpTables,
)
    requires
        prev.wf(),
        luts.wf(),
        prev is ForNode ==> cost_trackers_opt is Some,
    ensures
        exists|r: ContextState|
            next_state_rel(prev, r, new_occurrence_distance, bit_in_context, cost_trackers_opt, luts) && r.wf(),
{
    luts.lemma_wf();
    match prev {
        ContextState::ForNode { probability_estimator, bit_history, .. } => {
            let raw = probability_estimator.raw_of() as int;
            luts.rates_of().lemma_wf(count_of(raw));
            lemma_update_ok(probability_estimator, luts.rates_of().factor(count_of(raw)), bit_in_context);
            let p = next_prediction(prediction_of(raw), luts.rates_of().factor(count_of(raw)), bit_in_context);
            let c = incremented_count(count_of(raw));
            lemma_make_raw_ok(p, c);
            DeceleratingEstimator::lemma_from_raw(make_raw(p, c) as u32);
            let h = updated_raw(bit_history.raw_of(), bit_in_context);
            RecentBitsState::lemma_from_raw(h);
            let r = ContextState::ForNode {
                last_occurrence_distance: new_occurrence_distance,
                probability_estimator: DeceleratingEstimator::from_raw(make_raw(p, c) as u32),
                bit_history: RecentBitsState::from_raw(h),
                cost_trackers: cost_trackers_opt->0,
            };
            assert(next_state_rel(prev, r, new_occurrence_distance, bit_in_context, cost_trackers_opt, luts) && r.wf());
        },
        ContextState::ForEdge { occurrence_count, repeated_bit, .. } => {
            if repeated_bit == bit_in_context {
                let r = ContextState::ForEdge {
                    last_occurrence_distance: new_occurrence_distance,
                    occurrence_count: incremented_count(occurrence_count as int) as u16,
                    repeated_bit,
                };
                assert(next_state_rel(prev, r, new_occurrence_distance, bit_in_context, cost_trackers_opt, luts) && r.wf());
            } else {
                let cache = luts.cache_of();
                let n = occurrence_count as int;
                cache.lemma_entry_wf(n);
                let zeros = cache.entry(n).raw_of() as int;
                let run = bit_run_raw(cache, bit_in_context.flipped(), n);
                if bit_in_context.flipped() == Bit::One {
                    lemma_make_raw_ok(0x8000_0000 - prediction_of(zeros), count_of(zeros));
                }
                let run_estimator = DeceleratingEstimator::from_raw(run as u32);
                DeceleratingEstimator::lemma_from_raw(run as u32);
                assert(run_estimator.wf());
                luts.rates_of().lemma_wf(count_of(run));
                lemma_update_ok(run_estimator, luts.rates_of().factor(count_of(run)), bit_in_context);
                let c = if count_of(run) < 1000 {
                    count_of(run) + 1
                } else {
                    1000
                };
                let p = next_prediction(prediction_of(run), luts.rates_of().factor(count_of(run)), bit_in_context);
                lemma_make_raw_ok(p, c);
                let e_raw = new_node_raw(cache, luts.rates_of(), bit_in_context, n);
                assert(e_raw == make_raw(p, c));
                DeceleratingEstimator::lemma_from_raw(e_raw as u32);
                let h = updated_raw(run_raw(bit_in_context.flipped(), occurrence_count), bit_in_context);
                RecentBitsState::lemma_from_raw(h);
                let index = if occurrence_count < 1023 {
                    occurrence_count as int
                } else {
                    1023
                };
                luts.cost_lut_of().lemma_entry_range(index);
                let tracker = CostTracker::from_raw(luts.cost_lut_of().entry(index) as u16);
                CostTracker::lemma_from_raw(luts.cost_lut_of().entry(index) as u16);
                let r = ContextState::ForNode {
                    last_occurrence_distance: new_occurrence_distance,
                    probability_estimator: DeceleratingEstimator::from_raw(e_raw as u32),
                    bit_history: RecentBitsState::from_raw(h),
                    cost_trackers: CostTrackers { stationary: tracker, non_stationary: tracker },
                };
                assert(next_state_rel(prev, r, new_occurrence_distance, bit_in_context, cost_trackers_opt, luts) && r.wf());
            }
        },
    }
}

/// The chosen next state is the one that follows, and it is valid.
pub proof fn lemma_next_state_spec(
    prev: ContextState,
    new_occurrence_distance: usize,
    bit_in_context: Bit,
    cost_trackers_opt: Option<CostTrackers>,
    luts: LookUpTables,
)
    requires
        prev.wf(),
        luts.wf(),
        prev is ForNode ==> cost_trackers_opt is Some,
    ensures
        next_state_rel(
            prev,
            next_state_spec(prev, new_occurrence_distance, bit_in_context, cost_trackers_opt, luts),
            new_occurrence_distance,
            bit_in_context,
            cost_trackers_opt,
            luts,
        ),
        next_state_spec(prev, new_occurrence_distance, bit_in_context, cost_trackers_opt, luts).wf(),
        next_state_spec(prev, new_occurrence_distance, bit_in_context, cost_trackers_opt, luts).distance_of()
            == new_occurrence_distance,
{
    lemma_next_state_exists(prev, new_occurrence_distance, bit_in_context, cost_trackers_opt, luts);
    let w = choose|r: ContextState|
        next_state_rel(prev, r, new_occurrence_distance, bit_in_context, cost_trackers_opt, luts) && r.wf();
    let c = next_state_spec(prev, new_occurrence_distance, bit_in_context, cost_trackers_opt, luts);
    lemma_next_state_unique(prev, w, c, new_occurrence_distance, bit_in_context, cost_trackers_opt, luts);
}

/// The next state does not depend on the previous state's distance, and
/// its own distance is the new one.
pub proof fn lemma_next_state_distances(
    prev: ContextState,
    previous_distance: usize,
    d: usize,
    d2: usize,
    bit_in_context: Bit,
    cost_trackers_opt: Option<CostTrackers>,
    luts: LookUpTables,
)
    requires
        prev.wf(),
        luts.wf(),
        prev is ForNode ==> cost_trackers_opt is Some,
    ensures
        next_state_spec(with_distance(prev, previous_distance), d, bit_in_context, cost_trackers_opt, luts)
            == next_state_spec(prev, d, bit_in_context, cost_trackers_opt, luts),
        with_distance(next_state_spec(prev, d, bit_in_context, cost_trackers_opt, luts), d2) == next_state_spec(
            prev,
            d2,
            bit_in_context,
            cost_trackers_opt,
            luts,
        ),
{
    let moved = with_distance(prev, previous_distance);
    lemma_next_state_spec(prev, d, bit_in_context, cost_trackers_opt, luts);
    lemma_next_state_spec(moved, d, bit_in_context, cost_trackers_opt, luts);
    let a = next_state_spec(prev, d, bit_in_context, cost_trackers_opt, luts);
    let b = next_state_spec(moved, d, bit_in_context, cost_trackers_opt, luts);
    assert(next_state_rel(prev, b, d, bit_in_context, cost_trackers_opt, luts));
    lemma_next_state_unique(prev, a, b, d, bit_in_context, cost_trackers_opt, luts);
    lemma_next_state_spec(prev, d2, bit_in_context, cost_trackers_opt, luts);
    let a2 = with_distance(a, d2);
    assert(next_state_rel(prev, a2, d2, bit_in_context, cost_trackers_opt, luts));
    lemma_next_state_unique(
        prev,
        a2,
        next_state_spec(prev, d2, bit_in_context, cost_trackers_opt, luts),
        d2,
        bit_in_context,
        cost_trackers_opt,
        luts,
    );
}

impl ContextState {
    /// An edge counts at most the maximum of occurrences; a node's estimator
    /// is in range.
    pub open spec fn wf(&self) -> bool {
        match *self {
            ContextState::ForEdge { occurrence_count, .. } => occurrence_count <= MAX_OCCURRENCE_COUNT,
            ContextState::ForNode { probability_estimator, .. } => probability_estimator.wf(),
        }
    }

    pub open spec fn distance_of(&self) -> usize {
        match *self {
            ContextState::ForEdge { last_occurrence_distance, .. } => last_occurrence_distance,
            ContextState::ForNode { last_occurrence_distance, .. } => last_occurrence_distance,
        }
    }

    pub fn is_for_node(&self) -> (r: bool)
        ensures
            r == (*self is ForNode),
    {
        match self {
            ContextState::ForEdge { .. } => false,
            ContextState::ForNode { .. } => true,
        }
    }

    pub fn last_occurrence_distance(&self) -> (r: usize)
        ensures
            r == self.distance_of(),
    {
        match self {
            ContextState::ForEdge { last_occurrence_distance, .. } => *last_occurrence_distance,
            ContextState::ForNode { last_occurrence_distance, .. } => *last_occurrence_distance,
        }
    }

    /// How often the context occurred: counted on an edge, the estimator's
    /// usage count at a node.
    pub fn occurrence_count(&self) -> (r: u16)
        ensures
            *self matches ContextState::ForEdge { occurrence_count, .. } ==> r == occurrence_count,
            *self matches ContextState::ForNode { probability_estimator, .. } ==> r == count_of(
                probability_estimator.raw_of() as int,
            ),
    {
        match self {
            ContextState::ForEdge { occurrence_count, .. } => *occurrence_count,
            ContextState::ForNode { probability_estimator, .. } => probability_estimator.usage_count(),
        }
    }

    /// The bit history: a node keeps its own, an edge's is its run.
    pub fn bit_history(&self, luts: &LookUpTables) -> (r: RecentBitsState)
        ensures
            *self matches ContextState::ForEdge { occurrence_count, repeated_bit, .. } ==> r.raw_of() == run_raw(
                repeated_bit,
                occurrence_count,
            ),
            *self matches ContextState::ForNode { bit_history, .. } ==> r == bit_history,
    {
        match self {
            ContextState::ForEdge { occurrence_count, repeated_bit, .. } => luts.history_state_factory().for_bit_run(
                *repeated_bit,
                *occurrence_count,
            ),
            ContextState::ForNode { bit_history, .. } => *bit_history,
        }
    }

    /// The state of a context that occurred once, followed by `bit_in_context`.
    pub fn starting_state(first_occurrence_distance: usize, bit_in_context: Bit) -> (r: ContextState)
        ensures
            r == (ContextState::ForEdge {
                last_occurrence_distance: first_occurrence_distance,
                occurrence_count: 1,
                repeated_bit: bit_in_context,
            }),
    {
        ContextState::ForEdge {
            last_occurrence_distance: first_occurrence_distance,
            occurrence_count: 1,
            repeated_bit: bit_in_context,
        }
    }

    /// Puts a node's cost trackers back to their starting cost.
    pub fn neutralize_cost_trackers(&mut self)
        ensures
            *old(self) is ForEdge ==> *final(self) == *old(self),
            *old(self) matches ContextState::ForNode { last_occurrence_distance, probability_estimator, bit_history, .. } ==>
                (*final(self) matches ContextState::ForNode { last_occurrence_distance: d, probability_estimator: e, bit_history: h, cost_trackers: c }
                && d == last_occurrence_distance && e == probability_estimator && h == bit_history
                && c.stationary.raw_of() == 0x8000 && c.non_stationary.raw_of() == 0x8000),
    {
        match self {
            ContextState::ForEdge { .. } => {},
            ContextState::ForNode { last_occurrence_distance, probability_estimator, bit_history, .. } => {
                *self = ContextState::ForNode {
                    last_occurrence_distance: *last_occurrence_distance,
                    probability_estimator: *probability_estimator,
                    bit_history: *bit_history,
                    cost_trackers: CostTrackers::default_trackers(),
                };
            },
        }
    }

    /// The state after the context saw `bit_in_context` again: a node learns
    /// the bit; an edge counts a repeated bit, and becomes a node when the
    /// other bit comes.
    pub fn next_state(
        &self,
        new_occurrence_distance: usize,
        bit_in_context: Bit,
        cost_trackers_opt: Option<CostTrackers>,
        luts: &LookUpTables,
    ) -> (r: ContextState)
        requires
            self.wf(),
            luts.wf(),
            *self is ForNode ==> cost_trackers_opt is Some,
            *self is ForEdge ==> cost_trackers_opt is None,
        ensures
            r.wf(),
            next_state_rel(*self, r, new_occurrence_distance, bit_in_context, cost_trackers_opt, *luts),
    {
        proof {
            luts.lemma_wf();
        }
        match self {
            ContextState::ForNode { probability_estimator, bit_history, .. } => {
                let mut probability_estimator = *probability_estimator;
                proof {
                    luts.rates_of().lemma_wf(count_of(probability_estimator.raw_of() as int));
                    lemma_update_ok(
                        probability_estimator,
                        luts.rates_of().factor(count_of(probability_estimator.raw_of() as int)),
                        bit_in_context,
                    );
                }
                probability_estimator.update(bit_in_context, luts.d_estimator_rates());
                ContextState::ForNode {
                    last_occurrence_distance: new_occurrence_distance,
                    probability_estimator,
                    bit_history: bit_history.updated(bit_in_context),
                    cost_trackers: cost_trackers_opt.unwrap(),
                }
            },
            ContextState::ForEdge { occurrence_count, repeated_bit, .. } => {
                if *repeated_bit == bit_in_context {
                    ContextState::ForEdge {
                        last_occurrence_distance: new_occurrence_distance,
                        occurrence_count: if *occurrence_count + 1 < MAX_OCCURRENCE_COUNT {
                            *occurrence_count + 1
                        } else {
                            MAX_OCCURRENCE_COUNT
                        },
                        repeated_bit: *repeated_bit,
                    }
                } else {
                    let d_estimator = luts.d_estimator_cache().for_new_node(
                        bit_in_context,
                        *occurrence_count,
                        luts.d_estimator_rates(),
                    );
                    let bit_history = luts.history_state_factory().for_new_node(bit_in_context, *occurrence_count);
                    let cost_tracker = luts.cost_trackers_lut().for_new_node(*occurrence_count);
                    let cost_trackers = CostTrackers::new(cost_tracker, cost_tracker);
                    ContextState::ForNode {
                        last_occurrence_distance: new_occurrence_distance,
                        probability_estimator: d_estimator,
                        bit_history,
                        cost_trackers,
                    }
                }
            },
        }
    }
}

/// The states of the contexts of the current bit, lowest order first, up to
/// a number fixed when made.
pub struct CollectedContextStates {
    items: Vec<ContextState>,
    limit: usize,
}

impl CollectedContextStates {
    pub closed spec fn items_view(&self) -> Seq<ContextState> {
        self.items@
    }

    pub closed spec fn limit_of(&self) -> int {
        self.limit as int
    }

    pub fn new(max_order: usize) -> (r: CollectedContextStates)
        requires
            max_order < usize::MAX,
        ensures
            r.items_view() == Seq::<ContextState>::empty(),
            r.limit_of() == max_order + 1,
    {
        CollectedContextStates { items: Vec::new(), limit: max_order + 1 }
    }

    pub fn items(&self) -> (r: &[ContextState])
        ensures
            r@ == self.items_view(),
    {
        self.items.as_slice()
    }

    pub fn push(&mut self, context_state: ContextState)
        requires
            old(self).items_view().len() < old(self).limit_of(),
        ensures
            final(self).items_view() == old(self).items_view().push(context_state),
            final(self).limit_of() == old(self).limit_of(),
    {
        self.items.push(context_state);
    }

    pub fn reset(&mut self)
        ensures
            final(self).items_view() == Seq::<ContextState>::empty(),
            final(self).limit_of() == old(self).limit_of(),
    {
        self.items.clear();
    }
}

} // verus!
