use vstd::prelude::*;
use crate::estimators::cost::CostTracker;
use crate::estimators::decelerating::{DeceleratingEstimator, make_raw, next_prediction, prediction_of, count_of, lemma_update_ok};
use crate::history::state::recent_bits::{RecentBitsState, updated_raw};
use crate::history::window::WindowIndex;
use crate::lut::estimator::DeceleratingEstimatorLut;
use super::direction::Direction;
use super::node_child::{NodeChild, NodeChildren};

verus! {

/// The greatest number of occurrences that a context counts.
pub const MAX_OCCURRENCE_COUNT: u16 = 1000;

/// The coding costs of a context under a stationary and a non-stationary
/// model.
#[derive(Clone, Copy, Debug, PartialEq, Eq, Structural)]
pub struct CostTrackers {
    pub stationary: CostTracker,
    pub non_stationary: CostTracker,
}

/// Whether both trackers are at their starting cost.
pub open spec fn is_default_trackers(c: CostTrackers) -> bool {
    c.stationary.raw_of() == 0x8000 && c.non_stationary.raw_of() == 0x8000
}

/// The trackers at their starting cost.
pub open spec fn default_trackers_spec() -> CostTrackers {
    choose|c: CostTrackers| is_default_trackers(c)
}

/// There is one pair of trackers at their starting cost.
pub proof fn lemma_default_trackers_unique(c: CostTrackers)
    requires
        is_default_trackers(c),
    ensures
        c == default_trackers_spec(),
{
    let d = default_trackers_spec();
    assert(is_default_trackers(d));
    CostTracker::lemma_raw_injective(c.stationary, d.stationary);
    CostTracker::lemma_raw_injective(c.non_stationary, d.non_stationary);
}

impl CostTrackers {
    /// Both trackers at their starting cost.
    pub fn default_trackers() -> (r: Self)
        ensures
            is_default_trackers(r),
            r == default_trackers_spec(),
    {
        let r = CostTrackers { stationary: CostTracker::initial(), non_stationary: CostTracker::initial() };
        proof {
            lemma_default_trackers_unique(r);
        }
        r
    }

    pub fn new(stationary: CostTracker, non_stationary: CostTracker) -> (r: Self)
        ensures
            r.stationary == stationary,
            r.non_stationary == non_stationary,
    {
        CostTrackers { stationary, non_stationary }
    }
}

/// An inner node of the suffix tree: its children, the window position of
/// the last occurrence of its text, its depth in bits and what its context
/// has learned.
#[derive(Clone, Copy)]
pub struct Node {
    pub children: NodeChildren,
    pub text_start: u32,
    pub probability_estimator: DeceleratingEstimator,
    pub cost_trackers: CostTrackers,
    pub history_state: RecentBitsState,
    pub depth: u16,
    pub left_count: u16,
    pub right_count: u16,
}

/// The count after one more occurrence, up to the maximum.
/// Whether `after` is `before` with a visit of the edge in direction `d`
/// counted: the same children, start and depth, the cost trackers given,
/// the bit learnt by the history and the estimator, and the edge's count
/// one higher up to the maximum.
pub open spec fn counted_edge(
    before: Node,
    after: Node,
    d: Direction,
    trackers: CostTrackers,
    lut: DeceleratingEstimatorLut,
) -> bool {
    let count = count_of(before.estimator_of().raw_of() as int);
    &&& after.children == before.children
    &&& after.text_start == before.text_start
    &&& after.depth_of() == before.depth_of()
    &&& after.cost_trackers_of() == trackers
    &&& after.history_of().raw_of() == updated_raw(before.history_of().raw_of(), d.bit_spec())
    &&& after.estimator_of().raw_of() == make_raw(
        next_prediction(prediction_of(before.estimator_of().raw_of() as int), lut.factor(count), d.bit_spec()),
        if count < 1000 { count + 1 } else { 1000 },
    )
    &&& after.left_count_of() == (if d == Direction::Left {
        incremented_count(before.left_count_of())
    } else {
        before.left_count_of()
    })
    &&& after.right_count_of() == (if d == Direction::Right {
        incremented_count(before.right_count_of())
    } else {
        before.right_count_of()
    })
}

pub open spec fn incremented_count(count: int) -> int {
    if count + 1 < MAX_OCCURRENCE_COUNT {
        count + 1
    } else {
        MAX_OCCURRENCE_COUNT as int
    }
}

impl Node {
    pub open spec fn estimator_of(&self) -> DeceleratingEstimator {
        self.probability_estimator
    }

    pub open spec fn cost_trackers_of(&self) -> CostTrackers {
        self.cost_trackers
    }

    pub open spec fn history_of(&self) -> RecentBitsState {
        self.history_state
    }

    pub open spec fn depth_of(&self) -> int {
        self.depth as int
    }

    pub open spec fn left_count_of(&self) -> int {
        self.left_count as int
    }

    pub open spec fn right_count_of(&self) -> int {
        self.right_count as int
    }

    /// Whether both children are present.
    pub open spec fn valid(&self) -> bool {
        self.children.at(Direction::Left).valid() && self.children.at(Direction::Right).valid()
    }

    /// What a present node keeps: an estimator in range and counts of at
    /// most the maximum.
    pub open spec fn state_ok(&self) -> bool {
        &&& self.estimator_of().wf()
        &&& self.left_count_of() <= MAX_OCCURRENCE_COUNT
        &&& self.right_count_of() <= MAX_OCCURRENCE_COUNT
    }

    /// The placeholder of an empty slot.
    pub fn invalid() -> (r: Node)
        ensures
            !r.valid(),
            r.children.at(Direction::Left).value_of() == -1,
            r.children.at(Direction::Right).value_of() == -1,
            r.text_start == 0,
            r.depth_of() == 0,
    {
        Node {
            children: NodeChildren::invalid(),
            text_start: 0,
            probability_estimator: DeceleratingEstimator::invalid(),
            cost_trackers: CostTrackers::default_trackers(),
            history_state: RecentBitsState::invalid(),
            depth: 0,
            left_count: 0,
            right_count: 0,
        }
    }

    pub fn new(
        text_start: WindowIndex,
        probability_estimator: DeceleratingEstimator,
        depth: usize,
        cost_trackers: CostTrackers,
        left_count: u16,
        right_count: u16,
        history_state: RecentBitsState,
        children: NodeChildren,
    ) -> (r: Node)
        requires
            text_start.index() < 0x8000_0000,
            depth < 0x1_0000,
            history_state.raw_of() != 0,
        ensures
            r.children == children,
            r.text_start == text_start.index(),
            r.estimator_of() == probability_estimator,
            r.depth_of() == depth,
            r.cost_trackers_of() == cost_trackers,
            r.left_count_of() == left_count,
            r.right_count_of() == right_count,
            r.history_of() == history_state,
    {
        Node {
            children,
            text_start: text_start.raw() as u32,
            probability_estimator,
            cost_trackers,
            history_state,
            depth: depth as u16,
            left_count,
            right_count,
        }
    }

    pub fn is_valid(&self) -> (r: bool)
        ensures
            r == self.valid(),
    {
        self.children.get(Direction::Left).is_valid() && self.children.get(Direction::Right).is_valid()
    }

    pub fn text_start(&self) -> (r: WindowIndex)
        ensures
            r.index() == self.text_start,
    {
        WindowIndex::new(self.text_start as usize)
    }

    pub fn probability_estimator(&self) -> (r: DeceleratingEstimator)
        ensures
            r == self.estimator_of(),
    {
        self.probability_estimator
    }

    pub fn cost_trackers(&self) -> (r: CostTrackers)
        ensures
            r == self.cost_trackers_of(),
    {
        self.cost_trackers
    }

    pub fn depth(&self) -> (r: usize)
        ensures
            r == self.depth_of(),
    {
        self.depth as usize
    }

    pub fn left_count(&self) -> (r: u16)
        ensures
            r == self.left_count_of(),
    {
        self.left_count
    }

    pub fn right_count(&self) -> (r: u16)
        ensures
            r == self.right_count_of(),
    {
        self.right_count
    }

    pub fn history_state(&self) -> (r: RecentBitsState)
        ensures
            r == self.history_of(),
    {
        self.history_state
    }

    pub fn child(&self, direction: Direction) -> (r: NodeChild)
        ensures
            r == self.children.at(direction),
    {
        self.children.get(direction)
    }

    /// Counts a visit of the edge in `direction`: the edge's count, the bit
    /// history, the estimator and the cost trackers learn the bit.
    pub fn increment_edge_counters(
        &mut self,
        direction: Direction,
        new_cost_trackers: CostTrackers,
        lut: &DeceleratingEstimatorLut,
    )
        requires
            old(self).state_ok(),
            lut.wf(),
        ensures
            final(self).state_ok(),
            final(self).children == old(self).children,
            final(self).text_start == old(self).text_start,
            final(self).depth_of() == old(self).depth_of(),
            final(self).cost_trackers_of() == new_cost_trackers,
            final(self).history_of().raw_of() == updated_raw(old(self).history_of().raw_of(), direction.bit_spec()),
            final(self).estimator_of().raw_of() == make_raw(
                next_prediction(
                    prediction_of(old(self).estimator_of().raw_of() as int),
                    lut.factor(count_of(old(self).estimator_of().raw_of() as int)),
                    direction.bit_spec(),
                ),
                if count_of(old(self).estimator_of().raw_of() as int) < 1000 {
                    count_of(old(self).estimator_of().raw_of() as int) + 1
                } else {
                    1000
                },
            ),
            direction == Direction::Left ==> final(self).left_count_of() == incremented_count(old(self).left_count_of()),
            direction == Direction::Left ==> final(self).right_count_of() == old(self).right_count_of(),
            direction == Direction::Right ==> final(self).right_count_of() == incremented_count(old(self).right_count_of()),
            direction == Direction::Right ==> final(self).left_count_of() == old(self).left_count_of(),
    {
        match direction {
            Direction::Left => {
                self.left_count = if self.left_count + 1 < MAX_OCCURRENCE_COUNT {
                    self.left_count + 1
                } else {
                    MAX_OCCURRENCE_COUNT
                };
            },
            Direction::Right => {
                self.right_count = if self.right_count + 1 < MAX_OCCURRENCE_COUNT {
                    self.right_count + 1
                } else {
                    MAX_OCCURRENCE_COUNT
                };
            },
        }
        let bit = direction.to_bit();
        self.history_state = self.history_state.updated(bit);
        proof {
            lut.lemma_wf(count_of(self.probability_estimator.raw_of() as int));
            lemma_update_ok(self.probability_estimator, lut.factor(count_of(self.probability_estimator.raw_of() as int)), bit);
        }
        self.probability_estimator.update(bit, lut);
        self.cost_trackers = new_cost_trackers;
    }
}

} // verus!
