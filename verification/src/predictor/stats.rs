use vstd::prelude::*;
use crate::bit::Bit;
use crate::entropy::{FinalProbability, probability_of_bit};
use crate::estimators::decelerating::count_of;
use crate::fixed_point::{FixI32, FixI64, FixU32};
use crate::fixed_point::fix_i32;
use crate::fixed_point::fix_u32::log2_spec;
use crate::fixed_point::types::Log2Q;
use crate::history::{ContextState, CollectedContextStates};
use crate::lut::LookUpTables;
use crate::util::last_bytes::{LastBytesCache, unfinished_spec};

verus! {

/// The kinds of statistics that can be reported.
#[derive(Clone, Copy, Debug, PartialEq, Eq, Structural)]
pub enum PredictionStatisticsType {
    TotalCostUsingLuts,
    AverageContextLength,
    CostsAndOccurrencesPerContextType,
    CostsAndOccurrencesPerSymbolValue,
}

/// How many of the contexts are edges of the tree rather than nodes.
pub open spec fn edge_contexts_count(items: Seq<ContextState>) -> int
    decreases items.len(),
{
    if items.len() == 0 {
        0
    } else {
        edge_contexts_count(items.drop_last()) + if items.last() is ForNode {
            0int
        } else {
            1int
        }
    }
}

/// The class of a set of contexts: its highest order and its number of
/// edge contexts, each capped at 4.
pub open spec fn stats_index_spec(items: Seq<ContextState>) -> int {
    let max_order = items.len() - 1;
    let orders = if max_order < 4 {
        max_order
    } else {
        4
    };
    let edges = edge_contexts_count(items);
    let unary_orders = if edges < 4 {
        edges
    } else {
        4
    };
    orders * 5 + unary_orders
}

/// How often a context occurred, as its state tells.
pub open spec fn occurrences_spec(state: ContextState) -> int {
    match state {
        ContextState::ForEdge { occurrence_count, .. } => occurrence_count as int,
        ContextState::ForNode { probability_estimator, .. } => count_of(probability_estimator.raw_of() as int),
    }
}

/// The cost, in bits with 11 fractional bits, of coding a bit under a final
/// probability.
pub open spec fn bit_cost_spec(luts: LookUpTables, probability: FinalProbability, input_bit: Bit) -> int {
    -log2_spec(&luts.log2_lut_of(), probability_of_bit(probability.raw_of() as int, input_bit == Bit::One) as u32, 12)
}

/// The sum of a sequence of costs.
pub open spec fn costs_sum(costs: Seq<Log2Q>) -> int
    decreases costs.len(),
{
    if costs.len() == 0 {
        0
    } else {
        costs_sum(costs.drop_last()) + costs.last().raw_of()
    }
}

/// The sum of a sequence of counts.
pub open spec fn counts_sum(counts: Seq<usize>) -> int
    decreases counts.len(),
{
    if counts.len() == 0 {
        0
    } else {
        counts_sum(counts.drop_last()) + counts.last()
    }
}

/// Replacing one cost changes the sum by the difference.
pub proof fn lemma_costs_sum_update(costs: Seq<Log2Q>, i: int, cost: Log2Q)
    requires
        0 <= i < costs.len(),
    ensures
        costs_sum(costs.update(i, cost)) == costs_sum(costs) - costs[i].raw_of() + cost.raw_of(),
    decreases costs.len(),
{
    let updated = costs.update(i, cost);
    if i < costs.len() - 1 {
        assert(updated.drop_last() =~= costs.drop_last().update(i, cost));
        lemma_costs_sum_update(costs.drop_last(), i, cost);
    } else {
        assert(updated.drop_last() =~= costs.drop_last());
    }
}

/// Replacing one count changes the sum by the difference.
pub proof fn lemma_counts_sum_update(counts: Seq<usize>, i: int, count: usize)
    requires
        0 <= i < counts.len(),
    ensures
        counts_sum(counts.update(i, count)) == counts_sum(counts) - counts[i] + count,
    decreases counts.len(),
{
    let updated = counts.update(i, count);
    if i < counts.len() - 1 {
        assert(updated.drop_last() =~= counts.drop_last().update(i, count));
        lemma_counts_sum_update(counts.drop_last(), i, count);
    } else {
        assert(updated.drop_last() =~= counts.drop_last());
    }
}

/// Costs that are all zero sum to zero.
proof fn lemma_zero_costs_sum(costs: Seq<Log2Q>)
    requires
        forall|i: int| 0 <= i < costs.len() ==> (#[trigger] costs[i]).raw_of() == 0,
    ensures
        costs_sum(costs) == 0,
    decreases costs.len(),
{
    if costs.len() > 0 {
        lemma_zero_costs_sum(costs.drop_last());
    }
}

/// Counts that are all zero sum to zero.
proof fn lemma_zero_counts_sum(counts: Seq<usize>)
    requires
        forall|i: int| 0 <= i < counts.len() ==> counts[i] == 0,
    ensures
        counts_sum(counts) == 0,
    decreases counts.len(),
{
    if counts.len() > 0 {
        lemma_zero_counts_sum(counts.drop_last());
    }
}

/// Counts and costs of the coded bits: in all, per byte value and per class
/// of contexts.
pub struct PredictionStatistics<'a> {
    luts: &'a LookUpTables,
    total_bytes: u64,
    total_contexts_count: u64,
    per_order_counts: Vec<usize>,
    per_order_costs: Vec<Log2Q>,
    per_symbol_counts: Vec<usize>,
    per_symbol_costs: Vec<Log2Q>,
    current_byte_cost: Log2Q,
    total_cost: Log2Q,
    per_order_occurrences_count: Vec<u64>,
}

impl<'a> PredictionStatistics<'a> {
    pub closed spec fn luts_of(&self) -> LookUpTables {
        *self.luts
    }

    /// The number of bytes started.
    pub closed spec fn total_bytes_of(&self) -> u64 {
        self.total_bytes
    }

    /// The number of contexts over all coded bits.
    pub closed spec fn total_contexts_count_of(&self) -> u64 {
        self.total_contexts_count
    }

    /// The number of coded bits, by class of contexts.
    pub closed spec fn per_order_counts_of(&self) -> Seq<usize> {
        self.per_order_counts@
    }

    /// The cost of the coded bits, by class of contexts.
    pub closed spec fn per_order_costs_of(&self) -> Seq<Log2Q> {
        self.per_order_costs@
    }

    /// The number of coded bytes, by value.
    pub closed spec fn per_symbol_counts_of(&self) -> Seq<usize> {
        self.per_symbol_counts@
    }

    /// The cost of the coded bytes, by value.
    pub closed spec fn per_symbol_costs_of(&self) -> Seq<Log2Q> {
        self.per_symbol_costs@
    }

    /// The cost of the bits of the current byte so far.
    pub closed spec fn current_byte_cost_of(&self) -> Log2Q {
        self.current_byte_cost
    }

    /// The cost of all coded bits.
    pub closed spec fn total_cost_of(&self) -> Log2Q {
        self.total_cost
    }

    /// The occurrences of the longest context over the coded bits, by class
    /// of contexts.
    pub closed spec fn per_order_occurrences_of(&self) -> Seq<u64> {
        self.per_order_occurrences_count@
    }

    /// The tables add up: the total cost is the sum of the costs by class
    /// of contexts, and the sum of the costs by byte value and of the
    /// current byte; every finished byte is counted under its value. Before
    /// the first byte nothing is counted and the current byte's cost is at
    /// its starting maximum.
    pub open spec fn totals_add_up(&self) -> bool {
        &&& self.total_cost_of().raw_of() == costs_sum(self.per_order_costs_of())
        &&& self.total_bytes_of() == 0 ==> {
            &&& self.current_byte_cost_of().raw_of() == i64::MAX
            &&& counts_sum(self.per_symbol_counts_of()) == 0
            &&& self.total_cost_of().raw_of() == costs_sum(self.per_symbol_costs_of())
        }
        &&& self.total_bytes_of() > 0 ==> {
            &&& self.total_cost_of().raw_of() == costs_sum(self.per_symbol_costs_of())
                + self.current_byte_cost_of().raw_of()
            &&& counts_sum(self.per_symbol_counts_of()) == self.total_bytes_of() - 1
        }
    }

    /// Valid tables; 25 classes of contexts and 256 byte values.
    pub closed spec fn wf(&self) -> bool {
        &&& self.luts.wf()
        &&& self.per_order_counts@.len() == 25
        &&& self.per_order_costs@.len() == 25
        &&& self.per_symbol_counts@.len() == 256
        &&& self.per_symbol_costs@.len() == 256
    }

    /// Empty statistics for contexts of orders up to `max_order`.
    pub fn new(max_order: usize, luts: &'a LookUpTables) -> (r: Self)
        requires
            luts.wf(),
            5 * (max_order + 1) <= usize::MAX,
        ensures
            r.wf(),
            r.luts_of() == *luts,
            r.total_bytes_of() == 0,
            r.total_contexts_count_of() == 0,
            r.per_order_counts_of() == Seq::new(25, |i: int| 0usize),
            forall|i: int| 0 <= i < 25 ==> (#[trigger] r.per_order_costs_of()[i]).raw_of() == 0,
            r.per_symbol_counts_of() == Seq::new(256, |i: int| 0usize),
            forall|i: int| 0 <= i < 256 ==> (#[trigger] r.per_symbol_costs_of()[i]).raw_of() == 0,
            r.current_byte_cost_of().raw_of() == i64::MAX,
            r.total_cost_of().raw_of() == 0,
            r.per_order_occurrences_of() == Seq::new((5 * (max_order + 1)) as nat, |i: int| 0u64),
            r.totals_add_up(),
    {
        let per_order_counts = zeros_usize(25);
        let per_order_costs = zero_costs(25);
        let per_symbol_counts = zeros_usize(256);
        let per_symbol_costs = zero_costs(256);
        let occurrences_len = 5 * (max_order + 1);
        let mut per_order_occurrences_count: Vec<u64> = Vec::new();
        let mut i: usize = 0;
        while i < occurrences_len
            invariant
                i <= occurrences_len,
                per_order_occurrences_count@ == Seq::new(i as nat, |j: int| 0u64),
            decreases occurrences_len - i,
        {
            per_order_occurrences_count.push(0);
            i += 1;
        }
        proof {
            lemma_zero_costs_sum(per_order_costs@);
            lemma_zero_costs_sum(per_symbol_costs@);
            lemma_zero_counts_sum(per_symbol_counts@);
        }
        PredictionStatistics {
            luts,
            total_bytes: 0,
            total_contexts_count: 0,
            per_order_counts,
            per_order_costs,
            per_symbol_counts,
            per_symbol_costs,
            current_byte_cost: Log2Q::new_unchecked(i64::MAX),
            total_cost: Log2Q::new_unchecked(0),
            per_order_occurrences_count,
        }
    }

    /// Adds the cost of the byte just finished, if any, to its value, and
    /// starts counting the next one.
    pub fn start_new_byte(&mut self, last_bytes: &LastBytesCache)
        requires
            old(self).wf(),
            last_bytes.wf(),
            last_bytes.bit_index_of() >= 0,
            unfinished_spec(last_bytes.cache(), last_bytes.bit_index_of()) == 1,
            old(self).total_bytes_of() < u64::MAX,
            old(self).total_bytes_of() > 0 ==> {
                let last_byte = (last_bytes.cache() >> 8u32) as u8 as int;
                &&& old(self).per_symbol_counts_of()[last_byte] < usize::MAX
                &&& i64::MIN <= old(self).per_symbol_costs_of()[last_byte].raw_of()
                    + old(self).current_byte_cost_of().raw_of() <= i64::MAX
            },
        ensures
            stats_byte_started(*old(self), *final(self), *last_bytes),

    {
        let ghost before = *self;
        if self.total_bytes > 0 {
            let last_byte = last_bytes.previous_byte_1() as usize;
            self.per_symbol_counts.set(last_byte, self.per_symbol_counts[last_byte] + 1);
            let cost = self.per_symbol_costs[last_byte].add(&self.current_byte_cost);
            self.per_symbol_costs.set(last_byte, cost);
        }
        self.current_byte_cost = Log2Q::new_unchecked(0);
        self.total_bytes = self.total_bytes + 1;
        proof {
            if before.totals_add_up() {
                if before.total_bytes > 0 {
                    let last_byte = (last_bytes.cache() >> 8u32) as u8 as int;
                    assert(self.per_symbol_costs@ =~= before.per_symbol_costs@.update(
                        last_byte,
                        self.per_symbol_costs@[last_byte],
                    ));
                    lemma_costs_sum_update(before.per_symbol_costs@, last_byte, self.per_symbol_costs@[last_byte]);
                    lemma_counts_sum_update(before.per_symbol_counts@, last_byte, self.per_symbol_counts@[last_byte]);
                }
            }
        }
    }

    /// Counts a coded bit with its contexts and the final probability it was
    /// coded under: its cost goes to the byte, to the total and to the class
    /// of its contexts, which also counts the occurrences of the longest one.
    pub fn on_next_bit(
        &mut self,
        input_bit: Bit,
        contexts: &CollectedContextStates,
        final_probability: FinalProbability,
    )
        requires
            old(self).wf(),
            FinalProbability::raw_ok(final_probability.raw_of()),
            old(self).total_contexts_count_of() + contexts.items_view().len() <= u64::MAX,
            contexts.items_view().len() > 0 ==> {
                let index = stats_index_spec(contexts.items_view());
                let cost = bit_cost_spec(old(self).luts_of(), final_probability, input_bit);
                &&& index < old(self).per_order_occurrences_of().len()
                &&& old(self).per_order_counts_of()[index] < usize::MAX
                &&& old(self).current_byte_cost_of().raw_of() + cost <= i64::MAX
                &&& old(self).total_cost_of().raw_of() + cost <= i64::MAX
                &&& old(self).per_order_costs_of()[index].raw_of() + cost <= i64::MAX
                &&& old(self).per_order_occurrences_of()[index] + occurrences_spec(contexts.items_view().last())
                    <= u64::MAX
            },
        ensures
            stats_bit_counted(*old(self), *final(self), input_bit, *contexts, final_probability),

    {
        let ghost before = *self;
        let items = contexts.items();
        let contexts_count = items.len();
        self.total_contexts_count = self.total_contexts_count + contexts_count as u64;
        if contexts_count > 0 {
            let max_order = contexts_count - 1;
            let orders = if max_order < 4 {
                max_order
            } else {
                4
            };
            let mut edges: usize = 0;
            let mut i: usize = 0;
            while i < contexts_count
                invariant
                    i <= contexts_count,
                    contexts_count == items@.len(),
                    edges == edge_contexts_count(items@.take(i as int)),
                    edges <= i,
                decreases contexts_count - i,
            {
                proof {
                    assert(items@.take(i as int + 1).drop_last() =~= items@.take(i as int));
                }
                if !items[i].is_for_node() {
                    edges = edges + 1;
                }
                i += 1;
            }
            proof {
                assert(items@.take(contexts_count as int) =~= items@);
            }
            let unary_orders = if edges < 4 {
                edges
            } else {
                4
            };
            let stats_index = orders * 5 + unary_orders;
            self.per_order_counts.set(stats_index, self.per_order_counts[stats_index] + 1);
            proof {
                self.luts.lemma_wf();
                vstd::arithmetic::power2::lemma2_to64();
            }
            let bit_cost_d = final_probability.estimate_cost(input_bit == Bit::One, self.luts.log2_lut());
            proof {
                assert(vstd::arithmetic::power2::pow2(0nat) == 1);
                assert(bit_cost_d.raw_of() * vstd::arithmetic::power2::pow2(0nat) == bit_cost_d.raw_of());
                assert(0 < bit_cost_d.raw_of() <= 24576);
            }
            let bit_cost: Log2Q = fix_i32::to_fix_i64(&bit_cost_d);
            self.current_byte_cost = self.current_byte_cost.add(&bit_cost);
            self.total_cost = self.total_cost.add(&bit_cost);
            let order_cost = self.per_order_costs[stats_index].add(&bit_cost);
            self.per_order_costs.set(stats_index, order_cost);
            let occurrences = items[max_order].occurrence_count() as u64;
            self.per_order_occurrences_count.set(
                stats_index,
                self.per_order_occurrences_count[stats_index] + occurrences,
            );
            proof {
                if before.totals_add_up() {
                    assert(self.per_order_costs@ =~= before.per_order_costs@.update(stats_index as int, order_cost));
                    lemma_costs_sum_update(before.per_order_costs@, stats_index as int, order_cost);
                }
            }
        }
    }

    /// The number of bytes started.
    pub fn total_bytes(&self) -> (r: u64)
        ensures
            r == self.total_bytes_of(),
    {
        self.total_bytes
    }

    /// The number of contexts over all coded bits.
    pub fn total_contexts_count(&self) -> (r: u64)
        ensures
            r == self.total_contexts_count_of(),
    {
        self.total_contexts_count
    }

    /// The cost of all coded bits.
    pub fn total_cost(&self) -> (r: Log2Q)
        ensures
            r == self.total_cost_of(),
    {
        self.total_cost
    }

    /// The number of coded bits, by class of contexts.
    pub fn per_order_counts(&self) -> (r: &[usize])
        ensures
            r@ == self.per_order_counts_of(),
    {
        self.per_order_counts.as_slice()
    }

    /// The cost of the coded bits, by class of contexts.
    pub fn per_order_costs(&self) -> (r: &[Log2Q])
        ensures
            r@ == self.per_order_costs_of(),
    {
        self.per_order_costs.as_slice()
    }

    /// The occurrences of the longest context, by class of contexts.
    pub fn per_order_occurrences(&self) -> (r: &[u64])
        ensures
            r@ == self.per_order_occurrences_of(),
    {
        self.per_order_occurrences_count.as_slice()
    }

    /// The number of coded bytes, by value.
    pub fn per_symbol_counts(&self) -> (r: &[usize])
        ensures
            r@ == self.per_symbol_counts_of(),
    {
        self.per_symbol_counts.as_slice()
    }

    /// The cost of the coded bytes, by value.
    pub fn per_symbol_costs(&self) -> (r: &[Log2Q])
        ensures
            r@ == self.per_symbol_costs_of(),
    {
        self.per_symbol_costs.as_slice()
    }
}

/// `n` zero counts.
fn zeros_usize(n: usize) -> (r: Vec<usize>)
    ensures
        r@ == Seq::new(n as nat, |i: int| 0usize),
{
    let mut v: Vec<usize> = Vec::new();
    let mut i: usize = 0;
    while i < n
        invariant
            i <= n,
            v@ == Seq::new(i as nat, |j: int| 0usize),
        decreases n - i,
    {
        v.push(0);
        i += 1;
    }
    v
}

/// `n` zero costs.
fn zero_costs(n: usize) -> (r: Vec<Log2Q>)
    ensures
        r@.len() == n,
        forall|i: int| 0 <= i < n ==> (#[trigger] r@[i]).raw_of() == 0,
{
    let mut v: Vec<Log2Q> = Vec::new();
    let mut i: usize = 0;
    while i < n
        invariant
            i <= n,
            v@.len() == i,
            forall|j: int| 0 <= j < i ==> (#[trigger] v@[j]).raw_of() == 0,
        decreases n - i,
    {
        v.push(Log2Q::new_unchecked(0));
        i += 1;
    }
    v
}

/// What starting a byte does to the statistics, as
/// `PredictionStatistics::start_new_byte` states it.
pub open spec fn stats_byte_started<'a>(st0: PredictionStatistics<'a>, st1: PredictionStatistics<'a>, last_bytes: LastBytesCache) -> bool {
    &&& st1.wf()
    &&& st1.luts_of() == st0.luts_of()
    &&& st1.total_bytes_of() == st0.total_bytes_of() + 1
    &&& st1.total_contexts_count_of() == st0.total_contexts_count_of()
    &&& st1.per_order_counts_of() == st0.per_order_counts_of()
    &&& st1.per_order_costs_of() == st0.per_order_costs_of()
    &&& st1.per_order_occurrences_of() == st0.per_order_occurrences_of()
    &&& st1.total_cost_of() == st0.total_cost_of()
    &&& st1.current_byte_cost_of().raw_of() == 0
    &&& st0.total_bytes_of() == 0 ==> st1.per_symbol_counts_of() == st0.per_symbol_counts_of()
    &&& st0.total_bytes_of() == 0 ==> st1.per_symbol_costs_of() == st0.per_symbol_costs_of()
    &&& st0.total_bytes_of() > 0 ==> {
            let last_byte = (last_bytes.cache() >> 8u32) as u8 as int;
            &&& st1.per_symbol_counts_of() == st0.per_symbol_counts_of().update(
                last_byte,
                (st0.per_symbol_counts_of()[last_byte] + 1) as usize,
            )
            &&& st1.per_symbol_costs_of().len() == 256
            &&& forall|i: int| 0 <= i < 256 && i != last_byte ==> #[trigger] st1.per_symbol_costs_of()[i]
                == st0.per_symbol_costs_of()[i]
            &&& st1.per_symbol_costs_of()[last_byte].raw_of() == st0.per_symbol_costs_of()[last_byte].raw_of()
                + st0.current_byte_cost_of().raw_of()
        }
    &&& st0.totals_add_up() ==> st1.totals_add_up()
}

/// What counting a coded bit does to the statistics, as
/// `PredictionStatistics::on_next_bit` states it.
pub open spec fn stats_bit_counted<'a>(st0: PredictionStatistics<'a>, st1: PredictionStatistics<'a>, input_bit: Bit, contexts: CollectedContextStates, final_probability: FinalProbability) -> bool {
    &&& st1.wf()
    &&& st1.luts_of() == st0.luts_of()
    &&& st1.total_bytes_of() == st0.total_bytes_of()
    &&& st1.total_contexts_count_of() == st0.total_contexts_count_of() + contexts.items_view().len()
    &&& st1.per_symbol_counts_of() == st0.per_symbol_counts_of()
    &&& st1.per_symbol_costs_of() == st0.per_symbol_costs_of()
    &&& contexts.items_view().len() == 0 ==> {
            &&& st1.per_order_counts_of() == st0.per_order_counts_of()
            &&& st1.per_order_costs_of() == st0.per_order_costs_of()
            &&& st1.per_order_occurrences_of() == st0.per_order_occurrences_of()
            &&& st1.current_byte_cost_of() == st0.current_byte_cost_of()
            &&& st1.total_cost_of() == st0.total_cost_of()
        }
    &&& contexts.items_view().len() > 0 ==> {
            let index = stats_index_spec(contexts.items_view());
            let cost = bit_cost_spec(st0.luts_of(), final_probability, input_bit);
            &&& st1.per_order_counts_of() == st0.per_order_counts_of().update(
                index,
                (st0.per_order_counts_of()[index] + 1) as usize,
            )
            &&& st1.per_order_costs_of().len() == 25
            &&& forall|i: int| 0 <= i < 25 && i != index ==> #[trigger] st1.per_order_costs_of()[i]
                == st0.per_order_costs_of()[i]
            &&& st1.per_order_costs_of()[index].raw_of() == st0.per_order_costs_of()[index].raw_of()
                + cost
            &&& st1.current_byte_cost_of().raw_of() == st0.current_byte_cost_of().raw_of() + cost
            &&& st1.total_cost_of().raw_of() == st0.total_cost_of().raw_of() + cost
            &&& st1.per_order_occurrences_of() == st0.per_order_occurrences_of().update(
                index,
                (st0.per_order_occurrences_of()[index] + occurrences_spec(contexts.items_view().last()))
                    as u64,
            )
        }
    &&& st0.totals_add_up() ==> st1.totals_add_up()
}

} // verus!
