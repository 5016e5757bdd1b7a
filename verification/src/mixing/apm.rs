use vstd::prelude::*;
use vstd::arithmetic::power2::{pow2, lemma2_to64, lemma2_to64_rest};
use crate::bit::Bit;
use crate::fixed_point::{FixI32, FixU32, lemma_scaled_down_unsigned_error};
use crate::fixed_point::fix_u32;
use crate::fixed_point::fix_u32::mul_spec;
use crate::fixed_point::types::{FractOnlyU32, StretchedProbD, interval_index_spec};
use crate::lut::apm::{ApmWeightingLut, stop_stretch, squashed_stop_spec};
use crate::lut::squash::{SquashLut, squash_table_ok};

verus! {

/// The interval stops of neighbouring mappings are shared: each context
/// maps the stops themselves.
pub const SHARED_ENDPOINTS: bool = true;

/// The number of stops of one context's mapping.
pub open spec fn mapping_size(bits: nat) -> int {
    24 * pow2(bits) as int + 1
}

/// The input probability limited to the range of the stops.
pub open spec fn clamped_input(stops: Seq<FractOnlyU32>, input_sq: int) -> int {
    let lo = stops[0].raw_of() as int;
    let hi = stops[stops.len() - 1].raw_of() as int;
    let capped = if input_sq < hi {
        input_sq
    } else {
        hi
    };
    if capped > lo {
        capped
    } else {
        lo
    }
}

/// The interval of the input: the one that its stretched value falls in,
/// moved by one when the squashed value lies just outside it.
pub open spec fn refine_index(stops: Seq<FractOnlyU32>, input_sq: int, input_st: int, bits: nat) -> int {
    let c = clamped_input(stops, input_sq);
    let i0 = interval_index_spec(input_st, bits);
    if c < stops[i0].raw_of() {
        i0 - 1
    } else if c > stops[i0 + 1].raw_of() {
        i0 + 1
    } else {
        i0
    }
}

/// The weight of the right stop: the input's offset in its interval,
/// shifted and stretched by the interval's extra factor.
pub open spec fn weight_right_spec(lut: ApmWeightingLut, input_sq: int, index: int) -> int {
    let c = clamped_input(lut.stops(), input_sq);
    let base = (c - lut.stops()[index].raw_of()) * pow2(lut.shifts()[index] as nat);
    base + mul_spec(base * lut.extra_factors()[index].raw_of(), 62, 31)
}

/// The weight of the left stop: what the right one leaves of one.
pub open spec fn weight_left_spec(weight_right: int) -> int {
    if weight_right == 0 {
        0x8000_0000
    } else {
        0x8000_0000 - weight_right
    }
}

/// Whether the input falls in the interval found for it, and the weights
/// and the interpolated result are fractions.
pub open spec fn refine_ok(lut: ApmWeightingLut, mappings: Seq<FractOnlyU32>, start: int, input_sq: int, input_st: int) -> bool {
    let stops = lut.stops();
    let c = clamped_input(stops, input_sq);
    let index = refine_index(stops, input_sq, input_st, lut.bits() as nat);
    let wr = weight_right_spec(lut, input_sq, index);
    let wl = weight_left_spec(wr);
    &&& 0 <= index < stops.len() - 1
    &&& stops[index].raw_of() <= c <= stops[index + 1].raw_of()
    &&& (c - stops[index].raw_of()) * pow2(lut.shifts()[index] as nat) < 0x8000_0000
    &&& wr < 0x8000_0000
    &&& mul_spec(mappings[start + index].raw_of() * wl, 62, 31) + mul_spec(mappings[start + index + 1].raw_of() * wr, 62, 31)
        < 0x8000_0000
}

/// The refined probability: the mapped values of the interval's two stops,
/// weighed by the input's position between them.
pub open spec fn refine_value(lut: ApmWeightingLut, mappings: Seq<FractOnlyU32>, start: int, input_sq: int, input_st: int) -> int {
    let index = refine_index(lut.stops(), input_sq, input_st, lut.bits() as nat);
    let wr = weight_right_spec(lut, input_sq, index);
    let wl = weight_left_spec(wr);
    mul_spec(mappings[start + index].raw_of() * wl, 62, 31) + mul_spec(mappings[start + index + 1].raw_of() * wr, 62, 31)
}

/// A mapped value moved towards the bit by `weight` times its distance
/// scaled down by `2^log_rate`.
pub open spec fn updated_entry(entry: int, bit: Bit, weight: int, log_rate: int) -> int {
    match bit {
        Bit::Zero => entry + mul_spec(weight * ((0x8000_0000 - entry) / pow2(log_rate as nat) as int), 62, 31),
        Bit::One => entry - mul_spec(weight * (entry / pow2(log_rate as nat) as int), 62, 31),
    }
}

/// A new map: valid, no refinement pending, and every context mapping each
/// stop to the squashed stretched value of that stop.
pub open spec fn apm_initial(m: AdaptiveProbabilityMap, contexts: int, bits: nat, table: Seq<FractOnlyU32>) -> bool {
    &&& m.wf()
    &&& m.bits() == bits
    &&& m.contexts() == contexts
    &&& m.saved_index() == -1
    &&& forall|c: int, i: int| 0 <= c < contexts && 0 <= i < mapping_size(bits)
        ==> #[trigger] m.mappings_view()[c * mapping_size(bits) + i].raw_of()
        == squashed_stop_spec(table, i, mapping_size(bits), bits)
}

/// The map after a successful refinement: its mappings kept, the interval
/// of the input and the weight of its left stop saved for the update.
pub open spec fn apm_refined(
    before: AdaptiveProbabilityMap,
    after: AdaptiveProbabilityMap,
    lut: ApmWeightingLut,
    input_sq: int,
    input_st: int,
) -> bool {
    let index = refine_index(lut.stops(), input_sq, input_st, lut.bits() as nat);
    &&& after.wf()
    &&& after.mappings_view() == before.mappings_view()
    &&& after.bits() == before.bits()
    &&& after.contexts() == before.contexts()
    &&& after.saved_index() == index
    &&& after.saved_weight() == weight_left_spec(weight_right_spec(lut, input_sq, index))
}

/// The map after an update in a context: valid, no refinement pending, and
/// only the two stops of the last refinement moved towards the bit, each by
/// its weight (one half each when the weight is fixed) and its rate.
pub open spec fn apm_updated(
    before: AdaptiveProbabilityMap,
    after: AdaptiveProbabilityMap,
    context: int,
    input_bit: Bit,
    left_log_rate: int,
    right_log_rate: int,
    fixed_weight: bool,
) -> bool {
    let left = context * mapping_size(before.bits() as nat) + before.saved_index();
    let wl = if fixed_weight {
        0x4000_0000
    } else {
        before.saved_weight()
    };
    let m = before.mappings_view();
    let n = after.mappings_view();
    &&& after.wf()
    &&& after.saved_index() == -1
    &&& after.bits() == before.bits()
    &&& after.contexts() == before.contexts()
    &&& n.len() == m.len()
    &&& forall|j: int| 0 <= j < m.len() && j != left && j != left + 1 ==> #[trigger] n[j] == m[j]
    &&& n[left].raw_of() == updated_entry(m[left].raw_of() as int, input_bit, wl, left_log_rate)
    &&& n[left + 1].raw_of() == updated_entry(m[left + 1].raw_of() as int, input_bit, 0x8000_0000 - wl, right_log_rate)
}

/// A refinement followed by an update of the same map in the same context
/// moves the two stops around the refined input towards the bit: the left
/// stop by the left weight of the refinement's interpolation (the larger,
/// the nearer the input lies to it) and the right stop by the rest of one;
/// every other mapped value stays.
pub proof fn lemma_update_follows_refinement(
    m0: AdaptiveProbabilityMap,
    m1: AdaptiveProbabilityMap,
    m2: AdaptiveProbabilityMap,
    lut: ApmWeightingLut,
    input_sq: int,
    input_st: int,
    context: int,
    input_bit: Bit,
    left_log_rate: int,
    right_log_rate: int,
)
    requires
        apm_refined(m0, m1, lut, input_sq, input_st),
        apm_updated(m1, m2, context, input_bit, left_log_rate, right_log_rate, false),
    ensures
        ({
            let index = refine_index(lut.stops(), input_sq, input_st, lut.bits() as nat);
            let left = context * mapping_size(m0.bits() as nat) + index;
            let weight_left = weight_left_spec(weight_right_spec(lut, input_sq, index));
            let m = m0.mappings_view();
            let n = m2.mappings_view();
            &&& n.len() == m.len()
            &&& n[left].raw_of() == updated_entry(m[left].raw_of() as int, input_bit, weight_left, left_log_rate)
            &&& n[left + 1].raw_of() == updated_entry(
                m[left + 1].raw_of() as int,
                input_bit,
                0x8000_0000 - weight_left,
                right_log_rate,
            )
            &&& forall|j: int| 0 <= j < m.len() && j != left && j != left + 1 ==> #[trigger] n[j] == m[j]
        }),
{
}

/// The nearer the input lies to the left stop of its interval, the more
/// weight that stop gets: moving the input right within the interval never
/// raises the left weight.
pub proof fn lemma_left_weight_falls_with_input(lut: ApmWeightingLut, sq1: int, sq2: int, index: int)
    requires
        lut.wf(),
        0 <= index < lut.stops().len() - 1,
        lut.stops()[index].raw_of() <= clamped_input(lut.stops(), sq1),
        sq1 <= sq2,
    ensures
        weight_left_spec(weight_right_spec(lut, sq2, index)) <= weight_left_spec(weight_right_spec(lut, sq1, index)),
{
    let stops = lut.stops();
    let s = stops[index].raw_of() as int;
    let c1 = clamped_input(stops, sq1);
    let c2 = clamped_input(stops, sq2);
    assert(c1 <= c2);
    let p = pow2(lut.shifts()[index] as nat) as int;
    vstd::arithmetic::power2::lemma_pow2_pos(lut.shifts()[index] as nat);
    let b1 = (c1 - s) * p;
    let b2 = (c2 - s) * p;
    assert(0 <= b1 <= b2) by (nonlinear_arith)
        requires 0 <= c1 - s <= c2 - s, p > 0, b1 == (c1 - s) * p, b2 == (c2 - s) * p;
    let e = lut.extra_factors()[index].raw_of() as int;
    assert(0 <= b1 * e <= b2 * e) by (nonlinear_arith)
        requires 0 <= b1 <= b2, e >= 0;
    lemma2_to64();
    let h = pow2(30) as int;
    let q = pow2(31) as int;
    let m = u64::MAX as int;
    let a1 = if b1 * e + h > m { m } else { b1 * e + h };
    let a2 = if b2 * e + h > m { m } else { b2 * e + h };
    assert(a1 <= a2);
    vstd::arithmetic::div_mod::lemma_div_is_ordered(a1, a2, q);
    assert(mul_spec(b1 * e, 62, 31) <= mul_spec(b2 * e, 62, 31));
}

/// Updating a mapped value moves it towards the coded bit: up after a zero,
/// down after a one, whatever the weight and the rate.
pub proof fn lemma_updated_entry_moves_towards_bit(entry: int, bit: Bit, weight: int, log_rate: int)
    requires
        0 <= entry <= 0x8000_0000,
        0 <= weight <= 0x8000_0000,
        0 <= log_rate,
    ensures
        bit == Bit::Zero ==> entry <= updated_entry(entry, bit, weight, log_rate),
        bit == Bit::One ==> updated_entry(entry, bit, weight, log_rate) <= entry,
{
    vstd::arithmetic::power2::lemma_pow2_pos(log_rate as nat);
    let d = pow2(log_rate as nat) as int;
    let up = (0x8000_0000 - entry) / d;
    let down = entry / d;
    assert(up >= 0 && down >= 0) by (nonlinear_arith)
        requires 0 <= entry <= 0x8000_0000, d > 0, up == (0x8000_0000 - entry) / d, down == entry / d;
    assert(weight * up >= 0 && weight * down >= 0) by (nonlinear_arith)
        requires weight >= 0, up >= 0, down >= 0;
    lemma2_to64();
    let q = pow2(31) as int;
    let m = u64::MAX as int;
    let h = pow2(30) as int;
    let a = if weight * up + h > m { m } else { weight * up + h };
    let b = if weight * down + h > m { m } else { weight * down + h };
    assert(a / q >= 0 && b / q >= 0) by (nonlinear_arith)
        requires a >= 0, b >= 0, q > 0;
}

/// An input that lies on the left stop of its interval is refined to that
/// stop's mapped value: the left stop gets all the weight and the right
/// none.
pub proof fn lemma_refine_on_left_stop(lut: ApmWeightingLut, mappings: Seq<FractOnlyU32>, start: int, input_sq: int, input_st: int)
    requires
        ({
            let index = refine_index(lut.stops(), input_sq, input_st, lut.bits() as nat);
            &&& clamped_input(lut.stops(), input_sq) == lut.stops()[index].raw_of()
            &&& mappings[start + index].raw_of() < 0x8000_0000
        }),
    ensures
        ({
            let index = refine_index(lut.stops(), input_sq, input_st, lut.bits() as nat);
            &&& weight_right_spec(lut, input_sq, index) == 0
            &&& weight_left_spec(weight_right_spec(lut, input_sq, index)) == 0x8000_0000
            &&& refine_value(lut, mappings, start, input_sq, input_st) == mappings[start + index].raw_of()
        }),
{
    lemma2_to64();
    lemma2_to64_rest();
    let index = refine_index(lut.stops(), input_sq, input_st, lut.bits() as nat);
    let v = mappings[start + index].raw_of() as int;
    let w = mappings[start + index + 1].raw_of() as int;
    assert(weight_right_spec(lut, input_sq, index) == 0) by (nonlinear_arith)
        requires
            weight_right_spec(lut, input_sq, index) == 0 * pow2(lut.shifts()[index] as nat) + mul_spec(
                0 * pow2(lut.shifts()[index] as nat) * lut.extra_factors()[index].raw_of(),
                62,
                31,
            ),
            mul_spec(0, 62, 31) == 0;
    assert(v * 0x8000_0000 + 0x4000_0000 <= u64::MAX) by (nonlinear_arith)
        requires 0 <= v < 0x8000_0000;
    assert((v * 0x8000_0000 + 0x4000_0000) / 0x8000_0000 == v) by (nonlinear_arith)
        requires 0 <= v;
    assert(w * 0 == 0);
}

/// An adaptive probability map: for each context, a mapping from the
/// interval stops of the stretched input to refined probabilities,
/// interpolated between the two stops around the input and updated
/// towards the coded bit.
pub struct AdaptiveProbabilityMap {
    mappings: Vec<FractOnlyU32>,
    stretched_scale_down_bits: u8,
    contexts_number: usize,
    saved_left_context_index: i32,
    saved_left_weight: FractOnlyU32,
}

impl AdaptiveProbabilityMap {
    pub closed spec fn mappings_view(&self) -> Seq<FractOnlyU32> {
        self.mappings@
    }

    pub closed spec fn bits(&self) -> u8 {
        self.stretched_scale_down_bits
    }

    pub closed spec fn contexts(&self) -> int {
        self.contexts_number as int
    }

    /// The interval of the last refinement, or -1 after an update.
    pub closed spec fn saved_index(&self) -> int {
        self.saved_left_context_index as int
    }

    pub closed spec fn saved_weight(&self) -> int {
        self.saved_left_weight.raw_of() as int
    }

    /// One mapping per context, values that are fractions, and a saved
    /// interval and weight that fit a mapping.
    pub open spec fn wf(&self) -> bool {
        &&& self.bits() <= 2
        &&& self.mappings_view().len() == self.contexts() * mapping_size(self.bits() as nat)
        &&& forall|i: int| 0 <= i < self.mappings_view().len() ==> 1 <= (#[trigger] self.mappings_view()[i]).raw_of() < 0x8000_0000
        &&& -1 <= self.saved_index() < mapping_size(self.bits() as nat) - 1
        &&& self.saved_index() >= 0 ==> 1 <= self.saved_weight() <= 0x8000_0000
    }

    /// A map for `contexts_number` contexts whose stops are `2^bits` apart
    /// in stretched values; every context starts with the identity, each
    /// stop mapped to its own squashed value.
    pub fn new(contexts_number: usize, stretched_scale_down_bits: u8, squash_lut: &SquashLut) -> (r: Self)
        requires
            stretched_scale_down_bits <= 2,
            squash_table_ok(squash_lut.table()),
            contexts_number * 97 <= usize::MAX,
        ensures
            apm_initial(r, contexts_number as int, stretched_scale_down_bits as nat, squash_lut.table()),
    {
        proof {
            lemma2_to64();
        }
        let single_mapping_size = StretchedProbD::interval_stops_count(stretched_scale_down_bits) as usize;
        let ghost size = mapping_size(stretched_scale_down_bits as nat);
        let ghost bits = stretched_scale_down_bits as nat;
        let mut mappings: Vec<FractOnlyU32> = Vec::new();
        if contexts_number > 0 {
            let offset = (single_mapping_size / 2) as i64;
            let mut interval_stop: usize = 0;
            while interval_stop < single_mapping_size
                invariant
                    interval_stop <= single_mapping_size,
                    single_mapping_size == size,
                    size <= 97,
                    offset == single_mapping_size / 2,
                    stretched_scale_down_bits <= 2,
                    bits == stretched_scale_down_bits,
                    squash_table_ok(squash_lut.table()),
                    mappings@.len() == interval_stop,
                    forall|i: int| 0 <= i < interval_stop ==> 1 <= (#[trigger] mappings@[i]).raw_of() < 0x8000_0000
                        && mappings@[i].raw_of() == squashed_stop_spec(squash_lut.table(), i, size, bits),
                decreases single_mapping_size - interval_stop,
            {
                let stretched_prob = stop_stretch(interval_stop as i64 - offset, stretched_scale_down_bits);
                let input_prob = squash_lut.squash(stretched_prob);
                mappings.push(input_prob);
                interval_stop += 1;
            }
        }
        let mut context: usize = 1;
        proof {
            if contexts_number > 0 {
                assert forall|c: int, i: int| 0 <= c < 1 && c < contexts_number && 0 <= i < size implies #[trigger] mappings@[c
                    * size + i].raw_of() == squashed_stop_spec(squash_lut.table(), i, size, bits) by {
                    assert(c * size + i == i);
                }
            }
        }
        while context < contexts_number
            invariant
                1 <= context,
                contexts_number > 0 ==> context <= contexts_number,
                contexts_number * 97 <= usize::MAX,
                single_mapping_size == size,
                size <= 97,
                bits == stretched_scale_down_bits,
                mappings@.len() == (if contexts_number > 0 { context * size } else { 0 }),
                forall|j: int| 0 <= j < mappings@.len() ==> 1 <= (#[trigger] mappings@[j]).raw_of() < 0x8000_0000,
                forall|c: int, i: int| 0 <= c < context && c < contexts_number && 0 <= i < size ==> #[trigger] mappings@[c
                    * size + i].raw_of() == squashed_stop_spec(squash_lut.table(), i, size, bits),
            decreases contexts_number - context,
        {
            let mut input: usize = 0;
            let ghost before = mappings@;
            proof {
                assert(context * size <= contexts_number * 97) by (nonlinear_arith)
                    requires context < contexts_number, size <= 97;
                assert(context * size >= size) by (nonlinear_arith)
                    requires context >= 1, size >= 0;
            }
            while input < single_mapping_size
                invariant
                    input <= single_mapping_size,
                    single_mapping_size == size,
                    size <= 97,
                    1 <= context < contexts_number,
                    context * size <= contexts_number * 97,
                    context * size >= size,
                    mappings@.len() == context * size + input,
                    mappings@.subrange(0, context * size) == before,
                    before.len() == context * size,
                    forall|j: int| 0 <= j < mappings@.len() ==> 1 <= (#[trigger] mappings@[j]).raw_of() < 0x8000_0000,
                    forall|i: int| 0 <= i < input ==> #[trigger] mappings@[context * size + i] == before[i],
                decreases single_mapping_size - input,
            {
                proof {
                    assert(0 * size + input == input);
                }
                let reused_value = mappings[input];
                proof {
                    assert(1 <= mappings@[input as int].raw_of() < 0x8000_0000);
                    assert(mappings@[input as int] == before[input as int]);
                }
                mappings.push(reused_value);
                input += 1;
            }
            proof {
                assert forall|c: int, i: int| 0 <= c < context + 1 && c < contexts_number && 0 <= i < size implies #[trigger] mappings@[c
                    * size + i].raw_of() == squashed_stop_spec(squash_lut.table(), i, size, bits) by {
                    if c < context {
                        assert(c * size + i < context * size) by (nonlinear_arith)
                            requires c < context, 0 <= i < size;
                        assert(c * size + i >= 0) by (nonlinear_arith)
                            requires c >= 0, i >= 0, size >= 0;
                        assert(mappings@[c * size + i] == before[c * size + i]);
                    } else {
                        assert(before[i] == before[0 * size + i]);
                    }
                }
                assert((context + 1) * size == context * size + size) by (nonlinear_arith);
            }
            context += 1;
        }
        proof {
            if contexts_number == 0 {
                assert(contexts_number * size == 0);
            }
        }
        AdaptiveProbabilityMap {
            mappings,
            stretched_scale_down_bits,
            contexts_number,
            saved_left_context_index: -1,
            saved_left_weight: FractOnlyU32::new(0, 31),
        }
    }
}


/// A stretched value below 12 falls in an interval that has a right stop.
proof fn lemma_interval_below_last(raw: int, bits: nat)
    requires
        bits <= 2,
        -12 * 0x20_0000 <= raw < 12 * 0x20_0000,
    ensures
        0 <= interval_index_spec(raw, bits) < 24 * pow2(bits),
{
    lemma2_to64();
    let p = pow2((21 - bits) as nat) as int;
    let o = pow2(bits) as int;
    vstd::arithmetic::power2::lemma_pow2_adds((21 - bits) as nat, bits);
    assert(p * o == 0x20_0000);
    assert(raw / p < 12 * o) by (nonlinear_arith)
        requires raw < 12 * 0x20_0000, p * o == 0x20_0000, p > 0, o > 0;
    assert(raw / p >= -12 * o) by (nonlinear_arith)
        requires raw >= -12 * 0x20_0000, p * o == 0x20_0000, p > 0, o > 0;
}

impl AdaptiveProbabilityMap {
    /// Refines a probability, given squashed and stretched, in a context:
    /// the two mapped stops around the input are interpolated by the
    /// input's position between them, and the interval and the left
    /// weight are kept for the update. `None` when the squashed input lies
    /// outside the interval that its stretched value selects, or a weight
    /// or the result is not a fraction.
    pub fn refine(
        &mut self,
        context: usize,
        input_sq: FractOnlyU32,
        input_st: StretchedProbD,
        apm_lut: &ApmWeightingLut,
    ) -> (r: Option<FractOnlyU32>)
        requires
            old(self).wf(),
            apm_lut.wf(),
            apm_lut.bits() == old(self).bits(),
            old(self).saved_index() == -1,
            context < old(self).contexts(),
            -12 * 0x20_0000 <= input_st.raw_of() < 12 * 0x20_0000,
        ensures
            final(self).wf(),
            final(self).mappings_view() == old(self).mappings_view(),
            final(self).bits() == old(self).bits(),
            final(self).contexts() == old(self).contexts(),
            r is Some <==> refine_ok(
                *apm_lut,
                old(self).mappings_view(),
                context * mapping_size(old(self).bits() as nat),
                input_sq.raw_of() as int,
                input_st.raw_of() as int,
            ),
            r is Some ==> r->0.raw_of() == refine_value(
                *apm_lut,
                old(self).mappings_view(),
                context * mapping_size(old(self).bits() as nat),
                input_sq.raw_of() as int,
                input_st.raw_of() as int,
            ),
            r is Some ==> final(self).saved_index() == refine_index(
                apm_lut.stops(),
                input_sq.raw_of() as int,
                input_st.raw_of() as int,
                apm_lut.bits() as nat,
            ),
            r is Some ==> final(self).saved_weight() == weight_left_spec(
                weight_right_spec(
                    *apm_lut,
                    input_sq.raw_of() as int,
                    refine_index(apm_lut.stops(), input_sq.raw_of() as int, input_st.raw_of() as int, apm_lut.bits() as nat),
                ),
            ),
            r is None ==> final(self).saved_index() == -1,
    {
        proof {
            lemma2_to64();
            lemma2_to64_rest();
            lemma_interval_below_last(input_st.raw_of() as int, self.bits() as nat);
        }
        let ghost size = mapping_size(self.bits() as nat);
        let stops = apm_lut.squashed_interval_stops();
        let shifts = apm_lut.shifts_by_interval();
        let extra_factors = apm_lut.extra_factor_by_interval();
        let stops_count = stops.len();
        let last_interval_stop = stops_count - 1;
        let lo = stops[0].raw();
        let hi = stops[last_interval_stop].raw();
        let capped = if input_sq.raw() < hi {
            input_sq.raw()
        } else {
            hi
        };
        let clamped = if capped > lo {
            capped
        } else {
            lo
        };
        let first_index = input_st.to_interval_index(self.stretched_scale_down_bits) as usize;
        let index_left: i64 = if clamped < stops[first_index].raw() {
            first_index as i64 - 1
        } else if clamped > stops[first_index + 1].raw() {
            first_index as i64 + 1
        } else {
            first_index as i64
        };
        if index_left < 0 || index_left as usize >= last_interval_stop {
            return None;
        }
        let index_left = index_left as usize;
        let left_stop = stops[index_left].raw();
        if clamped < left_stop || clamped > stops[index_left + 1].raw() {
            return None;
        }
        let shift = shifts[index_left];
        let offset = (clamped - left_stop) as u64;
        proof {
            assert(shift <= 31);
            crate::fixed_point::lemma_pow2_bounds(shift as nat);
            assert(offset * pow2(shift as nat) <= 0x7fff_ffff * 0x8000_0000) by (nonlinear_arith)
                requires offset < 0x8000_0000, pow2(shift as nat) <= 0x8000_0000;
            vstd::bits::lemma_u64_shl_is_mul(offset, shift as u64);
        }
        let base = offset << (shift as u64);
        if base >= 0x8000_0000 {
            return None;
        }
        let base_fract = FractOnlyU32::new(base as u32, 31);
        let extra = extra_factors[index_left];
        proof {
            let (b, e) = (base as int, extra.raw_of() as int);
            assert(0 <= b * e <= 0x7fff_ffff * 0x7fff_ffff) by (nonlinear_arith)
                requires 0 <= b < 0x8000_0000, 0 <= e < 0x8000_0000;
            lemma_scaled_down_unsigned_error(b * e, 31, u64::MAX as int);
            let m = mul_spec(b * e, 62, 31);
            if b == 0 {
                assert(b * e == 0) by (nonlinear_arith)
                    requires b == 0;
            } else {
                assert(b * e < b * 0x8000_0000) by (nonlinear_arith)
                    requires 0 < b, 0 <= e < 0x8000_0000;
            }
            assert(m * 0x8000_0000 < (b + 1) * 0x8000_0000);
        }
        let stretched: FractOnlyU32 = fix_u32::mul(&base_fract, &extra);
        let weight_right_raw = base + stretched.raw() as u64;
        if weight_right_raw >= 0x8000_0000 {
            return None;
        }
        let weight_right = FractOnlyU32::new(weight_right_raw as u32, 31);
        let weight_left = if weight_right_raw == 0 {
            FractOnlyU32::one_unsafe()
        } else {
            FractOnlyU32::new((0x8000_0000 - weight_right_raw) as u32, 31)
        };
        let single_mapping_size = StretchedProbD::interval_stops_count(self.stretched_scale_down_bits) as usize;
        let mappings_len = self.mappings.len();
        proof {
            assert(context * size + size <= self.contexts() * size) by (nonlinear_arith)
                requires context < self.contexts(), size >= 0;
            assert(single_mapping_size == size);
        }
        let mapping_start = context * single_mapping_size;
        let left_bound = self.mappings[mapping_start + index_left];
        let right_bound = self.mappings[mapping_start + index_left + 1];
        proof {
            let (l, rb, wl, wr) = (left_bound.raw_of() as int, right_bound.raw_of() as int, weight_left.raw_of() as int, weight_right.raw_of() as int);
            assert(0 <= l * wl <= 0x7fff_ffff * 0x8000_0000) by (nonlinear_arith)
                requires 0 <= l < 0x8000_0000, 0 <= wl <= 0x8000_0000;
            assert(0 <= rb * wr <= 0x7fff_ffff * 0x7fff_ffff) by (nonlinear_arith)
                requires 0 <= rb < 0x8000_0000, 0 <= wr < 0x8000_0000;
            lemma_scaled_down_unsigned_error(l * wl, 31, u64::MAX as int);
            lemma_scaled_down_unsigned_error(rb * wr, 31, u64::MAX as int);
            assert(l * wl <= l * 0x8000_0000) by (nonlinear_arith)
                requires 0 <= l, wl <= 0x8000_0000;
            assert(rb * wr <= rb * 0x8000_0000) by (nonlinear_arith)
                requires 0 <= rb, wr <= 0x8000_0000;
            let ml = mul_spec(l * wl, 62, 31);
            let mr = mul_spec(rb * wr, 62, 31);
            assert(ml * 0x8000_0000 < (l + 1) * 0x8000_0000);
            assert(mr * 0x8000_0000 < (rb + 1) * 0x8000_0000);
        }
        let result_right: FractOnlyU32 = fix_u32::mul(&right_bound, &weight_right);
        let result_left: FractOnlyU32 = fix_u32::mul(&left_bound, &weight_left);
        let sum = result_left.raw() as u64 + result_right.raw() as u64;
        if sum >= 0x8000_0000 {
            return None;
        }
        self.saved_left_context_index = index_left as i32;
        self.saved_left_weight = weight_left;
        Some(result_left.add(&result_right))
    }

    /// Moves the two mapped stops of the last refinement towards the coded
    /// bit, each by its weight (or one half each when `fixed_weight`) and
    /// its rate.
    pub fn update_predictions(
        &mut self,
        context: usize,
        input_bit: Bit,
        left_log_rate: u8,
        right_log_rate: u8,
        fixed_weight: bool,
    )
        requires
            old(self).wf(),
            old(self).saved_index() >= 0,
            context < old(self).contexts(),
            0 < left_log_rate < 30,
            0 < right_log_rate < 30,
        ensures
            apm_updated(*old(self), *final(self), context as int, input_bit, left_log_rate as int, right_log_rate as int, fixed_weight),
            ({
                let left = context * mapping_size(old(self).bits() as nat) + old(self).saved_index();
                let weight_left = if fixed_weight {
                    0x4000_0000
                } else {
                    old(self).saved_weight()
                };
                &&& final(self).mappings_view()[left].raw_of() == updated_entry(
                    old(self).mappings_view()[left].raw_of() as int,
                    input_bit,
                    weight_left,
                    left_log_rate as int,
                )
                &&& final(self).mappings_view()[left + 1].raw_of() == updated_entry(
                    old(self).mappings_view()[left + 1].raw_of() as int,
                    input_bit,
                    0x8000_0000 - weight_left,
                    right_log_rate as int,
                )
                &&& input_bit == Bit::Zero ==> final(self).mappings_view()[left].raw_of() >= old(self).mappings_view()[left].raw_of()
                    && final(self).mappings_view()[left + 1].raw_of() >= old(self).mappings_view()[left + 1].raw_of()
                &&& input_bit == Bit::One ==> final(self).mappings_view()[left].raw_of() <= old(self).mappings_view()[left].raw_of()
                    && final(self).mappings_view()[left + 1].raw_of() <= old(self).mappings_view()[left + 1].raw_of()
            }),
    {
        let ghost left = context * mapping_size(old(self).bits() as nat) + old(self).saved_index();
        let ghost left_weight: int = if fixed_weight {
            0x4000_0000
        } else {
            old(self).saved_weight()
        };
        let ghost size = mapping_size(self.bits() as nat);
        proof {
            lemma2_to64();
            assert(context * size + size <= self.contexts() * size) by (nonlinear_arith)
                requires context < self.contexts(), size >= 0;
        }
        let single_mapping_size = StretchedProbD::interval_stops_count(self.stretched_scale_down_bits) as usize;
        let mappings_len = self.mappings.len();
        proof {
            assert(single_mapping_size == size);
        }
        let base_index = context * single_mapping_size;
        let left_context_index = self.saved_left_context_index as usize;
        let weight_left = if fixed_weight {
            FractOnlyU32::half()
        } else {
            self.saved_left_weight
        };
        let weight_right = FractOnlyU32::one_unsafe().sub(&weight_left);
        self.update_single_entry(input_bit, base_index + left_context_index, weight_left, left_log_rate);
        self.update_single_entry(input_bit, base_index + left_context_index + 1, weight_right, right_log_rate);
        self.saved_left_context_index = -1;
        proof {
            let m = old(self).mappings_view();
            let sz = mapping_size(old(self).bits() as nat);
            let si = old(self).saved_index();
            let cs = old(self).contexts();
            let len = m.len() as int;
            assert(0 <= left && left + 1 < len) by (nonlinear_arith)
                requires
                    left == context * sz + si,
                    0 <= si < sz - 1,
                    0 <= context < cs,
                    len == cs * sz;
            lemma_updated_entry_moves_towards_bit(m[left].raw_of() as int, input_bit, left_weight, left_log_rate as int);
            lemma_updated_entry_moves_towards_bit(
                m[left + 1].raw_of() as int,
                input_bit,
                0x8000_0000 - left_weight,
                right_log_rate as int,
            );
        }
    }

    /// Moves one mapped value towards the bit.
    fn update_single_entry(&mut self, input_bit: Bit, entry_index: usize, weight: FractOnlyU32, log_rate: u8)
        requires
            old(self).wf(),
            entry_index < old(self).mappings_view().len(),
            weight.raw_of() <= 0x8000_0000,
            0 < log_rate < 30,
        ensures
            final(self).wf(),
            final(self).bits() == old(self).bits(),
            final(self).contexts() == old(self).contexts(),
            final(self).saved_index() == old(self).saved_index(),
            final(self).saved_weight() == old(self).saved_weight(),
            final(self).mappings_view().len() == old(self).mappings_view().len(),
            forall|j: int| 0 <= j < old(self).mappings_view().len() && j != entry_index ==> #[trigger] final(self).mappings_view()[j]
                == old(self).mappings_view()[j],
            final(self).mappings_view()[entry_index as int].raw_of() == updated_entry(
                old(self).mappings_view()[entry_index as int].raw_of() as int,
                input_bit,
                weight.raw_of() as int,
                log_rate as int,
            ),
    {
        let entry = self.mappings[entry_index];
        let e = entry.raw();
        proof {
            lemma2_to64();
            vstd::bits::lemma_u32_shr_is_div((0x8000_0000 - e) as u32, log_rate as u32);
            vstd::bits::lemma_u32_shr_is_div(e, log_rate as u32);
            crate::fixed_point::lemma_pow2_bounds(log_rate as nat);
        }
        proof {
            assert(1 <= e < 0x8000_0000);
        }
        match input_bit {
            Bit::Zero => {
                let error = FractOnlyU32::one_unsafe().sub(&entry);
                let scaled_error = error.raw() >> (log_rate as u32);
                proof {
                    let (w, x) = (weight.raw_of() as int, scaled_error as int);
                    let n = 0x8000_0000 - e as int;
                    let p = pow2(log_rate as nat) as int;
                    vstd::arithmetic::div_mod::lemma_fundamental_div_mod(n, p);
                    vstd::arithmetic::div_mod::lemma_mod_bound(n, p);
                    assert(x == n / p);
                    assert(x * p <= n) by (nonlinear_arith)
                        requires x == n / p, n == p * (n / p) + n % p, n % p >= 0;
                    assert(x * 2 <= x * p) by (nonlinear_arith)
                        requires x >= 0, p >= 2;
                    assert(0 <= w * x <= 0x8000_0000 * x) by (nonlinear_arith)
                        requires 0 <= w <= 0x8000_0000, x >= 0;
                    lemma_scaled_down_unsigned_error(w * x, 31, u64::MAX as int);
                    let m = mul_spec(w * x, 62, 31);
                    assert(m * 0x8000_0000 < (x + 1) * 0x8000_0000);
                    assert(m <= x);
                }
                let correction: FractOnlyU32 = fix_u32::mul(&weight, &FractOnlyU32::new(scaled_error, 31));
                self.mappings.set(entry_index, entry.add(&correction));
            },
            Bit::One => {
                let scaled_error = e >> (log_rate as u32);
                proof {
                    let (w, x) = (weight.raw_of() as int, scaled_error as int);
                    let n = e as int;
                    let p = pow2(log_rate as nat) as int;
                    vstd::arithmetic::div_mod::lemma_fundamental_div_mod(n, p);
                    vstd::arithmetic::div_mod::lemma_mod_bound(n, p);
                    assert(x == n / p);
                    assert(x * p <= n) by (nonlinear_arith)
                        requires x == n / p, n == p * (n / p) + n % p, n % p >= 0;
                    assert(x * 2 <= x * p) by (nonlinear_arith)
                        requires x >= 0, p >= 2;
                    assert(0 <= w * x <= 0x8000_0000 * x) by (nonlinear_arith)
                        requires 0 <= w <= 0x8000_0000, x >= 0;
                    lemma_scaled_down_unsigned_error(w * x, 31, u64::MAX as int);
                    let m = mul_spec(w * x, 62, 31);
                    assert(m * 0x8000_0000 < (x + 1) * 0x8000_0000);
                    assert(m <= x);
                }
                let correction: FractOnlyU32 = fix_u32::mul(&weight, &FractOnlyU32::new(scaled_error, 31));
                self.mappings.set(entry_index, entry.sub(&correction));
            },
        }
    }
}

} // verus!
