use vstd::prelude::*;
use crate::bit::Bit;
use crate::lut::LookUpTables;
use super::{
    ContextState, CollectedContextStates, next_state_spec, lemma_next_state_unique, lemma_next_state_spec,
    lemma_next_state_distances, with_distance,
};
use super::window::{InputWindow, WindowIndex, prefix_equal_spec, bit_of, wrap};
use vstd::arithmetic::div_mod::lemma_small_mod;
use super::tree::node::{CostTrackers, is_default_trackers, default_trackers_spec};

verus! {

/// The state of the context of `order` bytes before the cursor (and the
/// bits of the cursor's byte above `bit_index`) after its occurrences at
/// positions below `upto`: nothing when it did not occur, the state of its
/// first occurrence, then each later occurrence's next state.
pub open spec fn naive_state(
    bytes: Seq<u8>,
    max: int,
    cursor: int,
    order: int,
    bit_index: int,
    luts: LookUpTables,
    upto: int,
) -> Option<ContextState>
    decreases upto,
{
    if upto <= 0 {
        None
    } else {
        let prev = naive_state(bytes, max, cursor, order, bit_index, luts, upto - 1);
        let scanned = upto - 1;
        let current = cursor - order;
        if prefix_equal_spec(bytes, max, scanned, current, bit_index, order) {
            let bit = Bit::of_bool(bit_of(bytes[scanned + order], bit_index));
            let distance = (current - scanned) as usize;
            match prev {
                Some(state) => Some(
                    next_state_spec(
                        state,
                        distance,
                        bit,
                        if state is ForNode {
                            Some(default_trackers_spec())
                        } else {
                            None
                        },
                        luts,
                    ),
                ),
                None => Some(
                    ContextState::ForEdge { last_occurrence_distance: distance, occurrence_count: 1, repeated_bit: bit },
                ),
            }
        } else {
            prev
        }
    }
}

/// Two byte sequences agree below `cur` and on the bits of `cur` above
/// `bit_index`.
pub open spec fn agree_below(b1: Seq<u8>, b2: Seq<u8>, cur: int, bit_index: int) -> bool {
    &&& forall|x: int| 0 <= x < cur ==> b1[x] == b2[x]
    &&& forall|bb: int| bit_index < bb <= 7 ==> bit_of(b1[cur], bb) == bit_of(b2[cur], bb)
}

/// A position below the buffer's length is its own wrapped position.
pub proof fn lemma_wrap_small(x: int, max: int)
    requires
        0 <= x < max,
    ensures
        wrap(x, max) == x,
{
    lemma_small_mod(x as nat, max as nat);
}

/// Comparing two texts reads only their spans, up to the bits above
/// `bit_index` of the byte after them.
pub proof fn lemma_prefix_equal_frame(
    b1: Seq<u8>,
    b2: Seq<u8>,
    max: int,
    cur: int,
    agree_bits: int,
    first: int,
    second: int,
    bit_index: int,
    length: int,
)
    requires
        agree_below(b1, b2, cur, agree_bits),
        cur < max,
        0 <= first,
        0 <= second,
        0 <= length,
        first + length <= cur,
        second + length <= cur,
        agree_bits <= bit_index,
    ensures
        prefix_equal_spec(b1, max, first, second, bit_index, length) == prefix_equal_spec(
            b2,
            max,
            first,
            second,
            bit_index,
            length,
        ),
{
    assert forall|k: int| 0 <= k <= length implies #[trigger] wrap(first + k, max) == first + k && wrap(second + k, max)
        == second + k by {
        lemma_wrap_small(first + k, max);
        lemma_wrap_small(second + k, max);
    }
    assert(wrap(first + length, max) == first + length);
    assert(wrap(second + length, max) == second + length);
}

/// The scan reads the text only up to the cursor, and at the cursor only
/// the bits above `bit_index` (and the bit itself, once the scan reaches
/// the cursor's own position).
pub proof fn lemma_naive_frame(
    b1: Seq<u8>,
    b2: Seq<u8>,
    max: int,
    cursor: int,
    order: int,
    bit_index: int,
    luts: LookUpTables,
    upto: int,
    cur: int,
    agree_bits: int,
)
    requires
        agree_below(b1, b2, cur, agree_bits),
        0 <= order <= cursor <= cur < max,
        upto <= cursor - order + 1,
        agree_bits <= bit_index <= 7,
        upto + order <= cur || agree_bits < bit_index,
    ensures
        naive_state(b1, max, cursor, order, bit_index, luts, upto) == naive_state(
            b2,
            max,
            cursor,
            order,
            bit_index,
            luts,
            upto,
        ),
    decreases upto,
{
    if upto > 0 {
        lemma_naive_frame(b1, b2, max, cursor, order, bit_index, luts, upto - 1, cur, agree_bits);
        let scanned = upto - 1;
        lemma_prefix_equal_frame(b1, b2, max, cur, agree_bits, scanned, cursor - order, bit_index, order);
        if scanned + order < cur {
            assert(b1[scanned + order] == b2[scanned + order]);
        } else {
            assert(bit_of(b1[cur], bit_index) == bit_of(b2[cur], bit_index));
        }
    }
}

/// The scan finds a state exactly when the context occurred before `upto`.
pub proof fn lemma_naive_some(
    bytes: Seq<u8>,
    max: int,
    cursor: int,
    order: int,
    bit_index: int,
    luts: LookUpTables,
    upto: int,
)
    ensures
        naive_state(bytes, max, cursor, order, bit_index, luts, upto) is Some <==> exists|q: int|
            0 <= q < upto && #[trigger] prefix_equal_spec(bytes, max, q, cursor - order, bit_index, order),
    decreases upto,
{
    if upto > 0 {
        lemma_naive_some(bytes, max, cursor, order, bit_index, luts, upto - 1);
        if naive_state(bytes, max, cursor, order, bit_index, luts, upto - 1) is Some {
            let q = choose|q: int|
                0 <= q < upto - 1 && #[trigger] prefix_equal_spec(bytes, max, q, cursor - order, bit_index, order);
            assert(0 <= q < upto);
        }
    }
}

/// Positions where the context does not occur leave the scan's state as it
/// was.
pub proof fn lemma_naive_skip(
    bytes: Seq<u8>,
    max: int,
    cursor: int,
    order: int,
    bit_index: int,
    luts: LookUpTables,
    from: int,
    upto: int,
)
    requires
        0 <= from <= upto,
        forall|q: int| from <= q < upto ==> !#[trigger] prefix_equal_spec(bytes, max, q, cursor - order, bit_index, order),
    ensures
        naive_state(bytes, max, cursor, order, bit_index, luts, upto) == naive_state(
            bytes,
            max,
            cursor,
            order,
            bit_index,
            luts,
            from,
        ),
    decreases upto - from,
{
    if from < upto {
        lemma_naive_skip(bytes, max, cursor, order, bit_index, luts, from, upto - 1);
    }
}

/// The scan's states are valid; after an occurrence at `upto - 1` the
/// state's distance is that from it.
pub proof fn lemma_naive_wf(
    bytes: Seq<u8>,
    max: int,
    cursor: int,
    order: int,
    bit_index: int,
    luts: LookUpTables,
    upto: int,
)
    requires
        luts.wf(),
        upto <= cursor - order + 1,
        cursor - order <= usize::MAX,
    ensures
        naive_state(bytes, max, cursor, order, bit_index, luts, upto) matches Some(s) ==> s.wf(),
        upto >= 1 && prefix_equal_spec(bytes, max, upto - 1, cursor - order, bit_index, order) ==> (naive_state(
            bytes,
            max,
            cursor,
            order,
            bit_index,
            luts,
            upto,
        ) matches Some(s) && s.distance_of() == cursor - order - (upto - 1)),
    decreases upto,
{
    if upto > 0 {
        lemma_naive_wf(bytes, max, cursor, order, bit_index, luts, upto - 1);
        let prev = naive_state(bytes, max, cursor, order, bit_index, luts, upto - 1);
        let scanned = upto - 1;
        let current = cursor - order;
        if prefix_equal_spec(bytes, max, scanned, current, bit_index, order) {
            let bit = Bit::of_bool(bit_of(bytes[scanned + order], bit_index));
            let distance = (current - scanned) as usize;
            if let Some(state) = prev {
                lemma_next_state_spec(
                    state,
                    distance,
                    bit,
                    if state is ForNode {
                        Some(default_trackers_spec())
                    } else {
                        None
                    },
                    luts,
                );
            }
        }
    }
}

/// Scans for two equal contexts, at `c1 - order` and `c2 - order`, find
/// their states at the same positions: the states differ only in their
/// distances, by `c2 - c1`.
pub proof fn lemma_naive_shift(
    bytes: Seq<u8>,
    max: int,
    c1: int,
    c2: int,
    order: int,
    bit_index: int,
    luts: LookUpTables,
    upto: int,
)
    requires
        luts.wf(),
        upto <= c1 - order + 1,
        upto <= c2 - order + 1,
        c1 - order <= usize::MAX,
        c2 - order <= usize::MAX,
        forall|q: int|
            0 <= q < upto ==> #[trigger] prefix_equal_spec(bytes, max, q, c1 - order, bit_index, order)
                == prefix_equal_spec(bytes, max, q, c2 - order, bit_index, order),
    ensures
        naive_state(bytes, max, c1, order, bit_index, luts, upto) is None <==> naive_state(
            bytes,
            max,
            c2,
            order,
            bit_index,
            luts,
            upto,
        ) is None,
        naive_state(bytes, max, c1, order, bit_index, luts, upto) matches Some(s1) ==> (naive_state(
            bytes,
            max,
            c2,
            order,
            bit_index,
            luts,
            upto,
        ) matches Some(s2) && s2 == with_distance(s1, (s1.distance_of() + (c2 - c1)) as usize) && s1.distance_of() + (
        c2 - c1) >= 0),
    decreases upto,
{
    if upto > 0 {
        lemma_naive_shift(bytes, max, c1, c2, order, bit_index, luts, upto - 1);
        lemma_naive_wf(bytes, max, c1, order, bit_index, luts, upto - 1);
        lemma_naive_wf(bytes, max, c1, order, bit_index, luts, upto);
        lemma_naive_wf(bytes, max, c2, order, bit_index, luts, upto);
        let scanned = upto - 1;
        let p1 = naive_state(bytes, max, c1, order, bit_index, luts, upto - 1);
        let p2 = naive_state(bytes, max, c2, order, bit_index, luts, upto - 1);
        assert(prefix_equal_spec(bytes, max, scanned, c1 - order, bit_index, order) == prefix_equal_spec(
            bytes,
            max,
            scanned,
            c2 - order,
            bit_index,
            order,
        ));
        if prefix_equal_spec(bytes, max, scanned, c1 - order, bit_index, order) {
            let bit = Bit::of_bool(bit_of(bytes[scanned + order], bit_index));
            let d1 = (c1 - order - scanned) as usize;
            let d2 = (c2 - order - scanned) as usize;
            if let Some(s1) = p1 {
                let s2 = p2->0;
                let trackers = if s1 is ForNode {
                    Some(default_trackers_spec())
                } else {
                    None
                };
                lemma_next_state_distances(s1, (s1.distance_of() + (c2 - c1)) as usize, d1, d2, bit, trackers, luts);
                lemma_next_state_distances(s1, (s1.distance_of() + (c2 - c1)) as usize, d2, d2, bit, trackers, luts);
                lemma_next_state_spec(s1, d1, bit, trackers, luts);
                assert(s2 == with_distance(s1, (s1.distance_of() + (c2 - c1)) as usize));
                assert((s2 is ForNode) == (s1 is ForNode));
                let n1 = next_state_spec(s1, d1, bit, trackers, luts);
                assert(naive_state(bytes, max, c1, order, bit_index, luts, upto) == Some(n1));
                assert(naive_state(bytes, max, c2, order, bit_index, luts, upto) == Some(
                    next_state_spec(s2, d2, bit, trackers, luts),
                ));
                assert(next_state_spec(s2, d2, bit, trackers, luts) == with_distance(n1, d2));
                assert(n1.distance_of() + (c2 - c1) == d2);
            } else {
                assert(p2 is None);
            }
        }
    }
}

/// A history source that finds the contexts of each bit by scanning all the
/// input before it; the input never slides.
pub struct NaiveHistorySource<'a> {
    luts: &'a LookUpTables,
    input: InputWindow,
    bit_index: i32,
    max_order: usize,
}

impl<'a> NaiveHistorySource<'a> {
    pub closed spec fn luts_of(&self) -> LookUpTables {
        *self.luts
    }

    /// The input so far.
    pub closed spec fn input_of(&self) -> InputWindow {
        self.input
    }

    /// The index of the next bit of the current byte, or `-1` between bytes.
    pub closed spec fn bit_index_of(&self) -> int {
        self.bit_index as int
    }

    pub closed spec fn max_order_of(&self) -> int {
        self.max_order as int
    }

    /// The input starts the buffer and has not wrapped around; a byte is
    /// current while its bits are coded.
    pub closed spec fn wf(&self) -> bool {
        &&& self.luts.wf()
        &&& self.input.wf()
        &&& self.input.start_of() == 0
        &&& self.input.bytes().len() == self.input.size_of()
        &&& -1 <= self.bit_index <= 7
        &&& self.bit_index >= 0 ==> self.input.size_of() >= 1
        &&& self.max_order < usize::MAX
    }

    /// A source over an input of at most `max_window_size` bytes, with
    /// contexts up to `max_order`.
    pub fn new(max_window_size: usize, max_order: usize, luts: &'a LookUpTables) -> (r: Self)
        requires
            0 < max_window_size <= isize::MAX,
            max_order < usize::MAX,
            luts.wf(),
        ensures
            r.wf(),
            r.luts_of() == *luts,
            r.bit_index_of() == -1,
            r.max_order_of() == max_order,
            r.input_of().size_of() == 0,
            r.input_of().max() == max_window_size,
    {
        NaiveHistorySource { luts, input: InputWindow::new(max_window_size, 0), bit_index: -1, max_order }
    }

    /// Starts the next byte; the input must have room for it.
    pub fn start_new_byte(&mut self)
        requires
            old(self).wf(),
            old(self).bit_index_of() == -1,
            old(self).input_of().size_of() < old(self).input_of().max(),
        ensures
            final(self).wf(),
            final(self).bit_index_of() == 7,
            final(self).luts_of() == old(self).luts_of(),
            final(self).max_order_of() == old(self).max_order_of(),
            final(self).input_of().bytes() == old(self).input_of().bytes().push(0u8),
            final(self).input_of().max() == old(self).input_of().max(),
    {
        self.bit_index = 7;
        proof {
            self.input.lemma_wf();
        }
        self.input.advance_cursor();
    }

    /// The states of the contexts of the next bit, from order 0 up to the
    /// first order that never occurred (or the maximum order).
    pub fn gather_history_states(&self, bit_histories: &mut CollectedContextStates)
        requires
            self.wf(),
            self.bit_index_of() >= 0,
            old(bit_histories).items_view().len() == 0,
            old(bit_histories).limit_of() == self.max_order_of() + 1,
        ensures
            ({
                let window = self.input_of();
                let cursor = window.cursor_of();
                let items = final(bit_histories).items_view();
                &&& final(bit_histories).limit_of() == old(bit_histories).limit_of()
                &&& items.len() <= self.max_order_of() + 1
                &&& forall|o: int| 0 <= o < items.len() ==> Some(#[trigger] items[o]) == naive_state(
                    window.bytes(),
                    window.max(),
                    cursor,
                    o,
                    self.bit_index_of(),
                    self.luts_of(),
                    cursor - o,
                )
                &&& forall|o: int| 0 <= o < items.len() ==> (#[trigger] items[o]).wf()
                &&& items.len() < self.max_order_of() + 1 ==> naive_state(
                    window.bytes(),
                    window.max(),
                    cursor,
                    items.len() as int,
                    self.bit_index_of(),
                    self.luts_of(),
                    cursor - items.len(),
                ) is None
            }),
    {
        proof {
            self.input.lemma_wf();
        }
        let ghost bytes = self.input.bytes();
        let ghost max = self.input.max();
        let cursor = self.input.cursor();
        let bit_index = self.bit_index as usize;
        let mut order: usize = 0;
        while order <= self.max_order
            invariant_except_break
                order <= cursor.index(),
            invariant
                self.wf(),
                self.bit_index_of() >= 0,
                bytes == self.input.bytes(),
                max == self.input.max(),
                cursor.index() == self.input.cursor_of(),
                cursor.index() + 1 == bytes.len(),
                bit_index == self.bit_index_of(),
                order <= self.max_order + 1,
                bit_histories.limit_of() == self.max_order + 1,
                bit_histories.items_view().len() == order,
                forall|o: int| 0 <= o < order ==> Some(#[trigger] bit_histories.items_view()[o]) == naive_state(
                    bytes,
                    max,
                    cursor.index() as int,
                    o,
                    bit_index as int,
                    *self.luts,
                    cursor.index() - o,
                ),
                forall|o: int| 0 <= o < order ==> (#[trigger] bit_histories.items_view()[o]).wf(),
            ensures
                bit_histories.limit_of() == self.max_order + 1,
                bit_histories.items_view().len() <= self.max_order + 1,
                forall|o: int| 0 <= o < bit_histories.items_view().len() ==> Some(
                    #[trigger] bit_histories.items_view()[o],
                ) == naive_state(
                    bytes,
                    max,
                    cursor.index() as int,
                    o,
                    bit_index as int,
                    *self.luts,
                    cursor.index() - o,
                ),
                forall|o: int| 0 <= o < bit_histories.items_view().len() ==> (#[trigger] bit_histories.items_view()[o]).wf(),
                bit_histories.items_view().len() < self.max_order + 1 ==> naive_state(
                    bytes,
                    max,
                    cursor.index() as int,
                    bit_histories.items_view().len() as int,
                    bit_index as int,
                    *self.luts,
                    cursor.index() - bit_histories.items_view().len(),
                ) is None,
            decreases self.max_order + 1 - order,
        {
            let state_opt = self.scan_order(order);
            match state_opt {
                Some(state) => {
                    bit_histories.push(state);
                    proof {
                        assert(bit_histories.items_view()[order as int] == state);
                    }
                },
                None => {
                    break;
                },
            }
            order += 1;
        }
    }

    /// The state of the context of `order` bytes before the cursor, found by
    /// scanning every earlier position.
    fn scan_order(&self, order: usize) -> (r: Option<ContextState>)
        requires
            self.wf(),
            self.bit_index_of() >= 0,
            order <= self.input_of().cursor_of(),
        ensures
            r == naive_state(
                self.input_of().bytes(),
                self.input_of().max(),
                self.input_of().cursor_of(),
                order as int,
                self.bit_index_of(),
                self.luts_of(),
                self.input_of().cursor_of() - order,
            ),
            r matches Some(state) ==> state.wf() && self.input_of().cursor_of() - order >= 1,
    {
        proof {
            self.input.lemma_wf();
            self.luts.lemma_wf();
        }
        let ghost bytes = self.input.bytes();
        let ghost max = self.input.max();
        let bit_index = self.bit_index as usize;
        let cursor = self.input.cursor();
        let current_occurrence_index = self.input.index_subtract(cursor, order);
        let stop_search_position = current_occurrence_index.raw();
        let mut last_context_state_opt: Option<ContextState> = None;
        let mut scanned_index: usize = 0;
        while scanned_index < stop_search_position
            invariant
                self.wf(),
                self.bit_index_of() >= 0,
                bytes == self.input.bytes(),
                max == self.input.max(),
                bit_index == self.bit_index_of(),
                cursor.index() == self.input.cursor_of(),
                cursor.index() + 1 == bytes.len(),
                bytes.len() <= max,
                order <= cursor.index(),
                stop_search_position == cursor.index() - order,
                current_occurrence_index.index() == stop_search_position,
                scanned_index <= stop_search_position,
                last_context_state_opt == naive_state(
                    bytes,
                    max,
                    cursor.index() as int,
                    order as int,
                    bit_index as int,
                    *self.luts,
                    scanned_index as int,
                ),
                last_context_state_opt matches Some(state) ==> state.wf(),
                last_context_state_opt is Some ==> scanned_index >= 1,
            decreases stop_search_position - scanned_index,
        {
            let scanned = WindowIndex::new(scanned_index);
            let prefix_equal = self.input.compare_for_equal_prefix(scanned, current_occurrence_index, bit_index, order);
            if prefix_equal {
                let bit_position = self.input.index_add(scanned, order);
                let bit_in_context = Bit::from_bool(self.input.get_bit(bit_position, bit_index));
                let current_occurrence_distance = self.input.index_diff(current_occurrence_index, scanned);
                let new_context_state = match last_context_state_opt {
                    Some(context_state) => {
                        let cost_trackers_opt = if context_state.is_for_node() {
                            Some(CostTrackers::default_trackers())
                        } else {
                            None
                        };
                        let next = context_state.next_state(
                            current_occurrence_distance,
                            bit_in_context,
                            cost_trackers_opt,
                            self.luts,
                        );
                        proof {
                            let chosen = next_state_spec(
                                context_state,
                                current_occurrence_distance,
                                bit_in_context,
                                cost_trackers_opt,
                                *self.luts,
                            );
                            lemma_next_state_unique(
                                context_state,
                                next,
                                chosen,
                                current_occurrence_distance,
                                bit_in_context,
                                cost_trackers_opt,
                                *self.luts,
                            );
                        }
                        next
                    },
                    None => ContextState::starting_state(current_occurrence_distance, bit_in_context),
                };
                last_context_state_opt = Some(new_context_state);
            }
            scanned_index += 1;
        }
        last_context_state_opt
    }

    /// Takes the next bit of the current byte; a naive source tracks no
    /// costs, so every tracker must be at its starting cost.
    pub fn process_input_bit(&mut self, input_bit: Bit, new_cost_trackers: &[CostTrackers])
        requires
            old(self).wf(),
            old(self).bit_index_of() >= 0,
            forall|i: int| 0 <= i < new_cost_trackers@.len() ==> is_default_trackers(#[trigger] new_cost_trackers@[i]),
        ensures
            final(self).wf(),
            final(self).bit_index_of() == old(self).bit_index_of() - 1,
            final(self).luts_of() == old(self).luts_of(),
            final(self).max_order_of() == old(self).max_order_of(),
            final(self).input_of().bytes() == old(self).input_of().bytes().update(
                old(self).input_of().cursor_of(),
                super::window::with_bit(
                    old(self).input_of().bytes()[old(self).input_of().cursor_of()],
                    old(self).bit_index_of(),
                    input_bit == Bit::One,
                ),
            ),
            final(self).input_of().cursor_of() == old(self).input_of().cursor_of(),
            final(self).input_of().max() == old(self).input_of().max(),
    {
        proof {
            self.input.lemma_wf();
        }
        self.input.set_bit_at_cursor(input_bit == Bit::One, self.bit_index as usize);
        self.bit_index = self.bit_index - 1;
    }
}

} // verus!
