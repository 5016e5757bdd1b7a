use vstd::prelude::*;

verus! {

/// Whether bit `bit_index` of a byte is set.
pub open spec fn bit_of(byte: u8, bit_index: int) -> bool {
    (byte >> (bit_index as u8)) & 1u8 == 1u8
}

/// Whether bit `bit_index` of a byte is set; bits count from the lowest.
pub fn get_bit(byte: u8, bit_index: usize) -> (r: bool)
    requires
        bit_index < 8,
    ensures
        r == bit_of(byte, bit_index as int),
{
    ((byte >> (bit_index as u8)) & 1u8) == 1u8
}

/// A byte with bit `bit_index` replaced.
pub open spec fn with_bit(byte: u8, bit_index: int, value: bool) -> u8 {
    (byte & !(1u8 << (bit_index as u8))) | ((if value { 1u8 } else { 0u8 }) << (bit_index as u8))
}

/// The position of the last byte of a window of `size` bytes from `start`,
/// or the position before `start` when the window is empty.
pub open spec fn last_position(start: int, size: int, max: int) -> int {
    if start + size == 0 {
        max - 1
    } else if start + size - 1 >= max {
        start + size - 1 - max
    } else {
        start + size - 1
    }
}

/// The position after `index` in a circular buffer of `max` positions.
pub open spec fn next_position(index: int, max: int) -> int {
    if index + 1 >= max {
        index + 1 - max
    } else {
        index + 1
    }
}

/// A position in the circular input buffer.
#[derive(Clone, Copy, Debug, PartialEq, Eq, Structural)]
pub struct WindowIndex {
    value: usize,
}

impl WindowIndex {
    pub closed spec fn index(&self) -> usize {
        self.value
    }

    pub fn new(value: usize) -> (r: WindowIndex)
        ensures
            r.index() == value,
    {
        WindowIndex { value }
    }

    pub fn raw(&self) -> (r: usize)
        ensures
            r == self.index(),
    {
        self.value
    }
}

/// The logical position of a buffer position, counted from the window's
/// start: positions before the start come after the end of the buffer.
pub open spec fn unrolled(index: int, start: int, max: int) -> int {
    if index < start {
        index + max
    } else {
        index
    }
}

/// `index + to_add` in a circular buffer of `max` positions, assuming the
/// sum is below `2 * max`.
pub open spec fn add_spec(index: int, to_add: int, max: int) -> int {
    if index + to_add >= max {
        index + to_add - max
    } else {
        index + to_add
    }
}

/// `index - to_subtract` in a circular buffer of `max` positions.
pub open spec fn subtract_spec(index: int, to_subtract: int, max: int) -> int {
    if index >= to_subtract {
        index - to_subtract
    } else {
        index + max - to_subtract
    }
}

/// A position taken modulo the buffer length.
pub open spec fn wrap(i: int, max: int) -> int {
    i % max
}

/// Whether the bytes at two positions agree on the bits above `bit_index`
/// (bits 7 down to `bit_index + 1`) after `full_byte_length` equal bytes.
pub open spec fn prefix_equal_spec(
    bytes: Seq<u8>,
    max: int,
    first: int,
    second: int,
    bit_index: int,
    full_byte_length: int,
) -> bool {
    &&& forall|k: int|
        0 <= k < full_byte_length ==> bytes[#[trigger] wrap(first + k, max)] == bytes[wrap(second + k, max)]
    &&& forall|b: int|
        bit_index < b <= 7 ==> #[trigger] bit_of(bytes[wrap(first + full_byte_length, max)], b) == bit_of(
            bytes[wrap(second + full_byte_length, max)],
            b,
        )
}

/// A sliding window over the input, kept in a circular buffer of
/// `max_size` bytes. The buffer grows until it is full, then wraps around.
pub struct InputWindow {
    buffer: Vec<u8>,
    start: WindowIndex,
    cursor: WindowIndex,
    size: usize,
    max_size: usize,
}

impl InputWindow {
    pub closed spec fn bytes(&self) -> Seq<u8> {
        self.buffer@
    }

    pub closed spec fn start_of(&self) -> int {
        self.start.value as int
    }

    pub closed spec fn cursor_of(&self) -> int {
        self.cursor.value as int
    }

    pub closed spec fn size_of(&self) -> int {
        self.size as int
    }

    pub closed spec fn max(&self) -> int {
        self.max_size as int
    }

    /// Whether the buffer has reached its full length and wraps around.
    pub open spec fn is_full(&self) -> bool {
        self.bytes().len() == self.max()
    }

    /// The window's invariant: the start, the cursor (the last byte) and the
    /// size agree, and until the buffer is full the window ends at the
    /// buffer's end.
    pub closed spec fn wf(&self) -> bool {
        &&& 0 < self.max_size <= isize::MAX
        &&& self.buffer.len() <= self.max_size
        &&& self.start.value < self.max_size
        &&& self.cursor.value < self.max_size
        &&& self.size <= self.max_size
        &&& self.cursor.value == last_position(self.start.value as int, self.size as int, self.max_size as int)
        &&& self.buffer.len() < self.max_size ==> self.start.value + self.size == self.buffer.len()
    }

    pub proof fn lemma_wf(&self)
        requires
            self.wf(),
        ensures
            0 < self.max() <= isize::MAX,
            self.bytes().len() <= self.max(),
            0 <= self.start_of() < self.max(),
            0 <= self.cursor_of() < self.max(),
            0 <= self.size_of() <= self.max(),
            self.cursor_of() == last_position(self.start_of(), self.size_of(), self.max()),
            !self.is_full() ==> self.start_of() + self.size_of() == self.bytes().len(),
            self.size_of() > 0 ==> self.cursor_of() < self.bytes().len(),
            self.size_of() > 0 ==> self.start_of() < self.bytes().len(),
    {
    }

    /// An empty window of `max_window_size` bytes whose first byte goes to
    /// position `initial_shift`.
    pub fn new(max_window_size: usize, initial_shift: usize) -> (r: InputWindow)
        requires
            0 < max_window_size <= isize::MAX,
            initial_shift < max_window_size,
        ensures
            r.wf(),
            r.max() == max_window_size,
            r.size_of() == 0,
            r.start_of() == initial_shift,
            r.bytes() == Seq::new(initial_shift as nat, |i: int| 0u8),
    {
        let mut buffer: Vec<u8> = Vec::new();
        let mut i: usize = 0;
        while i < initial_shift
            invariant
                i <= initial_shift,
                buffer@ == Seq::new(i as nat, |k: int| 0u8),
            decreases initial_shift - i,
        {
            buffer.push(0);
            i += 1;
        }
        let cursor = if initial_shift > 0 {
            initial_shift - 1
        } else {
            max_window_size - 1
        };
        InputWindow {
            buffer,
            start: WindowIndex::new(initial_shift),
            cursor: WindowIndex::new(cursor),
            size: 0,
            max_size: max_window_size,
        }
    }

    pub fn start(&self) -> (r: WindowIndex)
        ensures
            r.index() == self.start_of(),
    {
        self.start
    }

    pub fn cursor(&self) -> (r: WindowIndex)
        ensures
            r.index() == self.cursor_of(),
    {
        self.cursor
    }

    pub fn size(&self) -> (r: usize)
        ensures
            r == self.size_of(),
    {
        self.size
    }

    pub fn max_size(&self) -> (r: usize)
        ensures
            r == self.max(),
    {
        self.max_size
    }

    /// How many positions of the buffer are in use.
    pub fn buffer_len(&self) -> (r: usize)
        ensures
            r == self.bytes().len(),
    {
        self.buffer.len()
    }

    /// The byte at a position.
    pub fn at(&self, window_index: WindowIndex) -> (r: u8)
        requires
            window_index.index() < self.bytes().len(),
        ensures
            r == self.bytes()[window_index.index() as int],
    {
        self.buffer[window_index.value]
    }

    /// Drops the oldest byte of the window, clearing its position.
    pub fn advance_start(&mut self)
        requires
            old(self).wf(),
            old(self).size_of() != 0,
        ensures
            final(self).wf(),
            final(self).bytes() == old(self).bytes().update(old(self).start_of(), 0u8),
            final(self).start_of() == next_position(old(self).start_of(), old(self).max()),
            final(self).size_of() == old(self).size_of() - 1,
            final(self).cursor_of() == old(self).cursor_of(),
            final(self).max() == old(self).max(),
    {
        let s = self.start.value;
        self.buffer.set(s, 0);
        let next = self.index_increment(self.start);
        self.start = next;
        self.size = self.size - 1;
    }

    /// Appends an empty byte to the window: the cursor moves to it.
    pub fn advance_cursor(&mut self)
        requires
            old(self).wf(),
            old(self).size_of() < old(self).max(),
        ensures
            final(self).wf(),
            final(self).cursor_of() == next_position(old(self).cursor_of(), old(self).max()),
            final(self).size_of() == old(self).size_of() + 1,
            final(self).start_of() == old(self).start_of(),
            final(self).max() == old(self).max(),
            old(self).is_full() ==> final(self).bytes() == old(self).bytes().update(final(self).cursor_of(), 0u8),
            !old(self).is_full() ==> final(self).bytes() == old(self).bytes().push(0u8),
    {
        if self.buffer.len() == self.max_size {
            self.cursor = self.index_increment(self.cursor);
            let c = self.cursor.value;
            self.buffer.set(c, 0);
        } else {
            self.buffer.push(0);
            self.cursor.value = self.cursor.value + 1;
            if self.cursor.value == self.max_size {
                self.cursor.value = 0;
            }
        }
        self.size = self.size + 1;
    }

    /// Checks that the start, the cursor and the size agree.
    fn check_size_invariants(&self) -> (r: bool)
        requires
            self.wf(),
        ensures
            r,
    {
        if self.size > 1 {
            let end = self.index_add(self.start, self.size - 1);
            let diff = self.index_diff(self.cursor, self.start);
            end.value == self.cursor.value && diff == self.size - 1
        } else if self.size == 1 {
            self.start.value == self.cursor.value
        } else {
            self.size == 0
        }
    }

    /// `index + to_add`, wrapping around a full buffer.
    pub fn index_add(&self, index: WindowIndex, to_add: usize) -> (r: WindowIndex)
        requires
            self.wf(),
            index.index() + to_add <= usize::MAX,
            index.index() + to_add >= self.max() ==> self.is_full(),
        ensures
            r.index() == add_spec(index.index() as int, to_add as int, self.max()),
    {
        let mut result = index.value + to_add;
        if result >= self.max_size {
            result = result - self.max_size;
        }
        WindowIndex::new(result)
    }

    pub fn index_increment(&self, index: WindowIndex) -> (r: WindowIndex)
        requires
            self.wf(),
            index.index() < self.max(),
            index.index() + 1 >= self.max() ==> self.is_full(),
        ensures
            r.index() == add_spec(index.index() as int, 1, self.max()),
            r.index() == next_position(index.index() as int, self.max()),
    {
        self.index_add(index, 1)
    }

    /// `index - to_subtract`, wrapping around a full buffer.
    pub fn index_subtract(&self, index: WindowIndex, to_subtract: usize) -> (r: WindowIndex)
        requires
            self.wf(),
            index.index() < to_subtract ==> self.is_full() && to_subtract <= index.index() + self.max(),
            index.index() < to_subtract ==> index.index() + self.max() <= usize::MAX,
        ensures
            r.index() == subtract_spec(index.index() as int, to_subtract as int, self.max()),
    {
        let result = if index.value >= to_subtract {
            index.value - to_subtract
        } else {
            index.value + self.max_size - to_subtract
        };
        WindowIndex::new(result)
    }

    pub fn index_decrement(&self, index: WindowIndex) -> (r: WindowIndex)
        requires
            self.wf(),
            index.index() < self.max(),
            index.index() == 0 ==> self.is_full(),
        ensures
            r.index() == subtract_spec(index.index() as int, 1, self.max()),
    {
        proof {
            self.lemma_wf();
        }
        self.index_subtract(index, 1)
    }

    /// The distance from `source` forwards to `target`.
    pub fn index_diff(&self, target: WindowIndex, source: WindowIndex) -> (r: usize)
        requires
            self.wf(),
            target.index() < self.max(),
            source.index() < self.max(),
            target.index() < source.index() ==> self.is_full(),
        ensures
            r == subtract_spec(target.index() as int, source.index() as int, self.max()),
    {
        proof {
            self.lemma_wf();
        }
        self.index_subtract(target, source.value).value
    }

    /// Whether `idx1` comes before `idx2` in the window.
    pub fn index_is_smaller(&self, idx1: WindowIndex, idx2: WindowIndex) -> (r: bool)
        requires
            self.wf(),
            idx1.index() < self.max(),
            idx2.index() < self.max(),
        ensures
            r == (unrolled(idx1.index() as int, self.start_of(), self.max()) < unrolled(
                idx2.index() as int,
                self.start_of(),
                self.max(),
            )),
    {
        let idx1 = idx1.value;
        let idx2 = idx2.value;
        let fst = if idx1 < self.start.value {
            idx1 + self.max_size
        } else {
            idx1
        };
        let snd = if idx2 < self.start.value {
            idx2 + self.max_size
        } else {
            idx2
        };
        fst < snd
    }

    pub fn index_is_smaller_or_equal(&self, idx_1: WindowIndex, idx_2: WindowIndex) -> (r: bool)
        requires
            self.wf(),
            idx_1.index() < self.max(),
            idx_2.index() < self.max(),
        ensures
            r == (unrolled(idx_1.index() as int, self.start_of(), self.max()) <= unrolled(
                idx_2.index() as int,
                self.start_of(),
                self.max(),
            )),
    {
        !self.index_is_smaller(idx_2, idx_1)
    }

    /// Calls `action` on the start of every suffix of the window, oldest
    /// first, once each and on nothing else; what each call gave back comes
    /// with the position it was called on, in the order of the calls.
    pub fn for_each_suffix<R, F: Fn(WindowIndex) -> R>(&self, action: F) -> (r: Vec<(WindowIndex, R)>)
        requires
            self.wf(),
            !(self.size_of() == 0 && self.cursor_of() == self.max() - 1),
            forall|i: WindowIndex| call_requires(action, (i,)),
        ensures
            r.len() == self.size_of(),
            forall|k: int| 0 <= k < r.len() ==> (#[trigger] r@[k]).0.index() == add_spec(self.start_of(), k, self.max()),
            forall|k: int| 0 <= k < r.len() ==> call_ensures(action, ((#[trigger] r@[k]).0,), r@[k].1),
    {
        proof {
            self.lemma_wf();
        }
        let mut results: Vec<(WindowIndex, R)> = Vec::new();
        let mut k: usize = 0;
        while k < self.size
            invariant
                self.wf(),
                k <= self.size_of(),
                0 <= self.start_of() < self.max(),
                !self.is_full() ==> self.start_of() + self.size_of() == self.bytes().len(),
                self.bytes().len() <= self.max(),
                self.max() <= isize::MAX,
                self.size_of() <= self.max(),
                forall|w: WindowIndex| call_requires(action, (w,)),
                results.len() == k,
                forall|j: int| 0 <= j < k ==> (#[trigger] results@[j]).0.index() == add_spec(self.start_of(), j, self.max()),
                forall|j: int| 0 <= j < k ==> call_ensures(action, ((#[trigger] results@[j]).0,), results@[j].1),
            decreases self.size_of() - k,
        {
            let index = self.index_add(self.start, k);
            let outcome = action(index);
            results.push((index, outcome));
            k += 1;
        }
        results
    }

    /// Whether the text at two positions agrees on `full_byte_length` whole
    /// bytes and then on the bits above `bit_index` of the next byte.
    pub fn compare_for_equal_prefix(
        &self,
        starting_index_first: WindowIndex,
        starting_index_second: WindowIndex,
        bit_index: usize,
        full_byte_length: usize,
    ) -> (r: bool)
        requires
            self.wf(),
            starting_index_first.index() < self.max(),
            starting_index_second.index() < self.max(),
            full_byte_length < self.max(),
            !self.is_full() ==> starting_index_first.index() + full_byte_length + (if bit_index < 7 { 1int } else { 0 }) <= self.bytes().len(),
            !self.is_full() ==> starting_index_second.index() + full_byte_length + (if bit_index < 7 { 1int } else { 0 }) <= self.bytes().len(),
        ensures
            r == prefix_equal_spec(
                self.bytes(),
                self.max(),
                starting_index_first.index() as int,
                starting_index_second.index() as int,
                bit_index as int,
                full_byte_length as int,
            ),
    {
        proof {
            self.lemma_wf();
        }
        let first = starting_index_first.value;
        let second = starting_index_second.value;
        let larger = if first > second { first } else { second };
        if larger + full_byte_length < self.max_size {
            self.compare_for_equal_prefix_straight(first, second, bit_index, full_byte_length)
        } else {
            let mut index_first = WindowIndex::new(first);
            let mut index_second = WindowIndex::new(second);
            proof {
                vstd::arithmetic::div_mod::lemma_small_mod(first as nat, self.max() as nat);
                vstd::arithmetic::div_mod::lemma_small_mod(second as nat, self.max() as nat);
                assert(wrap(first + 0, self.max()) == first);
                assert(wrap(second + 0, self.max()) == second);
            }
            let mut equal = true;
            let mut k: usize = 0;
            while k < full_byte_length
                invariant
                    self.wf(),
                    self.is_full(),
                    0 <= k <= full_byte_length,
                    full_byte_length < self.max(),
                    first < self.max(),
                    second < self.max(),
                    first == starting_index_first.index(),
                    second == starting_index_second.index(),
                    index_first.index() == wrap(first + k, self.max()),
                    index_second.index() == wrap(second + k, self.max()),
                    equal,
                    forall|j: int|
                        0 <= j < k ==> self.bytes()[#[trigger] wrap(first + j, self.max())] == self.bytes()[wrap(second + j, self.max())],
                decreases full_byte_length - k,
            {
                proof {
                    lemma_wrap_step(first + k, self.max());
                    lemma_wrap_step(second + k, self.max());
                }
                let same = self.buffer[index_first.value] == self.buffer[index_second.value];
                equal = equal && same;
                if !equal {
                    let ghost kk = k as int;
                    assert(self.bytes()[wrap(first + kk, self.max())] != self.bytes()[wrap(second + kk, self.max())]);
                    assert(!prefix_equal_spec(self.bytes(), self.max(), first as int, second as int, bit_index as int, full_byte_length as int));
                    return false;
                }
                index_first = self.index_increment(index_first);
                index_second = self.index_increment(index_second);
                k += 1;
            }
            proof {
                lemma_wrap_step(first + k, self.max());
                lemma_wrap_step(second + k, self.max());
            }
            let tail = self.compare_for_equal_prefix_straight(index_first.value, index_second.value, bit_index, 0);
            proof {
                let w1 = wrap(first + full_byte_length, self.max());
                let w2 = wrap(second + full_byte_length, self.max());
                assert(index_first.index() == w1);
                assert(index_second.index() == w2);
                vstd::arithmetic::div_mod::lemma_small_mod(w1 as nat, self.max() as nat);
                vstd::arithmetic::div_mod::lemma_small_mod(w2 as nat, self.max() as nat);
                assert(wrap(w1 + 0, self.max()) == w1);
                assert(wrap(w2 + 0, self.max()) == w2);
            }
            equal && tail
        }
    }

    /// The comparison when no position wraps around.
    fn compare_for_equal_prefix_straight(
        &self,
        starting_index_first: usize,
        starting_index_second: usize,
        bit_index: usize,
        full_byte_length: usize,
    ) -> (r: bool)
        requires
            self.wf(),
            starting_index_first + full_byte_length < self.max(),
            starting_index_second + full_byte_length < self.max(),
            starting_index_first + full_byte_length < self.bytes().len() || (bit_index >= 7
                && starting_index_first + full_byte_length <= self.bytes().len()),
            starting_index_second + full_byte_length < self.bytes().len() || (bit_index >= 7
                && starting_index_second + full_byte_length <= self.bytes().len()),
        ensures
            r == prefix_equal_spec(
                self.bytes(),
                self.max(),
                starting_index_first as int,
                starting_index_second as int,
                bit_index as int,
                full_byte_length as int,
            ),
    {
        let ghost max = self.max();
        let ghost first = starting_index_first as int;
        let ghost second = starting_index_second as int;
        proof {
            assert forall|k: int| 0 <= k <= full_byte_length implies #[trigger] wrap(first + k, max) == first + k
                && wrap(second + k, max) == second + k by {
                vstd::arithmetic::div_mod::lemma_small_mod((first + k) as nat, max as nat);
                vstd::arithmetic::div_mod::lemma_small_mod((second + k) as nat, max as nat);
            }
            assert(wrap(first + full_byte_length, max) == first + full_byte_length);
        }
        let mut position: usize = 0;
        while position < full_byte_length
            invariant
                0 <= position <= full_byte_length,
                self.bytes().len() == self.buffer.len(),
                starting_index_first + full_byte_length <= self.bytes().len(),
                starting_index_second + full_byte_length <= self.bytes().len(),
                max == self.max(),
                first == starting_index_first,
                second == starting_index_second,
                forall|k: int| 0 <= k <= full_byte_length ==> #[trigger] wrap(first + k, max) == first + k
                    && wrap(second + k, max) == second + k,
                forall|k: int|
                    0 <= k < position ==> self.bytes()[#[trigger] wrap(first + k, max)]
                        == self.bytes()[wrap(second + k, max)],
            decreases full_byte_length - position,
        {
            let same = self.buffer[starting_index_first + position] == self.buffer[starting_index_second + position];
            let ghost k = position as int;
            assert(wrap(first + k, max) == first + k);
            if !same {
                assert(self.bytes()[wrap(first + k, max)] != self.bytes()[wrap(second + k, max)]);
                return false;
            }
            position += 1;
        }
        let mut equal = true;
        let mut bit_position: usize = 7;
        while equal && bit_position > bit_index
            invariant
                self.bytes().len() == self.buffer.len(),
                bit_index < 7 ==> starting_index_first + full_byte_length < self.bytes().len(),
                bit_index < 7 ==> starting_index_second + full_byte_length < self.bytes().len(),
                max == self.max(),
                first == starting_index_first,
                second == starting_index_second,
                wrap(first + full_byte_length, max) == first + full_byte_length,
                wrap(second + full_byte_length, max) == second + full_byte_length,
                bit_position <= 7,
                bit_position >= bit_index || bit_position == 7,
                equal == forall|b: int|
                    bit_position < b <= 7 ==> #[trigger] bit_of(self.bytes()[starting_index_first + full_byte_length], b)
                        == bit_of(self.bytes()[starting_index_second + full_byte_length], b),
            decreases bit_position,
        {
            let differ = self.bytes_differ_on(
                WindowIndex::new(starting_index_first + full_byte_length),
                WindowIndex::new(starting_index_second + full_byte_length),
                bit_position,
            );
            proof {
                lemma_xor_bit(
                    self.bytes()[starting_index_first + full_byte_length],
                    self.bytes()[starting_index_second + full_byte_length],
                    bit_position as u8,
                );
            }
            equal = equal && !differ;
            bit_position -= 1;
        }
        proof {
            if !equal {
                let b = choose|b: int| bit_position < b <= 7 && !(#[trigger] bit_of(self.bytes()[starting_index_first + full_byte_length], b)
                    == bit_of(self.bytes()[starting_index_second + full_byte_length], b));
                assert(!(bit_of(self.bytes()[wrap(first + full_byte_length, max)], b)
                    == bit_of(self.bytes()[wrap(second + full_byte_length, max)], b)));
            }
        }
        equal
    }

    /// Whether a position holds a byte of the window.
    pub open spec fn is_live(&self, index: int) -> bool {
        &&& 0 <= index < self.max()
        &&& unrolled(index, self.start_of(), self.max()) < self.start_of() + self.size_of()
    }

    /// The distance of a position from the window's start.
    pub open spec fn offset_of(&self, index: int) -> int {
        unrolled(index, self.start_of(), self.max()) - self.start_of()
    }

    /// A live position is in the buffer, at an offset below the size.
    pub proof fn lemma_live(&self, index: int)
        requires
            self.wf(),
            self.is_live(index),
        ensures
            index < self.bytes().len(),
            0 <= self.offset_of(index) < self.size_of(),
    {
    }

    /// In a window that is not empty, the start and the cursor are its first
    /// and last bytes.
    pub proof fn lemma_ends_live(&self)
        requires
            self.wf(),
            self.size_of() > 0,
        ensures
            self.is_live(self.start_of()),
            self.offset_of(self.start_of()) == 0,
            self.is_live(self.cursor_of()),
            self.offset_of(self.cursor_of()) == self.size_of() - 1,
    {
    }

    /// The distance of a position from the window's start, if the position
    /// holds a byte of the window.
    pub fn offset_in_window(&self, index: WindowIndex) -> (r: Option<usize>)
        requires
            self.wf(),
        ensures
            r is Some <==> self.is_live(index.index() as int),
            r is Some ==> r->0 == self.offset_of(index.index() as int),
    {
        if index.value >= self.max_size {
            return None;
        }
        let unrolled_index = if index.value < self.start.value {
            index.value + self.max_size
        } else {
            index.value
        };
        let offset = unrolled_index - self.start.value;
        if offset < self.size {
            Some(offset)
        } else {
            None
        }
    }

    /// The position `k` bytes after a position of the window, if it is in
    /// the window too.
    pub fn checked_forward(&self, index: WindowIndex, k: usize) -> (r: Option<WindowIndex>)
        requires
            self.wf(),
        ensures
            r is Some <==> self.is_live(index.index() as int) && self.offset_of(index.index() as int) + k < self.size_of(),
            r is Some ==> r->0.index() == add_spec(index.index() as int, k as int, self.max()),
            r is Some ==> self.is_live(r->0.index() as int),
            r is Some ==> self.offset_of(r->0.index() as int) == self.offset_of(index.index() as int) + k,
            r is Some ==> r->0.index() < self.bytes().len(),
    {
        match self.offset_in_window(index) {
            None => None,
            Some(offset) => {
                if k < self.size - offset {
                    let r = self.index_add(index, k);
                    Some(r)
                } else {
                    None
                }
            },
        }
    }

    /// The position `k` bytes before a position of the window, if it is in
    /// the window too.
    pub fn checked_back(&self, index: WindowIndex, k: usize) -> (r: Option<WindowIndex>)
        requires
            self.wf(),
        ensures
            r is Some <==> self.is_live(index.index() as int) && self.offset_of(index.index() as int) >= k,
            r is Some ==> r->0.index() == subtract_spec(index.index() as int, k as int, self.max()),
            r is Some ==> self.is_live(r->0.index() as int),
            r is Some ==> self.offset_of(r->0.index() as int) == self.offset_of(index.index() as int) - k,
            r is Some ==> r->0.index() < self.bytes().len(),
    {
        match self.offset_in_window(index) {
            None => None,
            Some(offset) => {
                if k <= offset {
                    let r = self.index_subtract(index, k);
                    Some(r)
                } else {
                    None
                }
            },
        }
    }

    /// Whether the bytes at two positions differ on a bit.
    pub fn bytes_differ_on(&self, first_byte_index: WindowIndex, second_byte_index: WindowIndex, bit_index: usize) -> (r: bool)
        requires
            first_byte_index.index() < self.bytes().len(),
            second_byte_index.index() < self.bytes().len(),
            bit_index < 8,
        ensures
            r == bit_of(self.bytes()[first_byte_index.index() as int] ^ self.bytes()[second_byte_index.index() as int], bit_index as int),
    {
        get_bit(self.buffer[first_byte_index.value] ^ self.buffer[second_byte_index.value], bit_index)
    }

    /// Whether a bit of the byte at a position is set.
    pub fn get_bit(&self, byte_index: WindowIndex, bit_index: usize) -> (r: bool)
        requires
            byte_index.index() < self.bytes().len(),
            bit_index < 8,
        ensures
            r == bit_of(self.bytes()[byte_index.index() as int], bit_index as int),
    {
        get_bit(self.buffer[byte_index.value], bit_index)
    }

    /// Sets a bit of the byte under the cursor.
    pub fn set_bit_at_cursor(&mut self, bit_value: bool, bit_index: usize)
        requires
            old(self).wf(),
            old(self).cursor_of() < old(self).bytes().len(),
            bit_index < 8,
        ensures
            final(self).wf(),
            final(self).bytes() == old(self).bytes().update(
                old(self).cursor_of(),
                with_bit(old(self).bytes()[old(self).cursor_of()], bit_index as int, bit_value),
            ),
            final(self).start_of() == old(self).start_of(),
            final(self).cursor_of() == old(self).cursor_of(),
            final(self).size_of() == old(self).size_of(),
            final(self).max() == old(self).max(),
    {
        let c = self.cursor.value;
        let b = bit_index as u8;
        let old_byte = self.buffer[c];
        let cleared = old_byte & !(1u8 << b);
        let value: u8 = if bit_value { 1 } else { 0 };
        self.buffer.set(c, cleared | (value << b));
    }

    /// Replaces the byte under the cursor.
    pub fn set_byte_at_cursor(&mut self, byte_value: u8)
        requires
            old(self).wf(),
            old(self).cursor_of() < old(self).bytes().len(),
        ensures
            final(self).wf(),
            final(self).bytes() == old(self).bytes().update(old(self).cursor_of(), byte_value),
            final(self).start_of() == old(self).start_of(),
            final(self).cursor_of() == old(self).cursor_of(),
            final(self).size_of() == old(self).size_of(),
            final(self).max() == old(self).max(),
    {
        let c = self.cursor.value;
        self.buffer.set(c, byte_value);
    }
}

/// A bit of the xor of two bytes is set when the bytes differ on it.
pub proof fn lemma_xor_bit(x: u8, y: u8, b: u8)
    requires
        b < 8,
    ensures
        bit_of(x ^ y, b as int) == (bit_of(x, b as int) != bit_of(y, b as int)),
{
    assert((((x ^ y) >> b) & 1u8 == 1u8) == (((x >> b) & 1u8 == 1u8) != ((y >> b) & 1u8 == 1u8))) by (bit_vector)
        requires b < 8u8;
}

/// Stepping a wrapped position forwards by one.
pub proof fn lemma_wrap_step(x: int, max: int)
    requires
        x >= 0,
        max > 0,
    ensures
        0 <= wrap(x, max) < max,
        wrap(x + 1, max) == next_position(wrap(x, max), max),
{
    vstd::arithmetic::div_mod::lemma_mod_bound(x, max);
    vstd::arithmetic::div_mod::lemma_fundamental_div_mod(x, max);
    let q = x / max;
    let r = x % max;
    assert(q * max == max * q) by (nonlinear_arith);
    assert((q + 1) * max == q * max + max) by (nonlinear_arith);
    if r + 1 < max {
        vstd::arithmetic::div_mod::lemma_fundamental_div_mod_converse(x + 1, max, q, r + 1);
    } else {
        vstd::arithmetic::div_mod::lemma_fundamental_div_mod_converse(x + 1, max, q + 1, 0);
    }
}

/// Going forwards by `k` and back by `k` returns to the same position.
pub proof fn lemma_add_then_subtract(index: int, k: int, max: int)
    requires
        0 <= index < max,
        0 <= k <= max,
    ensures
        0 <= add_spec(index, k, max) < max,
        subtract_spec(add_spec(index, k, max), k, max) == index,
{
}

/// The distance from a position to the position `k` further is `k`.
pub proof fn lemma_diff_of_add(index: int, k: int, max: int)
    requires
        0 <= index < max,
        0 <= k < max,
    ensures
        subtract_spec(add_spec(index, k, max), index, max) == k,
{
}

} // verus!
