use vstd::prelude::*;
use std::collections::HashMap;
use std::collections::hash_map::DefaultHasher;
use std::hash::Hasher;
use vstd::std_specs::hash::DefaultHasherAdditionalSpecFns;
use vstd::arithmetic::power2::{pow2, lemma2_to64};
use vstd::bits::lemma_u16_shr_is_div;
use crate::bit::Bit;
use crate::lut::LookUpTables;
use super::{
    ContextState, CollectedContextStates, next_state_spec, lemma_next_state_unique, with_distance, lemma_next_state_distances,
    lemma_next_state_spec,
};
use super::window::{InputWindow, WindowIndex, prefix_equal_spec, with_bit, bit_of, wrap};
use super::naive::{
    agree_below, lemma_wrap_small, naive_state, lemma_naive_some, lemma_naive_skip, lemma_naive_shift, lemma_naive_wf,
    lemma_naive_frame, lemma_prefix_equal_frame,
};
use super::tree::node::{CostTrackers, is_default_trackers, default_trackers_spec, lemma_default_trackers_unique};

verus! {

broadcast use vstd::std_specs::hash::group_hash_axioms;

/// The known bits of a byte, those above `bit_index`, under a leading one.
pub open spec fn partial_byte(byte: u8, bit_index: int) -> int {
    (256 + byte as int) / (pow2((bit_index + 1) as nat) as int)
}

/// What is hashed for the context of the `order` bytes before the cursor
/// and the known bits of the cursor's byte: each of those bytes in turn,
/// then the known bits as two bytes, the low one first.
pub open spec fn context_writes(bytes: Seq<u8>, cursor: int, order: int, bit_index: int) -> Seq<Seq<u8>> {
    let tail = partial_byte(bytes[cursor], bit_index);
    Seq::new(order as nat, |k: int| seq![bytes[cursor - order + k]]).push(seq![(tail % 256) as u8, (tail / 256) as u8])
}

/// The key of the bucket of a context.
pub open spec fn context_hash(bytes: Seq<u8>, cursor: int, order: int, bit_index: int) -> u64 {
    DefaultHasher::spec_finish(context_writes(bytes, cursor, order, bit_index))
}

/// The known bits of a byte, as a shift.
pub proof fn lemma_partial_byte_shift(byte: u8, bit_index: int)
    requires
        0 <= bit_index <= 7,
    ensures
        partial_byte(byte, bit_index) == ((256u16 + byte as u16) as u16 >> ((bit_index + 1) as u16)) as int,
{
    lemma_u16_shr_is_div((256u16 + byte as u16) as u16, (bit_index + 1) as u16);
    lemma2_to64();
}

/// Bytes that agree on the bits above `bit_index` have the same known bits.
pub proof fn lemma_partial_byte_bits(x: u8, y: u8, bit_index: int)
    requires
        0 <= bit_index <= 7,
        forall|bb: int| bit_index < bb <= 7 ==> bit_of(x, bb) == bit_of(y, bb),
    ensures
        partial_byte(x, bit_index) == partial_byte(y, bit_index),
{
    lemma_partial_byte_shift(x, bit_index);
    lemma_partial_byte_shift(y, bit_index);
    let b = bit_index as u16;
    assert(bit_index < 1 ==> bit_of(x, 1) == bit_of(y, 1));
    assert(bit_index < 2 ==> bit_of(x, 2) == bit_of(y, 2));
    assert(bit_index < 3 ==> bit_of(x, 3) == bit_of(y, 3));
    assert(bit_index < 4 ==> bit_of(x, 4) == bit_of(y, 4));
    assert(bit_index < 5 ==> bit_of(x, 5) == bit_of(y, 5));
    assert(bit_index < 6 ==> bit_of(x, 6) == bit_of(y, 6));
    assert(bit_index < 7 ==> bit_of(x, 7) == bit_of(y, 7));
    assert(((256u16 + x as u16) as u16 >> (b + 1)) == ((256u16 + y as u16) as u16 >> (b + 1))) by (bit_vector)
        requires
            b < 8,
            b < 1 ==> (((x >> 1u8) & 1u8 == 1u8) == ((y >> 1u8) & 1u8 == 1u8)),
            b < 2 ==> (((x >> 2u8) & 1u8 == 1u8) == ((y >> 2u8) & 1u8 == 1u8)),
            b < 3 ==> (((x >> 3u8) & 1u8 == 1u8) == ((y >> 3u8) & 1u8 == 1u8)),
            b < 4 ==> (((x >> 4u8) & 1u8 == 1u8) == ((y >> 4u8) & 1u8 == 1u8)),
            b < 5 ==> (((x >> 5u8) & 1u8 == 1u8) == ((y >> 5u8) & 1u8 == 1u8)),
            b < 6 ==> (((x >> 6u8) & 1u8 == 1u8) == ((y >> 6u8) & 1u8 == 1u8)),
            b < 7 ==> (((x >> 7u8) & 1u8 == 1u8) == ((y >> 7u8) & 1u8 == 1u8)),
    ;
}

/// Setting a bit changes that bit only.
pub proof fn lemma_with_bit(x: u8, bit_index: int, value: bool)
    requires
        0 <= bit_index <= 7,
    ensures
        bit_of(with_bit(x, bit_index, value), bit_index) == value,
        forall|bb: int| 0 <= bb <= 7 && bb != bit_index ==> bit_of(with_bit(x, bit_index, value), bb) == bit_of(x, bb),
{
    let b = bit_index as u8;
    let v: u8 = if value {
        1u8
    } else {
        0u8
    };
    assert forall|bb: int| 0 <= bb <= 7 implies (bb != bit_index ==> #[trigger] bit_of(with_bit(x, bit_index, value), bb)
        == bit_of(x, bb)) && (bb == bit_index ==> bit_of(with_bit(x, bit_index, value), bb) == value) by {
        let c = bb as u8;
        assert(v <= 1 && b < 8 && c < 8 ==> (c != b ==> ((((x & !(1u8 << b)) | (v << b)) >> c) & 1u8 == 1u8) == ((x
            >> c) & 1u8 == 1u8)) && (c == b ==> ((((x & !(1u8 << b)) | (v << b)) >> c) & 1u8 == 1u8) == (v == 1u8)))
            by (bit_vector);
    }
    assert(bit_of(with_bit(x, bit_index, value), bit_index) == value);
}

/// Equal contexts are fed to the hasher in the same way.
pub proof fn lemma_context_writes_equal(bytes: Seq<u8>, max: int, p1: int, p2: int, order: int, bit_index: int)
    requires
        prefix_equal_spec(bytes, max, p1, p2, bit_index, order),
        0 <= p1,
        0 <= p2,
        0 <= order,
        p1 + order < max,
        p2 + order < max,
        0 <= bit_index <= 7,
    ensures
        context_writes(bytes, p1 + order, order, bit_index) == context_writes(bytes, p2 + order, order, bit_index),
{
    assert forall|k: int| 0 <= k <= order implies #[trigger] wrap(p1 + k, max) == p1 + k && wrap(p2 + k, max) == p2
        + k by {
        lemma_wrap_small(p1 + k, max);
        lemma_wrap_small(p2 + k, max);
    }
    assert(wrap(p1 + order, max) == p1 + order);
    assert(wrap(p2 + order, max) == p2 + order);
    lemma_partial_byte_bits(bytes[p1 + order], bytes[p2 + order], bit_index);
    let w1 = Seq::new(order as nat, |k: int| seq![bytes[p1 + order - order + k]]);
    let w2 = Seq::new(order as nat, |k: int| seq![bytes[p2 + order - order + k]]);
    assert forall|k: int| 0 <= k < order implies w1[k] == w2[k] by {
        assert(wrap(p1 + k, max) == p1 + k);
        assert(bytes[wrap(p1 + k, max)] == bytes[wrap(p2 + k, max)]);
    }
    assert(w1 =~= w2);
}

/// What is hashed for a context reads the text only up to the cursor, and
/// at the cursor only the bits above `bit_index`.
pub proof fn lemma_context_writes_frame(
    b1: Seq<u8>,
    b2: Seq<u8>,
    cursor: int,
    order: int,
    bit_index: int,
    cur: int,
    agree_bits: int,
)
    requires
        agree_below(b1, b2, cur, agree_bits),
        0 <= order <= cursor <= cur,
        agree_bits <= bit_index,
        0 <= bit_index <= 7,
    ensures
        context_writes(b1, cursor, order, bit_index) == context_writes(b2, cursor, order, bit_index),
{
    if cursor < cur {
        assert(b1[cursor] == b2[cursor]);
    } else {
        assert forall|bb: int| bit_index < bb <= 7 implies bit_of(b1[cursor], bb) == bit_of(b2[cursor], bb) by {
            assert(agree_bits < bb <= 7);
        }
        lemma_partial_byte_bits(b1[cursor], b2[cursor], bit_index);
    }
    let w1 = Seq::new(order as nat, |k: int| seq![b1[cursor - order + k]]);
    let w2 = Seq::new(order as nat, |k: int| seq![b2[cursor - order + k]]);
    assert forall|k: int| 0 <= k < order implies w1[k] == w2[k] by {
        assert(b1[cursor - order + k] == b2[cursor - order + k]);
    }
    assert(w1 =~= w2);
}

/// Whether a stored state, which records where its context occurred, is the
/// state of the context of the `order` bytes before the cursor.
pub open spec fn occurs_here(
    bytes: Seq<u8>,
    max: int,
    cursor: int,
    order: int,
    bit_index: int,
    state: ContextState,
) -> bool {
    prefix_equal_spec(bytes, max, cursor - order, state.distance_of() as int, bit_index, order)
}

/// The position of the first of the first `n` states of a bucket that is
/// the state of the current context.
pub open spec fn first_match(
    bucket: Seq<ContextState>,
    bytes: Seq<u8>,
    max: int,
    cursor: int,
    order: int,
    bit_index: int,
    n: int,
) -> Option<int>
    decreases n,
{
    if n <= 0 {
        None
    } else {
        match first_match(bucket, bytes, max, cursor, order, bit_index, n - 1) {
            Some(i) => Some(i),
            None => if occurs_here(bytes, max, cursor, order, bit_index, bucket[n - 1]) {
                Some(n - 1)
            } else {
                None
            },
        }
    }
}

/// Agreement of texts is symmetric and transitive.
pub proof fn lemma_prefix_equal_chain(bytes: Seq<u8>, max: int, a: int, b: int, c: int, bit_index: int, length: int)
    ensures
        prefix_equal_spec(bytes, max, a, b, bit_index, length) ==> prefix_equal_spec(bytes, max, b, a, bit_index, length),
        prefix_equal_spec(bytes, max, a, b, bit_index, length) && prefix_equal_spec(bytes, max, b, c, bit_index, length)
            ==> prefix_equal_spec(bytes, max, a, c, bit_index, length),
{
    if prefix_equal_spec(bytes, max, a, b, bit_index, length) {
        assert forall|k: int| 0 <= k < length implies bytes[#[trigger] wrap(b + k, max)] == bytes[wrap(a + k, max)] by {
            assert(bytes[wrap(a + k, max)] == bytes[wrap(b + k, max)]);
        }
        assert forall|bb: int| bit_index < bb <= 7 implies #[trigger] bit_of(bytes[wrap(b + length, max)], bb) == bit_of(
            bytes[wrap(a + length, max)],
            bb,
        ) by {
            assert(bit_of(bytes[wrap(a + length, max)], bb) == bit_of(bytes[wrap(b + length, max)], bb));
        }
        if prefix_equal_spec(bytes, max, b, c, bit_index, length) {
            assert forall|k: int| 0 <= k < length implies bytes[#[trigger] wrap(a + k, max)] == bytes[wrap(c + k, max)] by {
                assert(bytes[wrap(a + k, max)] == bytes[wrap(b + k, max)]);
                assert(bytes[wrap(b + k, max)] == bytes[wrap(c + k, max)]);
            }
            assert forall|bb: int| bit_index < bb <= 7 implies #[trigger] bit_of(bytes[wrap(a + length, max)], bb)
                == bit_of(bytes[wrap(c + length, max)], bb) by {
                assert(bit_of(bytes[wrap(a + length, max)], bb) == bit_of(bytes[wrap(b + length, max)], bb));
                assert(bit_of(bytes[wrap(b + length, max)], bb) == bit_of(bytes[wrap(c + length, max)], bb));
            }
        }
    }
}

/// A first match exists when some state among the first `n` matches, and
/// the first match is a matching state.
pub proof fn lemma_first_match_facts(
    bucket: Seq<ContextState>,
    bytes: Seq<u8>,
    max: int,
    cursor: int,
    order: int,
    bit_index: int,
    n: int,
    i: int,
)
    ensures
        0 <= i < n && occurs_here(bytes, max, cursor, order, bit_index, bucket[i]) ==> first_match(
            bucket,
            bytes,
            max,
            cursor,
            order,
            bit_index,
            n,
        ) is Some,
        first_match(bucket, bytes, max, cursor, order, bit_index, n) matches Some(j) ==> 0 <= j < n && occurs_here(
            bytes,
            max,
            cursor,
            order,
            bit_index,
            bucket[j],
        ),
    decreases n,
{
    if n > 0 {
        lemma_first_match_facts(bucket, bytes, max, cursor, order, bit_index, n - 1, i);
    }
}

/// Once found among the first `n` states, the first match stays the same
/// among more.
pub proof fn lemma_first_match_stays(
    bucket: Seq<ContextState>,
    bytes: Seq<u8>,
    max: int,
    cursor: int,
    order: int,
    bit_index: int,
    n: int,
    m: int,
)
    requires
        first_match(bucket, bytes, max, cursor, order, bit_index, n) is Some,
        n <= m,
    ensures
        first_match(bucket, bytes, max, cursor, order, bit_index, m) == first_match(
            bucket,
            bytes,
            max,
            cursor,
            order,
            bit_index,
            n,
        ),
    decreases m - n,
{
    if n < m {
        lemma_first_match_stays(bucket, bytes, max, cursor, order, bit_index, n, m - 1);
    }
}

/// A history source that keeps the state of every context it saw, in hash
/// maps keyed by a hash of the context, one map per order and bit position.
/// A state records where its context last occurred; the input never slides.
pub struct FatMapHistorySource<'a> {
    luts: &'a LookUpTables,
    input: InputWindow,
    bit_index: usize,
    max_order: usize,
    maps: Vec<HashMap<u64, Vec<ContextState>>>,
    byte_done: Ghost<bool>,
}

impl<'a> FatMapHistorySource<'a> {
    pub closed spec fn luts_of(&self) -> LookUpTables {
        *self.luts
    }

    /// The input so far.
    pub closed spec fn input_of(&self) -> InputWindow {
        self.input
    }

    /// The index of the next bit of the current byte.
    pub closed spec fn bit_index_of(&self) -> int {
        self.bit_index as int
    }

    pub closed spec fn max_order_of(&self) -> int {
        self.max_order as int
    }

    /// Whether every bit of the current byte has been taken (or no byte
    /// has started).
    pub closed spec fn byte_done_of(&self) -> bool {
        self.byte_done@
    }

    /// Whether bit `b` of the byte at `q` has been taken.
    pub open spec fn taken(&self, q: int, b: int) -> bool {
        let len = self.input_of().bytes().len();
        &&& 0 <= q
        &&& (q + 1 < len || (q + 1 == len && (self.byte_done_of() || b > self.bit_index_of())))
    }

    /// What the source keeps of the state at position `i` of a bucket agrees
    /// with the naive scan: the state's context (of `o` bytes from its
    /// recorded position, followed by the bits above `b`) has been seen, the
    /// bucket is that of its key, the state is the scan's state after that
    /// occurrence, no later occurrence of the context has been seen, and no
    /// other state of the bucket has the same context.
    pub open spec fn kept_state_ok(&self, o: int, b: int, h: u64, i: int) -> bool {
        let bytes = self.input_of().bytes();
        let max = self.input_of().max();
        let bucket = self.bucket(o, b, h);
        let p = bucket[i].distance_of() as int;
        &&& self.taken(p + o, b)
        &&& h == context_hash(bytes, p + o, o, b)
        &&& naive_state(bytes, max, p + o, o, b, self.luts_of(), p + 1) == Some(with_distance(bucket[i], 0))
        &&& forall|p2: int| p < p2 && #[trigger] self.taken(p2 + o, b) ==> !prefix_equal_spec(bytes, max, p2, p, b, o)
        &&& forall|j: int|
            0 <= j < bucket.len() && j != i ==> !prefix_equal_spec(bytes, max, #[trigger] bucket[j].distance_of() as int, p, b, o)
    }

    /// The context of `o` bytes from `p`, followed by the bits above `b`,
    /// is kept: its bucket holds a state with the same context.
    pub open spec fn occurrence_kept(&self, o: int, b: int, p: int) -> bool {
        let bytes = self.input_of().bytes();
        let max = self.input_of().max();
        let bucket = self.bucket(o, b, context_hash(bytes, p + o, o, b));
        exists|i: int| 0 <= i < bucket.len() && #[trigger] prefix_equal_spec(bytes, max, p, bucket[i].distance_of() as int, b, o)
    }

    /// Every kept state agrees with the naive scan, and every context seen
    /// is kept.
    pub open spec fn mirrors_scan(&self) -> bool {
        &&& forall|o: int, b: int, h: u64, i: int|
            0 <= o <= self.max_order_of() && 0 <= b < 8 && 0 <= i < self.bucket(o, b, h).len() ==> #[trigger] self.kept_state_ok(
                o,
                b,
                h,
                i,
            )
        &&& forall|o: int, b: int, p: int|
            0 <= o <= self.max_order_of() && 0 <= b < 8 && 0 <= p && self.taken(p + o, b) ==> #[trigger] self.occurrence_kept(
                o,
                b,
                p,
            )
    }

    /// The states kept under a key for contexts of `order` bytes followed by
    /// the bits above `bit_index`; none when the key is absent.
    pub closed spec fn bucket(&self, order: int, bit_index: int, hash: u64) -> Seq<ContextState> {
        let m = self.maps@[order * 8 + bit_index]@;
        if m.contains_key(hash) {
            m[hash]@
        } else {
            Seq::empty()
        }
    }

    /// The highest order that the current byte has room for.
    pub open spec fn top_order(&self) -> int {
        let cursor = self.input_of().cursor_of();
        if self.max_order_of() < cursor {
            self.max_order_of()
        } else {
            cursor
        }
    }

    /// The key of the current context of `order` bytes.
    pub open spec fn current_hash(&self, order: int) -> u64 {
        context_hash(self.input_of().bytes(), self.input_of().cursor_of(), order, self.bit_index_of())
    }

    /// The bucket that holds the current context of `order` bytes, if it
    /// was seen.
    pub open spec fn current_bucket(&self, order: int) -> Seq<ContextState> {
        self.bucket(order, self.bit_index_of(), self.current_hash(order))
    }

    /// Where the state of the current context of `order` bytes stands in
    /// its bucket.
    pub open spec fn current_match(&self, order: int) -> Option<int> {
        first_match(
            self.current_bucket(order),
            self.input_of().bytes(),
            self.input_of().max(),
            self.input_of().cursor_of(),
            order,
            self.bit_index_of(),
            self.current_bucket(order).len() as int,
        )
    }

    /// Whether the current context of `order` bytes was seen and is a node.
    pub open spec fn node_at(&self, order: int) -> bool {
        match self.current_match(order) {
            Some(i) => self.current_bucket(order)[i] is ForNode,
            None => false,
        }
    }

    /// The bucket of the current context of `order` bytes after it saw
    /// `bit`: its state steps on (a node takes `trackers[order]`), or a
    /// first state is added.
    pub open spec fn stepped_bucket(&self, order: int, bit: Bit, trackers: Seq<CostTrackers>) -> Seq<ContextState> {
        let bucket = self.current_bucket(order);
        let byte_index = (self.input_of().cursor_of() - order) as usize;
        match self.current_match(order) {
            Some(i) => bucket.update(
                i,
                next_state_spec(
                    bucket[i],
                    byte_index,
                    bit,
                    if bucket[i] is ForNode {
                        Some(trackers[order])
                    } else {
                        None
                    },
                    self.luts_of(),
                ),
            ),
            None => bucket.push(
                ContextState::ForEdge { last_occurrence_distance: byte_index, occurrence_count: 1, repeated_bit: bit },
            ),
        }
    }

    /// The input starts the buffer and has not wrapped around.
    pub closed spec fn window_ok(&self) -> bool {
        &&& self.luts.wf()
        &&& self.input.wf()
        &&& self.input.start_of() == 0
        &&& self.input.bytes().len() == self.input.size_of()
        &&& self.bit_index <= 7
        &&& self.max_order < usize::MAX / 8
    }

    /// The input starts the buffer and has not wrapped around; there is a
    /// map per order and bit position, and every kept state is valid and
    /// occurred before the cursor.
    pub closed spec fn wf(&self) -> bool {
        &&& self.window_ok()
        &&& self.maps.len() == (self.max_order + 1) * 8
        &&& forall|o: int, b: int, h: u64, i: int|
            0 <= o <= self.max_order && 0 <= b < 8 && 0 <= i < self.bucket(o, b, h).len() ==> {
                &&& (#[trigger] self.bucket(o, b, h)[i]).wf()
                &&& self.bucket(o, b, h)[i].distance_of() + o < self.input.bytes().len()
            }
    }

    /// The states that the source gathers are those that the naive scan of
    /// the same input finds: for each order up to the highest, the source
    /// finds the current context exactly when the scan does, with the
    /// scan's state.
    pub proof fn lemma_gather_matches_scan(&self, order: int)
        requires
            self.wf(),
            self.mirrors_scan(),
            self.input_of().size_of() >= 1,
            !self.byte_done_of(),
            0 <= order <= self.top_order(),
        ensures
            ({
                let bytes = self.input_of().bytes();
                let cursor = self.input_of().cursor_of();
                let scan = naive_state(
                    bytes,
                    self.input_of().max(),
                    cursor,
                    order,
                    self.bit_index_of(),
                    self.luts_of(),
                    cursor - order,
                );
                match self.current_match(order) {
                    Some(i) => scan == Some(
                        with_distance(
                            self.current_bucket(order)[i],
                            (cursor - order - self.current_bucket(order)[i].distance_of()) as usize,
                        ),
                    ),
                    None => scan is None,
                }
            }),
    {
        self.lemma_window();
        let bytes = self.input_of().bytes();
        let max = self.input_of().max();
        let c = self.input_of().cursor_of();
        let beta = self.bit_index_of();
        let luts = self.luts_of();
        let h = self.current_hash(order);
        let bucket = self.current_bucket(order);
        let current = c - order;
        lemma_first_match_facts(bucket, bytes, max, c, order, beta, bucket.len() as int, 0);
        match self.current_match(order) {
            Some(j) => {
                assert(self.kept_state_ok(order, beta, h, j));
                let item = bucket[j];
                let p = item.distance_of() as int;
                assert(p < current);
                assert forall|q: int| p + 1 <= q < current implies !#[trigger] prefix_equal_spec(
                    bytes,
                    max,
                    q,
                    current,
                    beta,
                    order,
                ) by {
                    lemma_prefix_equal_chain(bytes, max, q, current, p, beta, order);
                    lemma_prefix_equal_chain(bytes, max, current, p, q, beta, order);
                    assert(self.taken(q + order, beta));
                }
                lemma_naive_skip(bytes, max, c, order, beta, luts, p + 1, current);
                assert forall|q: int| 0 <= q < p + 1 implies #[trigger] prefix_equal_spec(bytes, max, q, p + order - order, beta, order)
                    == prefix_equal_spec(bytes, max, q, c - order, beta, order) by {
                    lemma_prefix_equal_chain(bytes, max, q, p, current, beta, order);
                    lemma_prefix_equal_chain(bytes, max, q, current, p, beta, order);
                    lemma_prefix_equal_chain(bytes, max, current, p, q, beta, order);
                }
                lemma_naive_shift(bytes, max, p + order, c, order, beta, luts, p + 1);
            },
            None => {
                lemma_naive_some(bytes, max, c, order, beta, luts, current);
                if naive_state(bytes, max, c, order, beta, luts, current) is Some {
                    let q = choose|q: int| 0 <= q < current && #[trigger] prefix_equal_spec(bytes, max, q, c - order, beta, order);
                    assert(self.taken(q + order, beta));
                    assert(self.occurrence_kept(order, beta, q));
                    lemma_context_writes_equal(bytes, max, q, current, order, beta);
                    assert(context_hash(bytes, q + order, order, beta) == h);
                    let i = choose|i: int|
                        0 <= i < bucket.len() && #[trigger] prefix_equal_spec(bytes, max, q, bucket[i].distance_of() as int, beta, order);
                    lemma_prefix_equal_chain(bytes, max, current, q, bucket[i].distance_of() as int, beta, order);
                    lemma_prefix_equal_chain(bytes, max, q, current, q, beta, order);
                    lemma_first_match_facts(bucket, bytes, max, c, order, beta, bucket.len() as int, i);
                }
            },
        }
    }

    /// Starting a byte after a complete one keeps the source in step with
    /// the naive scan.
    proof fn lemma_start_keeps_mirror(&self, before: Self)
        requires
            before.wf(),
            before.mirrors_scan(),
            before.byte_done_of() || before.input_of().size_of() == 0,
            self.input_of().wf(),
            self.input_of().bytes() == before.input_of().bytes().push(0u8),
            self.input_of().max() == before.input_of().max(),
            self.max_order_of() == before.max_order_of(),
            self.luts_of() == before.luts_of(),
            !self.byte_done_of(),
            self.bit_index_of() == 7,
            forall|o: int, b: int, h: u64| #[trigger] self.bucket(o, b, h) == before.bucket(o, b, h),
        ensures
            self.mirrors_scan(),
    {
        before.lemma_window();
        let b0 = before.input_of().bytes();
        let b1 = self.input_of().bytes();
        let max = self.input_of().max();
        let len = b0.len() as int;
        assert(len < max) by {
            self.input_of().lemma_wf();
        }
        assert forall|q: int, b: int| 0 <= b < 8 implies #[trigger] self.taken(q, b) == before.taken(q, b) && (self.taken(
            q,
            b,
        ) ==> q < len) by {
        }
        assert(len >= 1 ==> agree_below(b0, b1, len - 1, -1)) by {
            if len >= 1 {
                assert(b1[len - 1] == b0[len - 1]);
            }
        }
        assert forall|o: int, b: int, h: u64, i: int|
            0 <= o <= self.max_order_of() && 0 <= b < 8 && 0 <= i < self.bucket(o, b, h).len() implies #[trigger] self.kept_state_ok(
            o,
            b,
            h,
            i,
        ) by {
            assert(before.kept_state_ok(o, b, h, i));
            let bucket = self.bucket(o, b, h);
            let p = bucket[i].distance_of() as int;
            assert(self.taken(p + o, b));
            lemma_context_writes_frame(b0, b1, p + o, o, b, len - 1, -1);
            lemma_naive_frame(b0, b1, max, p + o, o, b, self.luts_of(), p + 1, len - 1, -1);
            assert forall|p2: int| p < p2 && #[trigger] self.taken(p2 + o, b) implies !prefix_equal_spec(
                b1,
                max,
                p2,
                p,
                b,
                o,
            ) by {
                assert(before.taken(p2 + o, b));
                lemma_prefix_equal_frame(b0, b1, max, len - 1, -1, p2, p, b, o);
            }
            assert forall|j: int| 0 <= j < bucket.len() && j != i implies !prefix_equal_spec(
                b1,
                max,
                #[trigger] bucket[j].distance_of() as int,
                p,
                b,
                o,
            ) by {
                assert(before.kept_state_ok(o, b, h, j));
                assert(self.taken(bucket[j].distance_of() as int + o, b));
                lemma_prefix_equal_frame(b0, b1, max, len - 1, -1, bucket[j].distance_of() as int, p, b, o);
            }
        }
        assert forall|o: int, b: int, p: int|
            0 <= o <= self.max_order_of() && 0 <= b < 8 && 0 <= p && self.taken(p + o, b) implies #[trigger] self.occurrence_kept(
            o,
            b,
            p,
        ) by {
            assert(before.occurrence_kept(o, b, p));
            lemma_context_writes_frame(b0, b1, p + o, o, b, len - 1, -1);
            let hash = context_hash(b0, p + o, o, b);
            let bucket = self.bucket(o, b, hash);
            let i = choose|i: int| 0 <= i < bucket.len() && #[trigger] prefix_equal_spec(b0, max, p, bucket[i].distance_of() as int, b, o);
            assert(before.kept_state_ok(o, b, hash, i));
            lemma_prefix_equal_frame(b0, b1, max, len - 1, -1, p, bucket[i].distance_of() as int, b, o);
            assert(prefix_equal_spec(b1, max, p, bucket[i].distance_of() as int, b, o));
            assert(context_hash(b1, p + o, o, b) == hash);
            assert(self.bucket(o, b, hash) == before.bucket(o, b, hash));
        }
    }

    /// Taking a bit of an incomplete byte, with trackers at their starting
    /// cost, keeps the source in step with the naive scan.
    proof fn lemma_process_keeps_mirror(&self, pre: Self, input_bit: Bit, trackers: Seq<CostTrackers>)
        requires
            pre.wf(),
            pre.mirrors_scan(),
            pre.input_of().size_of() >= 1,
            !pre.byte_done_of(),
            forall|o: int| 0 <= o <= pre.top_order() ==> (#[trigger] pre.node_at(o) <==> o < trackers.len()),
            forall|k: int| 0 <= k < trackers.len() ==> is_default_trackers(#[trigger] trackers[k]),
            self.input_of().bytes() == pre.input_of().bytes().update(
                pre.input_of().cursor_of(),
                with_bit(pre.input_of().bytes()[pre.input_of().cursor_of()], pre.bit_index_of(), input_bit == Bit::One),
            ),
            self.input_of().max() == pre.input_of().max(),
            self.luts_of() == pre.luts_of(),
            self.max_order_of() == pre.max_order_of(),
            self.bit_index_of() == (if pre.bit_index_of() > 0 {
                pre.bit_index_of() - 1
            } else {
                7
            }),
            self.byte_done_of() == (pre.bit_index_of() == 0),
            forall|o: int, b: int, h: u64|
                0 <= o <= pre.max_order_of() && 0 <= b < 8 ==> #[trigger] self.bucket(o, b, h) == (if b
                    == pre.bit_index_of() && o <= pre.top_order() && h == pre.current_hash(o) {
                    pre.stepped_bucket(o, input_bit, trackers)
                } else {
                    pre.bucket(o, b, h)
                }),
        ensures
            self.mirrors_scan(),
    {
        pre.lemma_window();
        pre.luts.lemma_wf();
        let b0 = pre.input_of().bytes();
        let b1 = self.input_of().bytes();
        let max = pre.input_of().max();
        let c = pre.input_of().cursor_of();
        let beta = pre.bit_index_of();
        let luts = pre.luts_of();
        let v = input_bit == Bit::One;
        lemma_with_bit(b0[c], beta, v);
        assert(agree_below(b0, b1, c, beta));
        assert(c >= 1 ==> agree_below(b0, b1, c - 1, -1)) by {
            if c >= 1 {
                assert(b1[c - 1] == b0[c - 1]);
            }
        }
        assert forall|q: int, b: int|
            #![trigger self.taken(q, b)]
            #![trigger pre.taken(q, b)]
            0 <= b < 8 implies self.taken(q, b) == (pre.taken(q, b) || (q == c && b == beta)) && (pre.taken(q, b) ==> q
                <= c && (q == c ==> b > beta)) by {
        }
        assert forall|o: int, b: int, h: u64, i: int|
            0 <= o <= self.max_order_of() && 0 <= b < 8 && 0 <= i < self.bucket(o, b, h).len() implies #[trigger] self.kept_state_ok(
            o,
            b,
            h,
            i,
        ) by {
            self.lemma_process_keeps_state(pre, input_bit, trackers, o, b, h, i);
        }
        assert forall|o: int, b: int, p: int|
            0 <= o <= self.max_order_of() && 0 <= b < 8 && 0 <= p && self.taken(p + o, b) implies #[trigger] self.occurrence_kept(
            o,
            b,
            p,
        ) by {
            self.lemma_process_keeps_occurrence(pre, input_bit, trackers, o, b, p);
        }
    }

    /// A context seen before a bit is taken, or at it, is kept after it.
    proof fn lemma_process_keeps_occurrence(
        &self,
        pre: Self,
        input_bit: Bit,
        trackers: Seq<CostTrackers>,
        o: int,
        b: int,
        p: int,
    )
        requires
            pre.wf(),
            pre.mirrors_scan(),
            pre.input_of().size_of() >= 1,
            !pre.byte_done_of(),
            self.input_of().bytes() == pre.input_of().bytes().update(
                pre.input_of().cursor_of(),
                with_bit(pre.input_of().bytes()[pre.input_of().cursor_of()], pre.bit_index_of(), input_bit == Bit::One),
            ),
            self.input_of().max() == pre.input_of().max(),
            self.max_order_of() == pre.max_order_of(),
            agree_below(pre.input_of().bytes(), self.input_of().bytes(), pre.input_of().cursor_of(), pre.bit_index_of()),
            pre.input_of().cursor_of() >= 1 ==> agree_below(
                pre.input_of().bytes(),
                self.input_of().bytes(),
                pre.input_of().cursor_of() - 1,
                -1,
            ),
            forall|q: int, bb: int|
                #![trigger self.taken(q, bb)]
                #![trigger pre.taken(q, bb)]
                0 <= bb < 8 ==> self.taken(q, bb) == (pre.taken(q, bb) || (q == pre.input_of().cursor_of() && bb
                    == pre.bit_index_of())) && (pre.taken(q, bb) ==> q <= pre.input_of().cursor_of() && (q
                    == pre.input_of().cursor_of() ==> bb > pre.bit_index_of())),
            forall|oo: int, bb: int, hh: u64|
                0 <= oo <= pre.max_order_of() && 0 <= bb < 8 ==> #[trigger] self.bucket(oo, bb, hh) == (if bb
                    == pre.bit_index_of() && oo <= pre.top_order() && hh == pre.current_hash(oo) {
                    pre.stepped_bucket(oo, input_bit, trackers)
                } else {
                    pre.bucket(oo, bb, hh)
                }),
            0 <= o <= self.max_order_of(),
            0 <= b < 8,
            0 <= p,
            self.taken(p + o, b),
        ensures
            self.occurrence_kept(o, b, p),
    {
        pre.lemma_window();
        let b0 = pre.input_of().bytes();
        let b1 = self.input_of().bytes();
        let max = pre.input_of().max();
        let c = pre.input_of().cursor_of();
        let beta = pre.bit_index_of();
        let hash1 = context_hash(b1, p + o, o, b);
        if pre.taken(p + o, b) {
            let hash = context_hash(b0, p + o, o, b);
            if p + o < c {
                lemma_context_writes_frame(b0, b1, p + o, o, b, c - 1, -1);
            } else {
                lemma_context_writes_frame(b0, b1, p + o, o, b, c, beta);
            }
            assert(hash1 == hash);
            assert(pre.occurrence_kept(o, b, p));
            let bucket = pre.bucket(o, b, hash);
            let i = choose|i: int| 0 <= i < bucket.len() && #[trigger] prefix_equal_spec(b0, max, p, bucket[i].distance_of() as int, b, o);
            assert(pre.kept_state_ok(o, b, hash, i));
            let pi = bucket[i].distance_of() as int;
            if p + o < c && pi + o < c {
                lemma_prefix_equal_frame(b0, b1, max, c - 1, -1, p, pi, b, o);
            } else {
                lemma_prefix_equal_frame(b0, b1, max, c, beta, p, pi, b, o);
            }
            let after = self.bucket(o, b, hash);
            if b == beta && o <= pre.top_order() && hash == pre.current_hash(o) {
                let current = c - o;
                lemma_first_match_facts(bucket, b0, max, c, o, beta, bucket.len() as int, 0);
                match pre.current_match(o) {
                    Some(j) => {
                        if i == j {
                            assert(bucket[j].wf());
                            pre.luts.lemma_wf();
                            lemma_next_state_spec(
                                bucket[j],
                                current as usize,
                                input_bit,
                                if bucket[j] is ForNode {
                                    Some(trackers[o])
                                } else {
                                    None
                                },
                                pre.luts_of(),
                            );
                            lemma_prefix_equal_chain(b0, max, p, pi, current, b, o);
                            lemma_prefix_equal_chain(b0, max, current, pi, current, b, o);
                            lemma_prefix_equal_frame(b0, b1, max, c, beta, p, current, b, o);
                            assert(after[i].distance_of() == current);
                            assert(prefix_equal_spec(b1, max, p, after[i].distance_of() as int, b, o));
                        } else {
                            assert(after[i] == bucket[i]);
                            assert(prefix_equal_spec(b1, max, p, after[i].distance_of() as int, b, o));
                        }
                    },
                    None => {
                        assert(after[i] == bucket[i]);
                        assert(prefix_equal_spec(b1, max, p, after[i].distance_of() as int, b, o));
                    },
                }
            } else {
                assert(after == bucket);
                assert(prefix_equal_spec(b1, max, p, after[i].distance_of() as int, b, o));
            }
        } else {
            assert(p + o == c && b == beta);
            let current = c - o;
            assert(o <= pre.top_order());
            lemma_context_writes_frame(b0, b1, c, o, beta, c, beta);
            assert(hash1 == pre.current_hash(o));
            let bucket = pre.current_bucket(o);
            let after = self.bucket(o, b, hash1);
            lemma_first_match_facts(bucket, b0, max, c, o, beta, bucket.len() as int, 0);
            let k = match pre.current_match(o) {
                Some(j) => j,
                None => bucket.len() as int,
            };
            if let Some(j) = pre.current_match(o) {
                assert(bucket[j].wf());
                pre.luts.lemma_wf();
                lemma_next_state_spec(
                    bucket[j],
                    current as usize,
                    input_bit,
                    if bucket[j] is ForNode {
                        Some(trackers[o])
                    } else {
                        None
                    },
                    pre.luts_of(),
                );
            }
            assert(after[k].distance_of() == current);
            assert forall|kk: int| 0 <= kk <= o implies #[trigger] wrap(current + kk, max) == current + kk by {
                lemma_wrap_small(current + kk, max);
            }
            assert(prefix_equal_spec(b1, max, p, after[k].distance_of() as int, b, o));
        }
    }

    /// Where the state of the current context of `o` bytes stands after
    /// the bit: at its old place, or after the old states; the other states
    /// stay.
    pub open spec fn stepped_index(&self, o: int) -> int {
        match self.current_match(o) {
            Some(j) => j,
            None => self.current_bucket(o).len() as int,
        }
    }

    /// How a bucket changes when the current context of `o` bytes sees a
    /// bit.
    proof fn lemma_stepped_entry(&self, o: int, input_bit: Bit, trackers: Seq<CostTrackers>)
        requires
            self.wf(),
            self.input_of().size_of() >= 1,
            0 <= o <= self.top_order(),
        ensures
            ({
                let old_bucket = self.current_bucket(o);
                let new_bucket = self.stepped_bucket(o, input_bit, trackers);
                let k = self.stepped_index(o);
                &&& 0 <= k <= old_bucket.len()
                &&& k < new_bucket.len()
                &&& new_bucket.len() == old_bucket.len() + (if k == old_bucket.len() {
                    1int
                } else {
                    0
                })
                &&& new_bucket[k].distance_of() == self.input_of().cursor_of() - o
                &&& forall|m: int| 0 <= m < new_bucket.len() && m != k ==> #[trigger] new_bucket[m] == old_bucket[m]
                &&& self.current_match(o) is None ==> k == old_bucket.len()
                &&& self.current_match(o) matches Some(j) ==> k == j && k < old_bucket.len()
            }),
    {
        self.lemma_window();
        self.luts.lemma_wf();
        let old_bucket = self.current_bucket(o);
        lemma_first_match_facts(
            old_bucket,
            self.input_of().bytes(),
            self.input_of().max(),
            self.input_of().cursor_of(),
            o,
            self.bit_index_of(),
            old_bucket.len() as int,
            0,
        );
        if let Some(j) = self.current_match(o) {
            assert(old_bucket[j] == self.bucket(o, self.bit_index_of(), self.current_hash(o))[j]);
            assert(old_bucket[j].wf());
            lemma_next_state_spec(
                old_bucket[j],
                (self.input_of().cursor_of() - o) as usize,
                input_bit,
                if old_bucket[j] is ForNode {
                    Some(trackers[o])
                } else {
                    None
                },
                self.luts_of(),
            );
        }
    }

    /// A state kept after a bit is taken agrees with the naive scan.
    proof fn lemma_process_keeps_state(
        &self,
        pre: Self,
        input_bit: Bit,
        trackers: Seq<CostTrackers>,
        o: int,
        b: int,
        h: u64,
        i: int,
    )
        requires
            pre.wf(),
            pre.mirrors_scan(),
            pre.input_of().size_of() >= 1,
            !pre.byte_done_of(),
            forall|oo: int| 0 <= oo <= pre.top_order() ==> (#[trigger] pre.node_at(oo) <==> oo < trackers.len()),
            forall|k: int| 0 <= k < trackers.len() ==> is_default_trackers(#[trigger] trackers[k]),
            self.input_of().bytes() == pre.input_of().bytes().update(
                pre.input_of().cursor_of(),
                with_bit(pre.input_of().bytes()[pre.input_of().cursor_of()], pre.bit_index_of(), input_bit == Bit::One),
            ),
            self.input_of().max() == pre.input_of().max(),
            self.luts_of() == pre.luts_of(),
            self.max_order_of() == pre.max_order_of(),
            agree_below(pre.input_of().bytes(), self.input_of().bytes(), pre.input_of().cursor_of(), pre.bit_index_of()),
            pre.input_of().cursor_of() >= 1 ==> agree_below(
                pre.input_of().bytes(),
                self.input_of().bytes(),
                pre.input_of().cursor_of() - 1,
                -1,
            ),
            bit_of(self.input_of().bytes()[pre.input_of().cursor_of()], pre.bit_index_of()) == (input_bit == Bit::One),
            forall|q: int, bb: int|
                #![trigger self.taken(q, bb)]
                #![trigger pre.taken(q, bb)]
                0 <= bb < 8 ==> self.taken(q, bb) == (pre.taken(q, bb) || (q == pre.input_of().cursor_of() && bb
                    == pre.bit_index_of())) && (pre.taken(q, bb) ==> q <= pre.input_of().cursor_of() && (q
                    == pre.input_of().cursor_of() ==> bb > pre.bit_index_of())),
            forall|oo: int, bb: int, hh: u64|
                0 <= oo <= pre.max_order_of() && 0 <= bb < 8 ==> #[trigger] self.bucket(oo, bb, hh) == (if bb
                    == pre.bit_index_of() && oo <= pre.top_order() && hh == pre.current_hash(oo) {
                    pre.stepped_bucket(oo, input_bit, trackers)
                } else {
                    pre.bucket(oo, bb, hh)
                }),
            0 <= o <= self.max_order_of(),
            0 <= b < 8,
            0 <= i < self.bucket(o, b, h).len(),
        ensures
            self.kept_state_ok(o, b, h, i),
    {
        let stepped = b == pre.bit_index_of() && o <= pre.top_order() && h == pre.current_hash(o);
        if stepped {
            pre.lemma_stepped_entry(o, input_bit, trackers);
        }
        if stepped && i == pre.stepped_index(o) {
            self.lemma_process_keeps_stepped_state(pre, input_bit, trackers, o, b, h, i);
        } else {
            self.lemma_process_keeps_other_state(pre, input_bit, trackers, o, b, h, i);
        }
    }

    /// A state kept before a bit is taken, and not stepped on, still agrees
    /// with the naive scan.
    proof fn lemma_process_keeps_other_state(
        &self,
        pre: Self,
        input_bit: Bit,
        trackers: Seq<CostTrackers>,
        o: int,
        b: int,
        h: u64,
        i: int,
    )
        requires
            pre.wf(),
            pre.mirrors_scan(),
            pre.input_of().size_of() >= 1,
            !pre.byte_done_of(),
            forall|oo: int| 0 <= oo <= pre.top_order() ==> (#[trigger] pre.node_at(oo) <==> oo < trackers.len()),
            forall|k: int| 0 <= k < trackers.len() ==> is_default_trackers(#[trigger] trackers[k]),
            self.input_of().bytes() == pre.input_of().bytes().update(
                pre.input_of().cursor_of(),
                with_bit(pre.input_of().bytes()[pre.input_of().cursor_of()], pre.bit_index_of(), input_bit == Bit::One),
            ),
            self.input_of().max() == pre.input_of().max(),
            self.luts_of() == pre.luts_of(),
            self.max_order_of() == pre.max_order_of(),
            agree_below(pre.input_of().bytes(), self.input_of().bytes(), pre.input_of().cursor_of(), pre.bit_index_of()),
            pre.input_of().cursor_of() >= 1 ==> agree_below(
                pre.input_of().bytes(),
                self.input_of().bytes(),
                pre.input_of().cursor_of() - 1,
                -1,
            ),
            bit_of(self.input_of().bytes()[pre.input_of().cursor_of()], pre.bit_index_of()) == (input_bit == Bit::One),
            forall|q: int, bb: int|
                #![trigger self.taken(q, bb)]
                #![trigger pre.taken(q, bb)]
                0 <= bb < 8 ==> self.taken(q, bb) == (pre.taken(q, bb) || (q == pre.input_of().cursor_of() && bb
                    == pre.bit_index_of())) && (pre.taken(q, bb) ==> q <= pre.input_of().cursor_of() && (q
                    == pre.input_of().cursor_of() ==> bb > pre.bit_index_of())),
            forall|oo: int, bb: int, hh: u64|
                0 <= oo <= pre.max_order_of() && 0 <= bb < 8 ==> #[trigger] self.bucket(oo, bb, hh) == (if bb
                    == pre.bit_index_of() && oo <= pre.top_order() && hh == pre.current_hash(oo) {
                    pre.stepped_bucket(oo, input_bit, trackers)
                } else {
                    pre.bucket(oo, bb, hh)
                }),
            0 <= o <= self.max_order_of(),
            0 <= b < 8,
            0 <= i < self.bucket(o, b, h).len(),
            b == pre.bit_index_of() && o <= pre.top_order() && h == pre.current_hash(o) ==> i != pre.stepped_index(o),
        ensures
            self.kept_state_ok(o, b, h, i),
    {
        pre.lemma_window();
        let b0 = pre.input_of().bytes();
        let b1 = self.input_of().bytes();
        let max = pre.input_of().max();
        let c = pre.input_of().cursor_of();
        let beta = pre.bit_index_of();
        let luts = pre.luts_of();
        let old_bucket = pre.bucket(o, b, h);
        let after = self.bucket(o, b, h);
        let stepped = b == beta && o <= pre.top_order() && h == pre.current_hash(o);
        let current = c - o;
        if stepped {
            pre.lemma_stepped_entry(o, input_bit, trackers);
        }
        assert(i < old_bucket.len() && after[i] == old_bucket[i]);
        assert(pre.kept_state_ok(o, b, h, i));
        let p = old_bucket[i].distance_of() as int;
        assert(pre.taken(p + o, b));
        if p + o < c {
            lemma_context_writes_frame(b0, b1, p + o, o, b, c - 1, -1);
            lemma_naive_frame(b0, b1, max, p + o, o, b, luts, p + 1, c - 1, -1);
        } else {
            lemma_context_writes_frame(b0, b1, p + o, o, b, c, beta);
            lemma_naive_frame(b0, b1, max, p + o, o, b, luts, p + 1, c, beta);
        }
        // The state's context is not the one just seen.
        assert(b == beta && o <= c ==> !prefix_equal_spec(b0, max, current, p, b, o)) by {
            if b == beta && o <= c && prefix_equal_spec(b0, max, current, p, b, o) {
                assert(o <= pre.top_order());
                lemma_context_writes_equal(b0, max, current, p, o, b);
                assert(h == pre.current_hash(o));
                pre.lemma_stepped_entry(o, input_bit, trackers);
                lemma_first_match_facts(old_bucket, b0, max, c, o, beta, old_bucket.len() as int, i);
                if let Some(j) = pre.current_match(o) {
                    assert(pre.kept_state_ok(o, b, h, j));
                    lemma_prefix_equal_chain(b0, max, old_bucket[j].distance_of() as int, current, p, b, o);
                    lemma_prefix_equal_chain(b0, max, current, old_bucket[j].distance_of() as int, current, b, o);
                }
            }
        }
        assert(p + o <= c && (p + o == c ==> b > beta));
        assert(c < max);
        assert forall|p2: int| p < p2 && #[trigger] self.taken(p2 + o, b) implies !prefix_equal_spec(b1, max, p2, p, b, o) by {
            if pre.taken(p2 + o, b) {
                assert(!prefix_equal_spec(b0, max, p2, p, b, o));
                assert(p2 + o <= c && (p2 + o == c ==> b > beta));
                if p2 + o < c && p + o < c {
                    lemma_prefix_equal_frame(b0, b1, max, c - 1, -1, p2, p, b, o);
                } else {
                    lemma_prefix_equal_frame(b0, b1, max, c, beta, p2, p, b, o);
                }
            } else {
                assert(p2 == current && b == beta);
                assert(!prefix_equal_spec(b0, max, current, p, b, o));
                lemma_prefix_equal_frame(b0, b1, max, c, beta, p2, p, b, o);
            }
        }
        assert forall|j: int| 0 <= j < after.len() && j != i implies !prefix_equal_spec(
            b1,
            max,
            #[trigger] after[j].distance_of() as int,
            p,
            b,
            o,
        ) by {
            let pj = after[j].distance_of() as int;
            if stepped && j == pre.stepped_index(o) {
                assert(pj == current);
                lemma_prefix_equal_chain(b0, max, current, p, current, b, o);
                lemma_prefix_equal_frame(b0, b1, max, c, beta, current, p, b, o);
            } else {
                assert(j < old_bucket.len() && after[j] == old_bucket[j]);
                assert(pre.kept_state_ok(o, b, h, j));
                if pj + o < c && p + o < c {
                    lemma_prefix_equal_frame(b0, b1, max, c - 1, -1, pj, p, b, o);
                } else {
                    lemma_prefix_equal_frame(b0, b1, max, c, beta, pj, p, b, o);
                }
            }
        }
    }

    /// The state of the context just seen agrees with the naive scan.
    proof fn lemma_process_keeps_stepped_state(
        &self,
        pre: Self,
        input_bit: Bit,
        trackers: Seq<CostTrackers>,
        o: int,
        b: int,
        h: u64,
        i: int,
    )
        requires
            pre.wf(),
            pre.mirrors_scan(),
            pre.input_of().size_of() >= 1,
            !pre.byte_done_of(),
            forall|oo: int| 0 <= oo <= pre.top_order() ==> (#[trigger] pre.node_at(oo) <==> oo < trackers.len()),
            forall|k: int| 0 <= k < trackers.len() ==> is_default_trackers(#[trigger] trackers[k]),
            self.input_of().bytes() == pre.input_of().bytes().update(
                pre.input_of().cursor_of(),
                with_bit(pre.input_of().bytes()[pre.input_of().cursor_of()], pre.bit_index_of(), input_bit == Bit::One),
            ),
            self.input_of().max() == pre.input_of().max(),
            self.luts_of() == pre.luts_of(),
            self.max_order_of() == pre.max_order_of(),
            agree_below(pre.input_of().bytes(), self.input_of().bytes(), pre.input_of().cursor_of(), pre.bit_index_of()),
            pre.input_of().cursor_of() >= 1 ==> agree_below(
                pre.input_of().bytes(),
                self.input_of().bytes(),
                pre.input_of().cursor_of() - 1,
                -1,
            ),
            bit_of(self.input_of().bytes()[pre.input_of().cursor_of()], pre.bit_index_of()) == (input_bit == Bit::One),
            forall|q: int, bb: int|
                #![trigger self.taken(q, bb)]
                #![trigger pre.taken(q, bb)]
                0 <= bb < 8 ==> self.taken(q, bb) == (pre.taken(q, bb) || (q == pre.input_of().cursor_of() && bb
                    == pre.bit_index_of())) && (pre.taken(q, bb) ==> q <= pre.input_of().cursor_of() && (q
                    == pre.input_of().cursor_of() ==> bb > pre.bit_index_of())),
            forall|oo: int, bb: int, hh: u64|
                0 <= oo <= pre.max_order_of() && 0 <= bb < 8 ==> #[trigger] self.bucket(oo, bb, hh) == (if bb
                    == pre.bit_index_of() && oo <= pre.top_order() && hh == pre.current_hash(oo) {
                    pre.stepped_bucket(oo, input_bit, trackers)
                } else {
                    pre.bucket(oo, bb, hh)
                }),
            0 <= o <= self.max_order_of(),
            0 <= b < 8,
            b == pre.bit_index_of(),
            o <= pre.top_order(),
            h == pre.current_hash(o),
            i == pre.stepped_index(o),
        ensures
            self.kept_state_ok(o, b, h, i),
    {
        pre.lemma_window();
        pre.luts.lemma_wf();
        let b0 = pre.input_of().bytes();
        let b1 = self.input_of().bytes();
        let max = pre.input_of().max();
        let c = pre.input_of().cursor_of();
        let beta = pre.bit_index_of();
        let luts = pre.luts_of();
        let old_bucket = pre.bucket(o, b, h);
        let after = self.bucket(o, b, h);
        let current = c - o;
        pre.lemma_stepped_entry(o, input_bit, trackers);
        lemma_first_match_facts(old_bucket, b0, max, c, o, beta, old_bucket.len() as int, 0);
        pre.lemma_gather_matches_scan(o);
        lemma_context_writes_frame(b0, b1, c, o, beta, c, beta);
        lemma_naive_frame(b0, b1, max, c, o, beta, luts, current, c, beta);
        assert forall|kk: int| 0 <= kk <= o implies #[trigger] wrap(current + kk, max) == current + kk by {
            lemma_wrap_small(current + kk, max);
        }
        assert(prefix_equal_spec(b1, max, current, current, beta, o));
        assert(b1[current + o] == b1[c]);
        assert(Bit::of_bool(bit_of(b1[current + o], beta)) == input_bit);
        assert(after[i].distance_of() == current);
        match pre.current_match(o) {
            Some(j) => {
                let item = old_bucket[j];
                assert(pre.kept_state_ok(o, b, h, j));
                let pj = item.distance_of() as int;
                assert(item == pre.bucket(o, b, h)[j]);
                assert(item.wf());
                let cost = if item is ForNode {
                    Some(trackers[o])
                } else {
                    None::<CostTrackers>
                };
                if item is ForNode {
                    assert(pre.node_at(o));
                    lemma_default_trackers_unique(trackers[o]);
                }
                lemma_next_state_distances(item, (current - pj) as usize, 0, current as usize, input_bit, cost, luts);
                lemma_next_state_distances(item, (current - pj) as usize, current as usize, 0, input_bit, cost, luts);
                assert(naive_state(b1, max, c, o, beta, luts, current + 1) == Some(with_distance(after[i], 0)));
                assert forall|j2: int| 0 <= j2 < after.len() && j2 != i implies !prefix_equal_spec(
                    b1,
                    max,
                    #[trigger] after[j2].distance_of() as int,
                    current,
                    b,
                    o,
                ) by {
                    assert(after[j2] == old_bucket[j2]);
                    let q = old_bucket[j2].distance_of() as int;
                    assert(pre.kept_state_ok(o, b, h, j2));
                    lemma_prefix_equal_chain(b0, max, q, current, pj, b, o);
                    lemma_prefix_equal_frame(b0, b1, max, c, beta, q, current, b, o);
                }
            },
            None => {
                assert(naive_state(b1, max, c, o, beta, luts, current + 1) == Some(with_distance(after[i], 0)));
                assert forall|j2: int| 0 <= j2 < after.len() && j2 != i implies !prefix_equal_spec(
                    b1,
                    max,
                    #[trigger] after[j2].distance_of() as int,
                    current,
                    b,
                    o,
                ) by {
                    assert(after[j2] == old_bucket[j2]);
                    let q = old_bucket[j2].distance_of() as int;
                    assert(pre.kept_state_ok(o, b, h, j2));
                    lemma_first_match_facts(old_bucket, b0, max, c, o, beta, old_bucket.len() as int, j2);
                    lemma_prefix_equal_chain(b0, max, q, current, q, b, o);
                    lemma_prefix_equal_frame(b0, b1, max, c, beta, q, current, b, o);
                }
            },
        }
    }

    proof fn lemma_window(&self)
        requires
            self.window_ok(),
        ensures
            self.input_of().size_of() >= 1 ==> self.input_of().cursor_of() + 1 == self.input_of().bytes().len(),
            self.input_of().bytes().len() <= self.input_of().max(),
            0 < self.input_of().max() <= isize::MAX,
    {
        self.input.lemma_wf();
    }

    /// A source over an input of at most `max_window_size` bytes, with
    /// contexts up to `max_order`.
    pub fn new(max_window_size: usize, max_order: usize, luts: &'a LookUpTables) -> (r: Self)
        requires
            0 < max_window_size <= isize::MAX,
            max_order < usize::MAX / 8,
            luts.wf(),
        ensures
            r.wf(),
            r.luts_of() == *luts,
            r.bit_index_of() == 7,
            r.max_order_of() == max_order,
            r.input_of().size_of() == 0,
            r.input_of().max() == max_window_size,
            forall|o: int, b: int, h: u64|
                0 <= o <= max_order && 0 <= b < 8 ==> #[trigger] r.bucket(o, b, h) == Seq::<ContextState>::empty(),
            r.byte_done_of(),
            r.mirrors_scan(),
    {
        let count = (max_order + 1) * 8;
        let mut maps: Vec<HashMap<u64, Vec<ContextState>>> = Vec::new();
        let mut k: usize = 0;
        while k < count
            invariant
                k <= count,
                maps.len() == k,
                forall|s: int| 0 <= s < k ==> (#[trigger] maps@[s])@ == Map::<u64, Vec<ContextState>>::empty(),
            decreases count - k,
        {
            maps.push(HashMap::new());
            k += 1;
        }
        let r = FatMapHistorySource {
            luts,
            input: InputWindow::new(max_window_size, 0),
            bit_index: 7,
            max_order,
            maps,
            byte_done: Ghost(true),
        };
        proof {
            assert forall|o: int, b: int, h: u64| 0 <= o <= max_order && 0 <= b < 8 implies #[trigger] r.bucket(o, b, h)
                == Seq::<ContextState>::empty() by {
                assert(0 <= o * 8 + b < count);
                assert(maps@[o * 8 + b]@ == Map::<u64, Vec<ContextState>>::empty());
            }
        }
        r
    }

    /// Starts the next byte; the input must have room for it.
    pub fn start_new_byte(&mut self)
        requires
            old(self).wf(),
            old(self).bit_index_of() == 7,
            old(self).input_of().size_of() < old(self).input_of().max(),
        ensures
            final(self).wf(),
            final(self).bit_index_of() == 7,
            final(self).luts_of() == old(self).luts_of(),
            final(self).max_order_of() == old(self).max_order_of(),
            final(self).input_of().bytes() == old(self).input_of().bytes().push(0u8),
            final(self).input_of().max() == old(self).input_of().max(),
            forall|o: int, b: int, h: u64| #[trigger] final(self).bucket(o, b, h) == old(self).bucket(o, b, h),
            !final(self).byte_done_of(),
            old(self).mirrors_scan() && (old(self).byte_done_of() || old(self).input_of().size_of() == 0)
                ==> final(self).mirrors_scan(),
    {
        proof {
            self.input.lemma_wf();
        }
        let ghost before = *self;
        self.input.advance_cursor();
        self.byte_done = Ghost(false);
        proof {
            if before.mirrors_scan() && (before.byte_done_of() || before.input_of().size_of() == 0) {
                self.lemma_start_keeps_mirror(before);
            }
            assert forall|o: int, b: int, h: u64, i: int|
                0 <= o <= self.max_order && 0 <= b < 8 && 0 <= i < self.bucket(o, b, h).len() implies {
                &&& (#[trigger] self.bucket(o, b, h)[i]).wf()
                &&& self.bucket(o, b, h)[i].distance_of() + o < self.input.bytes().len()
            } by {
                assert(self.bucket(o, b, h) == before.bucket(o, b, h));
                assert(before.bucket(o, b, h)[i] == self.bucket(o, b, h)[i]);
            }
        }
    }

    /// The key of the current context of `order` bytes.
    fn compute_hash(&self, order: usize) -> (r: u64)
        requires
            self.window_ok(),
            self.input_of().size_of() >= 1,
            order <= self.input_of().cursor_of(),
        ensures
            r == self.current_hash(order as int),
    {
        proof {
            self.lemma_window();
        }
        let ghost bytes = self.input.bytes();
        let cursor = self.input.cursor();
        let ghost c = cursor.index() as int;
        let ghost writes = Seq::new(order as nat, |k: int| seq![bytes[c - order + k]]);
        let mut hasher = DefaultHasher::new();
        let mut distance: usize = order;
        while distance > 0
            invariant
                self.window_ok(),
                bytes == self.input.bytes(),
                c == self.input.cursor_of(),
                c + 1 == bytes.len(),
                cursor.index() == c,
                distance <= order <= c,
                writes == Seq::new(order as nat, |k: int| seq![bytes[c - order + k]]),
                hasher@ == writes.take(order - distance),
            decreases distance,
        {
            let index = self.input.index_subtract(cursor, distance);
            let byte = self.input.at(index);
            let chunk = [byte];
            proof {
                assert(chunk@ =~= seq![byte]);
            }
            hasher.write(chunk.as_slice());
            proof {
                assert(writes.take(order - distance + 1) =~= writes.take(order - distance).push(seq![byte]));
            }
            distance -= 1;
        }
        let current = self.input.at(cursor);
        let shift = (self.bit_index + 1) as u16;
        let tail: u16 = (256 + current as u16) >> shift;
        proof {
            lemma_u16_shr_is_div((256 + current as u16) as u16, shift);
            lemma2_to64();
            assert(tail == partial_byte(current, self.bit_index as int));
            assert(writes.take(order as int) =~= writes);
        }
        let low = tail as u8;
        let high = (tail >> 8) as u8;
        let chunk = [low, high];
        proof {
            assert(tail as u8 == (tail % 256) as u8) by (bit_vector);
            assert((tail >> 8) as u8 == (tail / 256) as u8) by (bit_vector);
            assert(chunk@ =~= seq![(tail % 256) as u8, (tail / 256) as u8]);
        }
        hasher.write(chunk.as_slice());
        proof {
            assert(hasher@ =~= context_writes(bytes, c, order as int, self.bit_index as int));
        }
        hasher.finish()
    }

    /// Where the state of the current context of `order` bytes stands in a
    /// bucket, if it is there.
    fn find_match(&self, bucket: &Vec<ContextState>, order: usize) -> (r: Option<usize>)
        requires
            self.window_ok(),
            self.input_of().size_of() >= 1,
            order <= self.input_of().cursor_of(),
            forall|i: int| 0 <= i < bucket@.len() ==> (#[trigger] bucket@[i]).distance_of() + order < self.input_of().bytes().len(),
        ensures
            first_match(
                bucket@,
                self.input_of().bytes(),
                self.input_of().max(),
                self.input_of().cursor_of(),
                order as int,
                self.bit_index_of(),
                bucket@.len() as int,
            ) == (match r {
                Some(i) => Some(i as int),
                None => None::<int>,
            }),
            r matches Some(i) ==> i < bucket@.len(),
    {
        proof {
            self.lemma_window();
        }
        let ghost bytes = self.input.bytes();
        let ghost max = self.input.max();
        let cursor = self.input.cursor();
        let current = self.input.index_subtract(cursor, order);
        let mut j: usize = 0;
        while j < bucket.len()
            invariant
                self.window_ok(),
                bytes == self.input.bytes(),
                max == self.input.max(),
                cursor.index() == self.input.cursor_of(),
                cursor.index() + 1 == bytes.len(),
                bytes.len() <= max,
                order <= cursor.index(),
                current.index() == cursor.index() - order,
                j <= bucket@.len(),
                forall|i: int| 0 <= i < bucket@.len() ==> (#[trigger] bucket@[i]).distance_of() + order < bytes.len(),
                first_match(bucket@, bytes, max, cursor.index() as int, order as int, self.bit_index as int, j as int) is None,
            decreases bucket@.len() - j,
        {
            let occurrence = WindowIndex::new(bucket[j].last_occurrence_distance());
            let here = self.input.compare_for_equal_prefix(current, occurrence, self.bit_index, order);
            if here {
                proof {
                    lemma_first_match_stays(bucket@, bytes, max, cursor.index() as int, order as int, self.bit_index as int, j + 1, bucket@.len() as int);
                }
                return Some(j);
            }
            j += 1;
        }
        None
    }

    /// The states of the contexts of the next bit, from order 0 up to the
    /// first order never seen (or the highest order), each with its
    /// distance back to its last occurrence.
    pub fn gather_history_states(&self, bit_histories: &mut CollectedContextStates)
        requires
            self.wf(),
            self.input_of().size_of() >= 1,
            old(bit_histories).items_view().len() == 0,
            old(bit_histories).limit_of() == self.max_order_of() + 1,
        ensures
            final(bit_histories).limit_of() == old(bit_histories).limit_of(),
            final(bit_histories).items_view().len() <= self.top_order() + 1,
            forall|o: int|
                0 <= o < final(bit_histories).items_view().len() ==> (self.current_match(o) matches Some(i) && (
                #[trigger] final(bit_histories).items_view()[o]) == with_distance(
                    self.current_bucket(o)[i],
                    (self.input_of().cursor_of() - o - self.current_bucket(o)[i].distance_of()) as usize,
                )),
            final(bit_histories).items_view().len() <= self.top_order() ==> self.current_match(
                final(bit_histories).items_view().len() as int,
            ) is None,
    {
        proof {
            self.lemma_window();
        }
        let cursor = self.input.cursor();
        let top = if self.max_order < cursor.raw() {
            self.max_order
        } else {
            cursor.raw()
        };
        let mut order: usize = 0;
        while order <= top
            invariant
                self.wf(),
                self.input_of().size_of() >= 1,
                cursor.index() == self.input_of().cursor_of(),
                cursor.index() + 1 == self.input_of().bytes().len(),
                top == self.top_order(),
                top <= self.max_order,
                order <= top + 1,
                bit_histories.limit_of() == self.max_order + 1,
                bit_histories.items_view().len() == order,
                forall|o: int|
                    0 <= o < order ==> (self.current_match(o) matches Some(i) && (
                    #[trigger] bit_histories.items_view()[o]) == with_distance(
                        self.current_bucket(o)[i],
                        (self.input_of().cursor_of() - o - self.current_bucket(o)[i].distance_of()) as usize,
                    )),
            ensures
                bit_histories.limit_of() == self.max_order + 1,
                bit_histories.items_view().len() <= top + 1,
                forall|o: int|
                    0 <= o < bit_histories.items_view().len() ==> (self.current_match(o) matches Some(i) && (
                    #[trigger] bit_histories.items_view()[o]) == with_distance(
                        self.current_bucket(o)[i],
                        (self.input_of().cursor_of() - o - self.current_bucket(o)[i].distance_of()) as usize,
                    )),
                bit_histories.items_view().len() <= top ==> self.current_match(bit_histories.items_view().len() as int) is None,
            decreases top + 1 - order,
        {
            let hash = self.compute_hash(order);
            let slot = order * 8 + self.bit_index;
            let found = match self.maps[slot].get(&hash) {
                Some(bucket) => {
                    proof {
                        assert(bucket@ == self.current_bucket(order as int));
                        assert forall|i: int| 0 <= i < bucket@.len() implies (#[trigger] bucket@[i]).distance_of() + order
                            < self.input_of().bytes().len() by {
                            assert(self.bucket(order as int, self.bit_index as int, hash)[i] == bucket@[i]);
                        }
                    }
                    match self.find_match(bucket, order) {
                        Some(i) => {
                            let ctx = bucket[i];
                            proof {
                                assert(self.bucket(order as int, self.bit_index as int, hash)[i as int] == ctx);
                            }
                            let actual_distance = cursor.raw() - order - ctx.last_occurrence_distance();
                            Some(
                                match ctx {
                                    ContextState::ForEdge { occurrence_count, repeated_bit, .. } => ContextState::ForEdge {
                                        last_occurrence_distance: actual_distance,
                                        occurrence_count,
                                        repeated_bit,
                                    },
                                    ContextState::ForNode { probability_estimator, bit_history, cost_trackers, .. } =>
                                        ContextState::ForNode {
                                        last_occurrence_distance: actual_distance,
                                        probability_estimator,
                                        bit_history,
                                        cost_trackers,
                                    },
                                },
                            )
                        },
                        None => None,
                    }
                },
                None => {
                    proof {
                        assert(self.current_bucket(order as int) == Seq::<ContextState>::empty());
                    }
                    None
                },
            };
            match found {
                Some(ctx) => {
                    bit_histories.push(ctx);
                },
                None => {
                    break;
                },
            }
            order += 1;
        }
    }

    /// Takes the next bit: every current context up to the highest order
    /// steps on (or is seen for the first time), then the bit joins the
    /// input. The contexts that are nodes take, in order, the new cost
    /// trackers, one each.
    pub fn process_input_bit(&mut self, input_bit: Bit, new_cost_trackers: &[CostTrackers])
        requires
            old(self).wf(),
            old(self).input_of().size_of() >= 1,
            forall|o: int|
                0 <= o <= old(self).top_order() ==> (#[trigger] old(self).node_at(o) <==> o < new_cost_trackers@.len()),
        ensures
            final(self).wf(),
            final(self).luts_of() == old(self).luts_of(),
            final(self).max_order_of() == old(self).max_order_of(),
            final(self).bit_index_of() == (if old(self).bit_index_of() > 0 {
                old(self).bit_index_of() - 1
            } else {
                7
            }),
            final(self).input_of().bytes() == old(self).input_of().bytes().update(
                old(self).input_of().cursor_of(),
                with_bit(
                    old(self).input_of().bytes()[old(self).input_of().cursor_of()],
                    old(self).bit_index_of(),
                    input_bit == Bit::One,
                ),
            ),
            final(self).input_of().cursor_of() == old(self).input_of().cursor_of(),
            final(self).input_of().size_of() == old(self).input_of().size_of(),
            final(self).input_of().max() == old(self).input_of().max(),
            forall|o: int, b: int, h: u64|
                0 <= o <= old(self).max_order_of() && 0 <= b < 8 ==> #[trigger] final(self).bucket(o, b, h) == (if b
                    == old(self).bit_index_of() && o <= old(self).top_order() && h == old(self).current_hash(o) {
                    old(self).stepped_bucket(o, input_bit, new_cost_trackers@)
                } else {
                    old(self).bucket(o, b, h)
                }),
            final(self).byte_done_of() == (old(self).bit_index_of() == 0),
            old(self).mirrors_scan() && !old(self).byte_done_of() && (forall|k: int|
                0 <= k < new_cost_trackers@.len() ==> is_default_trackers(#[trigger] new_cost_trackers@[k]))
                ==> final(self).mirrors_scan(),
    {
        proof {
            self.lemma_window();
        }
        let ghost pre = *self;
        let cursor = self.input.cursor();
        let top = if self.max_order < cursor.raw() {
            self.max_order
        } else {
            cursor.raw()
        };
        let bit_index = self.bit_index;
        let mut order: usize = 0;
        while order <= top
            invariant
                self.wf(),
                pre.wf(),
                self.input_of().size_of() >= 1,
                self.luts == pre.luts,
                self.input == pre.input,
                self.bit_index == pre.bit_index,
                self.max_order == pre.max_order,
                self.maps.len() == pre.maps.len(),
                bit_index == pre.bit_index,
                cursor.index() == pre.input_of().cursor_of(),
                cursor.index() + 1 == pre.input_of().bytes().len(),
                top == pre.top_order(),
                top <= pre.max_order,
                order <= top + 1,
                forall|o: int| 0 <= o <= pre.top_order() ==> (#[trigger] pre.node_at(o) <==> o < new_cost_trackers@.len()),
                forall|o: int, b: int, h: u64|
                    0 <= o <= pre.max_order && 0 <= b < 8 ==> #[trigger] self.bucket(o, b, h) == (if b == pre.bit_index && o
                        < order && h == pre.current_hash(o) {
                        pre.stepped_bucket(o, input_bit, new_cost_trackers@)
                    } else {
                        pre.bucket(o, b, h)
                    }),
            decreases top + 1 - order,
        {
            let ghost before = *self;
            let hash = self.compute_hash(order);
            let slot = order * 8 + bit_index;
            proof {
                assert(hash == pre.current_hash(order as int));
                assert(self.bucket(order as int, bit_index as int, hash) == pre.current_bucket(order as int));
            }
            let ghost old_map = self.maps@[slot as int]@;
            let removed = self.maps[slot].remove(&hash);
            let mut bucket = match removed {
                Some(b) => b,
                None => Vec::new(),
            };
            proof {
                assert(bucket@ == pre.current_bucket(order as int));
                assert forall|i: int| 0 <= i < bucket@.len() implies {
                    &&& (#[trigger] bucket@[i]).wf()
                    &&& bucket@[i].distance_of() + order < self.input_of().bytes().len()
                } by {
                    assert(before.bucket(order as int, bit_index as int, hash)[i] == bucket@[i]);
                }
            }
            let found = self.find_match(&bucket, order);
            let byte_index = self.input.index_subtract(cursor, order);
            let ghost bucket_before = bucket@;
            match found {
                Some(i) => {
                    let ctx = bucket[i];
                    proof {
                        assert(pre.current_match(order as int) == Some(i as int));
                        assert(ctx == pre.current_bucket(order as int)[i as int]);
                    }
                    let cost_trackers_opt = if ctx.is_for_node() {
                        proof {
                            assert(pre.node_at(order as int));
                        }
                        Some(new_cost_trackers[order])
                    } else {
                        None
                    };
                    let position = byte_index.raw();
                    let next = ctx.next_state(position, input_bit, cost_trackers_opt, self.luts);
                    proof {
                        let chosen = next_state_spec(ctx, position, input_bit, cost_trackers_opt, *self.luts);
                        lemma_next_state_unique(ctx, next, chosen, position, input_bit, cost_trackers_opt, *self.luts);
                    }
                    bucket.set(i, next);
                    proof {
                        assert(bucket@ == pre.stepped_bucket(order as int, input_bit, new_cost_trackers@));
                    }
                },
                None => {
                    bucket.push(ContextState::starting_state(byte_index.raw(), input_bit));
                    proof {
                        assert(pre.current_match(order as int) is None);
                        assert(bucket@ == pre.stepped_bucket(order as int, input_bit, new_cost_trackers@));
                    }
                },
            }
            let ghost new_bucket = bucket@;
            self.maps[slot].insert(hash, bucket);
            proof {
                assert(self.maps@[slot as int]@ == old_map.remove(hash).insert(hash, bucket));
                assert forall|o: int, b: int, h: u64|
                    0 <= o <= pre.max_order && 0 <= b < 8 implies #[trigger] self.bucket(o, b, h) == (if b
                        == pre.bit_index && o < order + 1 && h == pre.current_hash(o) {
                        pre.stepped_bucket(o, input_bit, new_cost_trackers@)
                    } else {
                        pre.bucket(o, b, h)
                    }) by {
                    if o * 8 + b == slot as int {
                        assert(o == order as int && b == bit_index as int);
                        if h == hash {
                            assert(self.bucket(o, b, h) == new_bucket);
                        } else {
                            assert(self.bucket(o, b, h) == before.bucket(o, b, h));
                            assert(h != pre.current_hash(o));
                        }
                    } else {
                        assert(self.maps@[o * 8 + b] == before.maps@[o * 8 + b]);
                        assert(self.bucket(o, b, h) == before.bucket(o, b, h));
                    }
                }
                assert forall|o: int, b: int, h: u64, i: int|
                    0 <= o <= self.max_order && 0 <= b < 8 && 0 <= i < self.bucket(o, b, h).len() implies {
                    &&& (#[trigger] self.bucket(o, b, h)[i]).wf()
                    &&& self.bucket(o, b, h)[i].distance_of() + o < self.input.bytes().len()
                } by {
                    if o * 8 + b == slot as int && h == hash {
                        assert(o == order as int && b == bit_index as int);
                        assert(self.bucket(o, b, h) == new_bucket);
                        if i < bucket_before.len() && (found is None || i != found->0 as int) {
                            assert(new_bucket[i] == bucket_before[i]);
                        }
                    } else {
                        if o * 8 + b != slot as int {
                            assert(self.maps@[o * 8 + b] == before.maps@[o * 8 + b]);
                        }
                        assert(self.bucket(o, b, h) == before.bucket(o, b, h));
                        assert(before.bucket(o, b, h)[i] == self.bucket(o, b, h)[i]);
                    }
                }
            }
            order += 1;
        }
        let ghost after_loop = *self;
        self.input.set_bit_at_cursor(input_bit == Bit::One, self.bit_index);
        self.byte_done = Ghost(bit_index == 0);
        if self.bit_index > 0 {
            self.bit_index -= 1;
        } else {
            self.bit_index = 7;
        }
        proof {
            assert forall|o: int, b: int, h: u64, i: int|
                0 <= o <= self.max_order && 0 <= b < 8 && 0 <= i < self.bucket(o, b, h).len() implies {
                &&& (#[trigger] self.bucket(o, b, h)[i]).wf()
                &&& self.bucket(o, b, h)[i].distance_of() + o < self.input.bytes().len()
            } by {
                assert(self.bucket(o, b, h) == after_loop.bucket(o, b, h));
                assert(after_loop.bucket(o, b, h)[i] == self.bucket(o, b, h)[i]);
            }
            assert forall|o: int, b: int, h: u64| 0 <= o <= pre.max_order && 0 <= b < 8 implies #[trigger] self.bucket(o, b, h)
                == after_loop.bucket(o, b, h) by {
            }
            if pre.mirrors_scan() && !pre.byte_done_of() && (forall|k: int|
                0 <= k < new_cost_trackers@.len() ==> is_default_trackers(#[trigger] new_cost_trackers@[k])) {
                self.lemma_process_keeps_mirror(pre, input_bit, new_cost_trackers@);
            }
        }
    }
}

} // verus!
