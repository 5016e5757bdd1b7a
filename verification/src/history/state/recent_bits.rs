use vstd::prelude::*;
use crate::bit::Bit;

verus! {

/// The number of set bits among the lowest `n` bits.
pub open spec fn popcount(x: u16, n: nat) -> nat
    decreases n,
{
    if n == 0 {
        0
    } else {
        popcount(x, (n - 1) as nat) + (if (x >> ((n - 1) as u16)) & 1u16 == 1u16 { 1nat } else { 0nat })
    }
}

/// The position of the highest set bit among the lowest `n`, or -1.
pub open spec fn highest(x: u16, n: nat) -> int
    decreases n,
{
    if n == 0 {
        -1
    } else if (x >> ((n - 1) as u16)) & 1u16 == 1u16 {
        (n - 1) as int
    } else {
        highest(x, (n - 1) as nat)
    }
}

/// The raw state after one more bit.
pub open spec fn updated_raw(raw: u16, bit: Bit) -> u16 {
    ((((raw << 1u16) as int + bit.value()) as u16) & 0xffffu16) | (raw & 0x8000u16)
}

/// The raw state after `run_length` copies of a bit, at most 15 of them
/// recorded: a leading one and that many copies below it.
pub open spec fn run_raw(bit: Bit, run_length: u16) -> u16 {
    let m = if run_length < 15 { run_length } else { 15u16 };
    if bit == Bit::Zero {
        1u16 << m
    } else {
        (((1u16 << m) - 1) + (1u16 << m)) as u16
    }
}

/// A history with its leading one keeps a set bit after one more bit.
pub proof fn lemma_updated_nonzero(raw: u16, bit: Bit)
    requires
        raw != 0,
    ensures
        updated_raw(raw, bit) != 0,
{
    let v: u16 = if bit == Bit::Zero { 0 } else { 1 };
    assert(((((raw << 1u16) + v) as u16) & 0xffffu16) | (raw & 0x8000u16) != 0u16) by (bit_vector)
        requires raw != 0u16, v <= 1u16;
    assert((raw << 1u16) as int + bit.value() == (raw << 1u16) + v);
}

/// One more bit is shifted in at the bottom of a history: the lowest bit of
/// the result is the new bit, the lower fifteen bits of the history move up
/// by one place, and a set top bit stays set.
pub proof fn lemma_updated_shifts_in_bit(raw: u16, bit: Bit)
    ensures
        updated_raw(raw, bit) & 1u16 == (if bit == Bit::Zero { 0u16 } else { 1u16 }),
        (updated_raw(raw, bit) >> 1u16) & 0x3fffu16 == raw & 0x3fffu16,
        raw & 0x8000u16 != 0u16 ==> updated_raw(raw, bit) & 0x8000u16 != 0u16,
{
    let v: u16 = if bit == Bit::Zero { 0 } else { 1 };
    let u = updated_raw(raw, bit);
    assert((raw << 1u16) as int + bit.value() == (raw << 1u16) + v);
    assert(u == ((((raw << 1u16) + v) as u16) & 0xffffu16) | (raw & 0x8000u16) && v <= 1u16 ==> {
        &&& u & 1u16 == v
        &&& (u >> 1u16) & 0x3fffu16 == raw & 0x3fffu16
        &&& (raw & 0x8000u16 != 0u16 ==> u & 0x8000u16 != 0u16)
    }) by (bit_vector);
}

/// A run always has its leading one.
pub proof fn lemma_run_nonzero(bit: Bit, run_length: u16)
    ensures
        run_raw(bit, run_length) != 0,
{
    let m: u16 = if run_length < 15 { run_length } else { 15u16 };
    assert(1u16 << m != 0u16 && (((1u16 << m) - 1u16) + (1u16 << m)) as u16 != 0u16) by (bit_vector)
        requires m <= 15u16;
}

/// The last bits of a context's history, below a leading one: up to 15
/// bits, and the top bit stays set once the history has overflowed.
#[derive(Copy, Clone, Debug, PartialEq, Eq, Structural)]
pub struct RecentBitsState(u16);

impl RecentBitsState {
    pub const MAX_LENGTH: u8 = 15;

    pub const MASK: u16 = 0xffff;

    pub closed spec fn raw_of(&self) -> u16 {
        self.0
    }

    /// The state with a raw value.
    pub closed spec fn from_raw(raw: u16) -> RecentBitsState {
        RecentBitsState(raw)
    }

    pub proof fn lemma_from_raw(raw: u16)
        ensures
            Self::from_raw(raw).raw_of() == raw,
    {
    }

    /// States with the same raw value are the same.
    pub proof fn lemma_raw_injective(a: RecentBitsState, b: RecentBitsState)
        requires
            a.raw_of() == b.raw_of(),
        ensures
            a == b,
    {
    }

    pub fn new_unchecked(raw_state: u16) -> (r: Self)
        ensures
            r.raw_of() == raw_state,
    {
        RecentBitsState(raw_state)
    }

    /// The state of no context.
    pub fn invalid() -> (r: Self)
        ensures
            r.raw_of() == 0,
    {
        RecentBitsState(0)
    }

    pub fn is_valid(&self) -> (r: bool)
        ensures
            r == (self.raw_of() != 0),
    {
        self.0 != 0
    }

    /// The number of ones (high nibble) and of zeros (low nibble) in the
    /// recorded history below the leading one.
    pub fn compressed_state(&self) -> (r: u8)
        requires
            self.raw_of() != 0,
        ensures
            r == (popcount(self.raw_of(), 16) - 1) * 16 + (highest(self.raw_of(), 16) - (popcount(
                self.raw_of(),
                16,
            ) - 1)),
    {
        let x = self.0;
        let mut ones: u32 = 0;
        let mut hi: i32 = -1;
        let mut i: u16 = 0;
        while i < 16
            invariant
                0 <= i <= 16,
                ones == popcount(x, i as nat),
                hi == highest(x, i as nat),
                ones <= hi + 1,
                hi >= 0 ==> ones >= 1,
                hi < i,
            decreases 16 - i,
        {
            if (x >> i) & 1u16 == 1u16 {
                ones += 1;
                hi = i as i32;
            }
            i += 1;
        }
        proof {
            if hi < 0 {
                lemma_no_bits_below(x, 16);
                assert(((x >> 0u16) & 1u16) != 1u16);
                assert(((x >> 1u16) & 1u16) != 1u16);
                assert(((x >> 2u16) & 1u16) != 1u16);
                assert(((x >> 3u16) & 1u16) != 1u16);
                assert(((x >> 4u16) & 1u16) != 1u16);
                assert(((x >> 5u16) & 1u16) != 1u16);
                assert(((x >> 6u16) & 1u16) != 1u16);
                assert(((x >> 7u16) & 1u16) != 1u16);
                assert(((x >> 8u16) & 1u16) != 1u16);
                assert(((x >> 9u16) & 1u16) != 1u16);
                assert(((x >> 10u16) & 1u16) != 1u16);
                assert(((x >> 11u16) & 1u16) != 1u16);
                assert(((x >> 12u16) & 1u16) != 1u16);
                assert(((x >> 13u16) & 1u16) != 1u16);
                assert(((x >> 14u16) & 1u16) != 1u16);
                assert(((x >> 15u16) & 1u16) != 1u16);
                assert((((x >> 0u16) & 1u16) != 1u16) && (((x >> 1u16) & 1u16) != 1u16) && (((x >> 2u16) & 1u16) != 1u16)
                    && (((x >> 3u16) & 1u16) != 1u16) && (((x >> 4u16) & 1u16) != 1u16) && (((x >> 5u16) & 1u16) != 1u16)
                    && (((x >> 6u16) & 1u16) != 1u16) && (((x >> 7u16) & 1u16) != 1u16) && (((x >> 8u16) & 1u16) != 1u16)
                    && (((x >> 9u16) & 1u16) != 1u16) && (((x >> 10u16) & 1u16) != 1u16) && (((x >> 11u16) & 1u16) != 1u16)
                    && (((x >> 12u16) & 1u16) != 1u16) && (((x >> 13u16) & 1u16) != 1u16) && (((x >> 14u16) & 1u16) != 1u16)
                    && (((x >> 15u16) & 1u16) != 1u16) ==> x == 0u16) by (bit_vector);
            }
        }
        let ones_count = ones - 1;
        let zeros_count = (hi as u32) - ones_count;
        (ones_count * 16 + zeros_count) as u8
    }

    /// The lowest seven bits and the bit above them.
    pub fn last_bits(&self) -> (r: u8)
        ensures
            r == ((if self.raw_of() >= 128 { 128u16 } else { 0u16 }) | (self.raw_of() & 127u16)) as u8,
    {
        let capped = self.0 & 127;
        let leading_bit: u16 = if self.0 >= 128 {
            128
        } else {
            0
        };
        proof {
            let c = capped;
            let l = leading_bit;
            let x = self.0;
            assert(c == x & 127u16 ==> c <= 127u16 && ((l == 0u16 || l == 128u16) ==> (l | c) <= 255u16)) by (bit_vector);
        }
        (leading_bit | capped) as u8
    }

    /// The state after one more bit: the bit is shifted in, and the top bit
    /// stays set once set.
    pub fn updated(&self, next_bit: Bit) -> (r: Self)
        ensures
            r.raw_of() == updated_raw(self.raw_of(), next_bit),
            r.raw_of() & 1u16 == (if next_bit == Bit::Zero { 0u16 } else { 1u16 }),
            (r.raw_of() >> 1u16) & 0x3fffu16 == self.raw_of() & 0x3fffu16,
    {
        proof {
            lemma_updated_shifts_in_bit(self.0, next_bit);
        }
        let highest_leading_bit = self.0 & 0x8000u16;
        proof {
            let x = self.0;
            assert((x << 1u16) <= 0xfffeu16) by (bit_vector);
        }
        let shifted = ((self.0 << 1u16) + next_bit.to_u16()) & Self::MASK;
        RecentBitsState(shifted | highest_leading_bit)
    }
}

/// Without a set bit among the lowest `n`, `highest` is -1 and no bit below
/// `n` is set.
proof fn lemma_no_bits_below(x: u16, n: nat)
    requires
        n <= 16,
        highest(x, n) < 0,
    ensures
        forall|b: u16| b < n ==> #[trigger] ((x >> b) & 1u16) != 1u16,
    decreases n,
{
    if n > 0 {
        lemma_no_bits_below(x, (n - 1) as nat);
    }
}

/// Makes the recent-bits states of new contexts.
pub struct RecentBitsStateFactory;

impl RecentBitsStateFactory {
    pub fn new() -> (r: Self) {
        RecentBitsStateFactory
    }

    /// The state after `run_length` copies of a bit (at most 15 recorded).
    pub fn for_bit_run(&self, repeating_bit: Bit, run_length: u16) -> (r: RecentBitsState)
        ensures
            r.raw_of() == run_raw(repeating_bit, run_length),
    {
        let m: u16 = if run_length < 15 {
            run_length
        } else {
            15
        };
        let leading_bit = 1u16 << m;
        proof {
            let l = leading_bit;
            assert(m <= 15u16 && l == (1u16 << m) ==> {
                &&& l >= 1u16
                &&& l <= 0x8000u16
                &&& (l | ((l - 1) + l) as u16) == ((l - 1) + l) as u16
                &&& (l | 0u16) == l
            }) by (bit_vector);
        }
        let history_bits: u16 = if repeating_bit == Bit::One {
            (leading_bit - 1) + leading_bit
        } else {
            0
        };
        RecentBitsState(leading_bit | history_bits)
    }

    /// The state of a context that saw a run of the opposite bit, then
    /// `last_bit`.
    pub fn for_new_node(&self, last_bit: Bit, opposite_bits_run_length: u16) -> (r: RecentBitsState)
        ensures
            r.raw_of() == updated_raw(run_raw(last_bit.flipped(), opposite_bits_run_length), last_bit),
    {
        self.for_bit_run(last_bit.negated(), opposite_bits_run_length).updated(last_bit)
    }
}

} // verus!
