use vstd::prelude::*;
use crate::bit::Bit;

verus! {

pub const MAX_RUN_LENGTH: u16 = 1000;

/// The raw word of a tracker: the last bit in bit 0, then three 10-bit run
/// lengths: the last bit's current run, the opposite bit's run before it,
/// and the last bit's run before that.
pub open spec fn encode(last: u32, run: u32, opposite: u32, previous: u32) -> u32 {
    last | (run << 1u32) | (opposite << 11u32) | (previous << 21u32)
}

proof fn lemma_decode(last: u32, run: u32, opposite: u32, previous: u32)
    by (bit_vector)
    requires
        last <= 1,
        run < 1024,
        opposite < 1024,
        previous < 1024,
    ensures
        encode(last, run, opposite, previous) & 1u32 == last,
        (encode(last, run, opposite, previous) >> 1u32) & 1023u32 == run,
        (encode(last, run, opposite, previous) >> 11u32) & 1023u32 == opposite,
        (encode(last, run, opposite, previous) >> 21u32) & 1023u32 == previous,
        (encode(last, run, opposite, previous) >> 1u32) <= 1000 <==> (opposite == 0 && previous == 0 && run <= 1000),
        run < 1023 ==> encode(last, run, opposite, previous) + 2 == encode(last, (run + 1) as u32, opposite, previous),
        last + (run << 1u32) == encode(last, run, 0, 0),
{
}

/// The fields of a packed word are within their widths.
proof fn lemma_fields_bounded(x: u32)
    by (bit_vector)
    ensures
        x & 1u32 <= 1u32,
        (x >> 1u32) & 1023u32 < 1024u32,
        (x >> 11u32) & 1023u32 < 1024u32,
        (x >> 21u32) & 1023u32 < 1024u32,
{
}

/// The lengths of the last runs of equal bits in a context.
#[derive(Clone, Debug, Copy, PartialEq, Eq, Structural)]
pub struct BitsRunsTracker(u32);

impl BitsRunsTracker {
    pub const MAX_RUN_LENGTH: u16 = 1000;

    /// The last bit seen, as 0 or 1.
    pub closed spec fn last(&self) -> u32 {
        self.0 & 1
    }

    /// The length of the current run of the last bit.
    pub closed spec fn run(&self) -> u32 {
        (self.0 >> 1u32) & 1023
    }

    /// The length of the run of the opposite bit before the current run.
    pub closed spec fn opposite(&self) -> u32 {
        (self.0 >> 11u32) & 1023
    }

    /// The length of the run of the last bit before that.
    pub closed spec fn previous(&self) -> u32 {
        (self.0 >> 21u32) & 1023
    }

    /// Every run length is at most `MAX_RUN_LENGTH` and the word holds
    /// nothing else.
    pub closed spec fn wf(&self) -> bool {
        &&& self.0 == encode(self.last(), self.run(), self.opposite(), self.previous())
        &&& self.last() <= 1
        &&& self.run() <= 1000
        &&& self.opposite() <= 1000
        &&& self.previous() <= 1000
    }

    /// No bit seen yet.
    pub fn new() -> (r: Self)
        ensures
            r.wf(),
            r.last() == 0,
            r.run() == 0,
            r.opposite() == 0,
            r.previous() == 0,
    {
        proof {
            lemma_decode(0, 0, 0, 0);
            assert(encode(0, 0, 0, 0) == 0) by (bit_vector);
        }
        BitsRunsTracker(0)
    }

    /// A single run of `run_length` copies of a bit, capped at the maximum.
    pub fn for_bit_run(bit: Bit, run_length: u16) -> (r: Self)
        ensures
            r.wf(),
            r.last() == bit.value(),
            r.run() == if run_length < 1000 { run_length as int } else { 1000 },
            r.opposite() == 0,
            r.previous() == 0,
    {
        let run_length = if run_length < Self::MAX_RUN_LENGTH {
            run_length
        } else {
            Self::MAX_RUN_LENGTH
        };
        proof {
            lemma_decode(bit.value() as u32, run_length as u32, 0, 0);
        }
        BitsRunsTracker(bit.to_u32() + ((run_length as u32) << 1u32))
    }

    /// The history of a context that saw a run of the opposite bit and then
    /// `last_bit`.
    pub fn for_new_node(last_bit: Bit, opposite_bits_run_length: u16) -> (r: Self)
        ensures
            r.wf(),
            r.last() == last_bit.value(),
            r.run() == 1,
            r.opposite() == if opposite_bits_run_length < 1000 { opposite_bits_run_length as int } else { 1000 },
            r.previous() == 0,
    {
        Self::for_bit_run(last_bit.negated(), opposite_bits_run_length).updated(last_bit)
    }

    /// Whether only one run has been seen.
    pub fn is_single_bit_run(&self) -> (r: bool)
        requires
            self.wf(),
        ensures
            r == (self.opposite() == 0 && self.previous() == 0),
    {
        proof {
            lemma_decode(self.last(), self.run(), self.opposite(), self.previous());
        }
        (self.0 >> 1u32) <= (Self::MAX_RUN_LENGTH as u32)
    }

    /// The bounds that the invariant keeps.
    pub proof fn lemma_wf(&self)
        requires
            self.wf(),
        ensures
            self.last() <= 1,
            self.run() <= 1000,
            self.opposite() <= 1000,
            self.previous() <= 1000,
    {
    }

    pub fn last_bit(&self) -> (r: Bit)
        ensures
            r.value() == self.last(),
    {
        proof {
            let x = self.0;
            lemma_fields_bounded(x);
        }
        Bit::from_bool((self.0 & 1) == 1)
    }

    pub fn last_bit_run_length(&self) -> (r: u16)
        ensures
            r == self.run(),
    {
        proof {
            let x = self.0;
            lemma_fields_bounded(x);
        }
        ((self.0 >> 1u32) & 1023) as u16
    }

    pub fn opposite_bit_run_length(&self) -> (r: u16)
        ensures
            r == self.opposite(),
    {
        proof {
            let x = self.0;
            lemma_fields_bounded(x);
        }
        ((self.0 >> 11u32) & 1023) as u16
    }

    pub fn last_bit_previous_run_length(&self) -> (r: u16)
        ensures
            r == self.previous(),
    {
        proof {
            let x = self.0;
            lemma_fields_bounded(x);
        }
        ((self.0 >> 21u32) & 1023) as u16
    }

    /// The tracker after one more bit: a repeated bit lengthens the current
    /// run (up to the maximum), another bit starts a new run and shifts the
    /// older runs back.
    pub fn updated(&self, next_bit: Bit) -> (r: Self)
        requires
            self.wf(),
        ensures
            r.wf(),
            next_bit.value() == self.last() ==> r.last() == self.last() && r.run() == (if self.run() < 1000 {
                self.run() + 1
            } else {
                1000
            }) && r.opposite() == self.opposite() && r.previous() == self.previous(),
            next_bit.value() != self.last() ==> r.last() == next_bit.value() && r.run() == 1 && r.opposite()
                == self.run() && r.previous() == self.opposite(),
    {
        proof {
            lemma_decode(self.last(), self.run(), self.opposite(), self.previous());
        }
        let last = self.last_bit();
        if next_bit == last {
            if self.last_bit_run_length() < Self::MAX_RUN_LENGTH {
                proof {
                    lemma_decode(self.last(), (self.run() + 1) as u32, self.opposite(), self.previous());
                }
                BitsRunsTracker(self.0 + 2)
            } else {
                BitsRunsTracker(self.0)
            }
        } else {
            let r = next_bit.to_u32() | (1u32 << 1u32) | ((self.last_bit_run_length() as u32) << 11u32) | ((
            self.opposite_bit_run_length() as u32) << 21u32);
            proof {
                lemma_decode(next_bit.value() as u32, 1, self.run(), self.opposite());
            }
            BitsRunsTracker(r)
        }
    }
}

} // verus!
