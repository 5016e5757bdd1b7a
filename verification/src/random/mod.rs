use vstd::prelude::*;
use vstd::wrapping::u64_specs::{wrapping_mul, wrapping_add, wrapping_sub};

verus! {

pub const NN: usize = 312;
pub const MM: usize = 156;
pub const MATRIX_A: u64 = 0xB5026F5AA96619E9;
/// The most significant 33 bits.
pub const UM: u64 = 0xFFFFFFFF80000000;
/// The least significant 31 bits.
pub const LM: u64 = 0x7FFFFFFF;

/// The high bits of one word joined with the low bits of the next.
pub open spec fn join(upper: u64, lower: u64) -> u64 {
    (upper & UM) | (lower & LM)
}

/// One step of the twist: a shift, and the matrix xored in for odd words.
pub open spec fn twist_step(x: u64) -> u64 {
    (x >> 1u64) ^ (if x & 1u64 == 0u64 { 0u64 } else { MATRIX_A })
}

/// A regenerated word among the first `NN - MM`.
pub open spec fn twisted_low(s: Seq<u64>, i: int) -> u64 {
    s[i + MM as int] ^ twist_step(join(s[i], s[i + 1]))
}

/// Word `i` of the state after regeneration.
pub open spec fn twisted_at(s: Seq<u64>, i: int) -> u64 {
    if i < (NN - MM) as int {
        twisted_low(s, i)
    } else if i < (NN - 1) as int {
        twisted_low(s, i - (NN - MM) as int) ^ twist_step(join(s[i], s[i + 1]))
    } else {
        twisted_low(s, (MM - 1) as int) ^ twist_step(join(s[i], twisted_low(s, 0)))
    }
}

/// The state after regenerating all `NN` words.
pub open spec fn twisted(s: Seq<u64>) -> Seq<u64> {
    Seq::new(NN as nat, |i: int| twisted_at(s, i))
}

/// The output transformation of a state word.
pub open spec fn temper(x: u64) -> u64 {
    let x1 = x ^ ((x >> 29u64) & 0x5555555555555555u64);
    let x2 = x1 ^ ((x1 << 17u64) & 0x71D67FFFEDA60000u64);
    let x3 = x2 ^ ((x2 << 37u64) & 0xFFF7EEE000000000u64);
    x3 ^ (x3 >> 43u64)
}

/// Word `i` of the state seeded by a single value.
pub open spec fn seeded_at(seed: u64, i: nat) -> u64
    decreases i,
{
    if i == 0 {
        seed
    } else {
        let previous = seeded_at(seed, (i - 1) as nat);
        wrapping_add(wrapping_mul(6364136223846793005u64, previous ^ (previous >> 62u64)), i as u64)
    }
}

/// The state seeded by a single value.
pub open spec fn seeded_state(seed: u64) -> Seq<u64> {
    Seq::new(NN as nat, |i: int| seeded_at(seed, i as nat))
}

/// Word `i` after one step of mixing in key word `j`: the word is mixed
/// with the one before it, the key word and `j` are added; the positions
/// move on, `i` wrapping to 1 after the last word is copied to word 0, `j`
/// wrapping to 0 after the last key word.
pub open spec fn key_step(s: Seq<u64>, i: int, j: int, key: Seq<u64>) -> (Seq<u64>, int, int) {
    let previous = s[i - 1];
    let mixed = wrapping_add(
        wrapping_add(s[i] ^ wrapping_mul(previous ^ (previous >> 62u64), 3935559000370003845u64), key[j]),
        j as u64,
    );
    let t = s.update(i, mixed);
    let (u, next_i) = if i + 1 >= NN { (t.update(0, t[NN - 1]), 1int) } else { (t, i + 1) };
    (u, next_i, if j + 1 >= key.len() { 0 } else { j + 1 })
}

/// `n` steps of mixing in the key.
pub open spec fn key_rounds(s: Seq<u64>, i: int, j: int, key: Seq<u64>, n: nat) -> (Seq<u64>, int, int)
    decreases n,
{
    if n == 0 {
        (s, i, j)
    } else {
        let (t, ti, tj) = key_rounds(s, i, j, key, (n - 1) as nat);
        key_step(t, ti, tj, key)
    }
}

/// Word `i` after one step of the final mixing, which subtracts `i`.
pub open spec fn mix_step(s: Seq<u64>, i: int) -> (Seq<u64>, int) {
    let previous = s[i - 1];
    let mixed = wrapping_sub(s[i] ^ wrapping_mul(previous ^ (previous >> 62u64), 2862933555777941757u64), i as u64);
    let t = s.update(i, mixed);
    if i + 1 >= NN { (t.update(0, t[NN - 1]), 1int) } else { (t, i + 1) }
}

/// `n` steps of the final mixing.
pub open spec fn mix_rounds(s: Seq<u64>, i: int, n: nat) -> (Seq<u64>, int)
    decreases n,
{
    if n == 0 {
        (s, i)
    } else {
        let (t, ti) = mix_rounds(s, i, (n - 1) as nat);
        mix_step(t, ti)
    }
}

/// The state seeded by an array of words: the state seeded by 19650218,
/// the key mixed in over as many steps as the larger of the state's and the
/// key's length, `NN - 1` steps of final mixing, and word 0 set to its top
/// bit alone.
pub open spec fn vector_seeded_state(key: Seq<u64>) -> Seq<u64> {
    let rounds = if NN > key.len() { NN as nat } else { key.len() };
    let (keyed, i, _) = key_rounds(seeded_state(19650218), 1, 0, key, rounds);
    let (mixed, _) = mix_rounds(keyed, i, (NN - 1) as nat);
    mixed.update(0, 0x8000_0000_0000_0000u64)
}

fn mag01(x: u64) -> (r: u64)
    ensures
        r == (if x & 1u64 == 0u64 { 0u64 } else { MATRIX_A }),
{
    if x & 1u64 == 0 {
        0
    } else {
        MATRIX_A
    }
}

/// The 64-bit Mersenne Twister (MT19937-64).
pub struct MersenneTwister {
    state: [u64; 312],
    index: usize,
}

impl MersenneTwister {
    pub closed spec fn words(&self) -> Seq<u64> {
        self.state@
    }

    /// How many words of the current block have been handed out.
    pub closed spec fn position(&self) -> nat {
        self.index as nat
    }

    /// The generator's invariant: at most a block of words handed out.
    pub open spec fn wf(&self) -> bool {
        self.position() <= NN
    }

    /// The state always has `NN` words.
    pub proof fn lemma_words_len(&self)
        ensures
            self.words().len() == NN,
    {
    }

    pub fn new_by_scalar_seed(seed: u64) -> (r: Self)
        ensures
            r.wf(),
            r.position() == NN,
            r.words().len() == NN,
            forall|i: int| 0 <= i < NN ==> #[trigger] r.words()[i] == seeded_at(seed, i as nat),
    {
        let mut state_vector = [0u64; 312];
        state_vector[0] = seed;
        let mut index: usize = 1;
        while index < NN
            invariant
                1 <= index <= NN,
                forall|i: int| 0 <= i < index ==> #[trigger] state_vector@[i] == seeded_at(seed, i as nat),
            decreases NN - index,
        {
            let previous = state_vector[index - 1];
            state_vector[index] = 6364136223846793005u64.wrapping_mul(previous ^ (previous >> 62u64)).wrapping_add(
                index as u64,
            );
            assert(state_vector@[index as int] == seeded_at(seed, index as nat));
            index += 1;
        }
        MersenneTwister { state: state_vector, index: NN }
    }

    /// Seeding by an array of words; the array must not be empty.
    pub fn new_by_vector_seed(init_key: &[u64]) -> (r: Self)
        requires
            init_key@.len() > 0,
        ensures
            r.wf(),
            r.position() == NN,
            r.words().len() == NN,
            r.words()[0] == 0x8000_0000_0000_0000,
            r.words() == vector_seeded_state(init_key@),
    {
        let mut i: usize = 1;
        let mut j: usize = 0;
        let mut mt = Self::new_by_scalar_seed(19650218);
        proof {
            assert(mt.state@ =~= seeded_state(19650218));
        }
        let rounds = if NN > init_key.len() {
            NN
        } else {
            init_key.len()
        };
        let mut round: usize = 0;
        while round < rounds
            invariant
                1 <= i < NN,
                j < init_key@.len(),
                mt.index == NN,
                round <= rounds,
                (mt.state@, i as int, j as int) == key_rounds(seeded_state(19650218), 1, 0, init_key@, round as nat),
            decreases rounds - round,
        {
            let previous = mt.state[i - 1];
            mt.state[i] = (mt.state[i] ^ ((previous ^ (previous >> 62u64)).wrapping_mul(3935559000370003845u64))).wrapping_add(
                init_key[j],
            ).wrapping_add(j as u64);
            i += 1;
            j += 1;
            if i >= NN {
                mt.state[0] = mt.state[NN - 1];
                i = 1;
            }
            if j >= init_key.len() {
                j = 0;
            }
            round += 1;
        }
        let ghost keyed = mt.state@;
        let ghost keyed_i = i as int;
        proof {
            assert((keyed, keyed_i) == mix_rounds(keyed, keyed_i, 0));
        }
        let mut round: usize = 1;
        while round < NN
            invariant
                1 <= i < NN,
                1 <= round <= NN,
                mt.index == NN,
                (mt.state@, i as int) == mix_rounds(keyed, keyed_i, (round - 1) as nat),
            decreases NN - round,
        {
            let previous = mt.state[i - 1];
            mt.state[i] = (mt.state[i] ^ ((previous ^ (previous >> 62u64)).wrapping_mul(2862933555777941757u64))).wrapping_sub(
                i as u64,
            );
            i += 1;
            if i >= NN {
                mt.state[0] = mt.state[NN - 1];
                i = 1;
            }
            round += 1;
        }
        mt.state[0] = 0x8000_0000_0000_0000;
        mt
    }

    /// The next number in `[0, 2^64 - 1]`; regenerates the state after every
    /// `NN` numbers.
    pub fn next_int64(&mut self) -> (r: u64)
        requires
            old(self).wf(),
        ensures
            final(self).wf(),
            old(self).position() == NN ==> final(self).words() == twisted(old(self).words()) && final(self).position() == 1
                && r == temper(twisted(old(self).words())[0]),
            old(self).position() < NN ==> final(self).words() == old(self).words() && final(self).position()
                == old(self).position() + 1 && r == temper(old(self).words()[old(self).position() as int]),
    {
        if self.index == NN {
            let ghost s = self.state@;
            let mut i: usize = 0;
            while i < NN - MM
                invariant
                    0 <= i <= NN - MM,
                    s.len() == NN,
                    forall|k: int| 0 <= k < i ==> #[trigger] self.state@[k] == twisted_low(s, k),
                    forall|k: int| i <= k < NN ==> #[trigger] self.state@[k] == s[k],
                decreases NN - MM - i,
            {
                let x = (self.state[i] & UM) | (self.state[i + 1] & LM);
                self.state[i] = self.state[i + MM] ^ (x >> 1u64) ^ mag01(x);
                proof {
                    assert(self.state@[i as int] == twisted_low(s, i as int)) by {
                        let a = s[i + MM as int];
                        assert((a ^ (x >> 1u64)) ^ (if x & 1u64 == 0u64 { 0u64 } else { MATRIX_A })
                            == a ^ ((x >> 1u64) ^ (if x & 1u64 == 0u64 { 0u64 } else { MATRIX_A }))) by (bit_vector);
                    }
                }
                i += 1;
            }
            while i < NN - 1
                invariant
                    NN - MM <= i <= NN - 1,
                    s.len() == NN,
                    forall|k: int| 0 <= k < NN - MM ==> #[trigger] self.state@[k] == twisted_low(s, k),
                    forall|k: int| (NN - MM) <= k < i ==> #[trigger] self.state@[k] == twisted_at(s, k),
                    forall|k: int| i <= k < NN ==> #[trigger] self.state@[k] == s[k],
                decreases NN - 1 - i,
            {
                let x = (self.state[i] & UM) | (self.state[i + 1] & LM);
                self.state[i] = self.state[i + MM - NN] ^ (x >> 1u64) ^ mag01(x);
                proof {
                    assert(self.state@[i as int] == twisted_at(s, i as int)) by {
                        let a = twisted_low(s, i - (NN - MM) as int);
                        assert((a ^ (x >> 1u64)) ^ (if x & 1u64 == 0u64 { 0u64 } else { MATRIX_A })
                            == a ^ ((x >> 1u64) ^ (if x & 1u64 == 0u64 { 0u64 } else { MATRIX_A }))) by (bit_vector);
                    }
                }
                i += 1;
            }
            let x = (self.state[NN - 1] & UM) | (self.state[0] & LM);
            self.state[NN - 1] = self.state[MM - 1] ^ (x >> 1u64) ^ mag01(x);
            proof {
                let a = twisted_low(s, (MM - 1) as int);
                assert((a ^ (x >> 1u64)) ^ (if x & 1u64 == 0u64 { 0u64 } else { MATRIX_A })
                    == a ^ ((x >> 1u64) ^ (if x & 1u64 == 0u64 { 0u64 } else { MATRIX_A }))) by (bit_vector);
                assert(self.state@ =~= twisted(s));
            }
            self.index = 0;
        }
        let mut x = self.state[self.index];
        self.index = self.index + 1;
        x = x ^ ((x >> 29u64) & 0x5555555555555555u64);
        x = x ^ ((x << 17u64) & 0x71D67FFFEDA60000u64);
        x = x ^ ((x << 37u64) & 0xFFF7EEE000000000u64);
        x = x ^ (x >> 43u64);
        x
    }

    /// The next number in `[0, 2^63 - 1]`: the top 63 bits of `next_int64`.
    pub fn next_int63(&mut self) -> (r: i64)
        requires
            old(self).wf(),
        ensures
            final(self).wf(),
            old(self).position() == NN ==> final(self).words() == twisted(old(self).words()) && final(self).position() == 1
                && r == temper(twisted(old(self).words())[0]) >> 1u64,
            old(self).position() < NN ==> final(self).words() == old(self).words() && final(self).position()
                == old(self).position() + 1 && r == temper(old(self).words()[old(self).position() as int])
                >> 1u64,
    {
        let x = self.next_int64();
        assert((x >> 1u64) <= 0x7fff_ffff_ffff_ffffu64) by (bit_vector);
        (x >> 1u64) as i64
    }

    /// The generator seeded with the reference default seed 5489.
    pub fn default_seeded() -> (r: Self)
        ensures
            r.wf(),
            r.position() == NN,
            forall|i: int| 0 <= i < NN ==> #[trigger] r.words()[i] == seeded_at(5489, i as nat),
    {
        Self::new_by_scalar_seed(5489)
    }
}

} // verus!
