use vstd::prelude::*;

verus! {

/// The FNV-1a offset basis.
pub const FNV_OFFSET_BASIS: u64 = 0xcbf29ce484222325;

/// The FNV-1a prime.
pub const FNV_PRIME: u64 = 0x100000001b3;

/// One FNV-1a step: xor the byte in, multiply by the prime modulo `2^64`.
pub open spec fn fnv1a_step(state: u64, byte: u8) -> u64 {
    vstd::wrapping::u64_specs::wrapping_mul(state ^ (byte as u64), FNV_PRIME)
}

/// The FNV-1a hash of a sequence of bytes.
pub open spec fn fnv1a(bytes: Seq<u8>) -> u64
    decreases bytes.len(),
{
    if bytes.len() == 0 {
        FNV_OFFSET_BASIS
    } else {
        fnv1a_step(fnv1a(bytes.drop_last()), bytes.last())
    }
}

/// Folds 64 bits of a hash into 32 by xoring the halves.
pub open spec fn fold_to_u32(raw: u64) -> u32 {
    (raw ^ (raw >> 32u64)) as u32
}

/// Folds 32 bits of a hash into 16 by xoring the halves.
pub open spec fn fold_to_u16(raw: u32) -> u16 {
    (raw ^ (raw >> 16u32)) as u16
}

/// The 64-bit FNV-1a hash, fed one byte at a time.
pub struct Fnv1A(u64);

impl Fnv1A {
    /// The current 64-bit state.
    pub closed spec fn state(&self) -> u64 {
        self.0
    }

    pub fn new() -> (r: Self)
        ensures
            r.state() == FNV_OFFSET_BASIS,
            r.state() == fnv1a(Seq::empty()),
    {
        Fnv1A(FNV_OFFSET_BASIS)
    }

    pub fn mix_byte(&mut self, input_byte: u8)
        ensures
            final(self).state() == fnv1a_step(old(self).state(), input_byte),
    {
        self.0 = self.0 ^ (input_byte as u64);
        self.0 = self.0.wrapping_mul(FNV_PRIME);
    }

    pub fn into_u64(self) -> (r: u64)
        ensures
            r == self.state(),
    {
        self.0
    }

    pub fn into_u32(self) -> (r: u32)
        ensures
            r == fold_to_u32(self.state()),
    {
        let raw = self.0;
        (raw ^ (raw >> 32u64)) as u32
    }

    pub fn into_u16(self) -> (r: u16)
        ensures
            r == fold_to_u16(fold_to_u32(self.state())),
    {
        let raw = self.into_u32();
        (raw ^ (raw >> 16u32)) as u16
    }
}

/// Mixing bytes one by one computes the FNV-1a hash of the bytes.
pub proof fn lemma_mix_appends(bytes: Seq<u8>, byte: u8)
    ensures
        fnv1a(bytes.push(byte)) == fnv1a_step(fnv1a(bytes), byte),
{
    assert(bytes.push(byte).drop_last() =~= bytes);
}

} // verus!
