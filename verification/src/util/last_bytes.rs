use vstd::prelude::*;
use crate::bit::Bit;
use super::hash::{Fnv1A, fnv1a_step, fold_to_u16, fold_to_u32, FNV_OFFSET_BASIS};

verus! {

/// The bits of the current byte seen so far, below a leading one.
#[derive(Debug, PartialEq, Eq, Structural)]
pub struct UnfinishedByte(u8);

impl UnfinishedByte {
    pub closed spec fn value(&self) -> u8 {
        self.0
    }

    /// The unfinished byte before any of its bits is known.
    pub fn empty() -> (r: Self)
        ensures
            r.value() == 1,
    {
        UnfinishedByte(1)
    }

    pub fn raw(&self) -> (r: u8)
        ensures
            r == self.value(),
    {
        self.0
    }
}

/// The bits of the current byte, highest first, below a leading one:
/// `1 << (7 - bit_index)` plus the known bits.
pub open spec fn unfinished_spec(cache: u32, bit_index: int) -> u8 {
    ((1u32 << ((7 - bit_index) as u32)) + ((cache & 0xff) >> ((bit_index + 1) as u32))) as u8
}

/// The known bits of the last two bytes below a leading one.
pub open spec fn hash01_spec(cache: u32, bit_index: int) -> u16 {
    ((1u32 << ((15 - bit_index) as u32)) + ((cache & 0xffff) >> ((bit_index + 1) as u32))) as u16
}

/// The hash of the two previous bytes and the unfinished byte.
pub open spec fn hash02_spec(cache: u32, bit_index: int) -> u16 {
    fold_to_u16(fold_to_u32(fnv1a_step(fnv1a_step(fnv1a_step(FNV_OFFSET_BASIS,
        (cache >> 16u32) as u8), (cache >> 8u32) as u8),
        unfinished_spec(cache, bit_index))))
}

/// The hash of the three previous bytes and the unfinished byte.
pub open spec fn hash03_spec(cache: u32, bit_index: int) -> u16 {
    fold_to_u16(fold_to_u32(fnv1a_step(fnv1a_step(fnv1a_step(fnv1a_step(FNV_OFFSET_BASIS,
        (cache >> 24u32) as u8), (cache >> 16u32) as u8), (cache >> 8u32) as u8),
        unfinished_spec(cache, bit_index))))
}

/// Bit `i` of a byte.
pub open spec fn bit_value(byte: u8, i: int) -> u32 {
    ((byte as u32) >> (i as u32)) & 1u32
}

/// The recent bytes after a byte starts and the `k` highest bits of `byte`
/// are recorded, highest first.
pub open spec fn cache_after_bits(cache: u32, byte: u8, k: nat) -> u32
    decreases k,
{
    if k == 0 {
        ((cache as int * 256) % 0x1_0000_0000) as u32
    } else {
        cache_after_bits(cache, byte, (k - 1) as nat) | (bit_value(byte, 8 - k) << ((8 - k) as u32))
    }
}

/// Recording the bits of a byte, highest first, after starting it: the
/// recent bytes hold the bits recorded so far; the unfinished byte shows
/// them under a leading one; once all eight are recorded, the byte is the
/// lowest of the recent bytes and the earlier ones moved up by one.
pub proof fn lemma_recorded_byte(cache: u32, byte: u8, k: nat)
    requires
        k <= 8,
    ensures
        cache_after_bits(cache, byte, k) == ((((cache as int * 256) % 0x1_0000_0000) as u32) | (((byte as u32) >> ((8
            - k) as u32)) << ((8 - k) as u32))),
        k < 8 ==> unfinished_spec(cache_after_bits(cache, byte, k), 7 - k) == (((1u32 << (k as u32)) + ((byte as u32)
            >> ((8 - k) as u32))) as u8),
        k == 8 ==> cache_after_bits(cache, byte, k) & 0xff == byte as u32,
        k == 8 ==> cache_after_bits(cache, byte, k) >> 8u32 == cache & 0xff_ffff,
    decreases k,
{
    let c0 = ((cache as int * 256) % 0x1_0000_0000) as u32;
    assert(c0 == cache << 8u32) by (bit_vector)
        requires
            c0 == ((cache as int * 256) % 0x1_0000_0000) as u32,
    ;
    let x = byte as u32;
    let s = (8 - k) as u32;
    assert((s < 8 && x < 256 ==> ((c0 | ((x >> (s + 1)) << (s + 1))) | (((x >> s) & 1u32) << s)) == (c0 | ((x >> s)
        << s))) && (s == 8 && x < 256 ==> (c0 | ((x >> s) << s)) == c0)) by (bit_vector);
    if k > 0 {
        lemma_recorded_byte(cache, byte, (k - 1) as nat);
        assert((8 - (k - 1)) as u32 == s + 1);
    }
    let c = cache_after_bits(cache, byte, k);
    assert(s <= 8 && x < 256 && c0 == cache << 8u32 && c == (c0 | ((x >> s) << s)) ==> {
        &&& (1 <= s ==> ((c & 0xff) >> s) == (x >> s))
        &&& (s == 0 ==> (c & 0xff) == x && (c >> 8u32) == (cache & 0xff_ffff))
    }) by (bit_vector);
    if k < 8 {
        assert(((7 - (7 - k)) as u32) == k as u32);
        assert((((7 - k) + 1) as u32) == s);
    }
}

/// The last three bytes and the bits of the current one, most recent lowest.
pub struct LastBytesCache {
    bit_index: i32,
    bytes_cache: u32,
}

impl LastBytesCache {
    /// The index of the next bit of the current byte, or -1 between bytes.
    pub closed spec fn bit_index_of(&self) -> int {
        self.bit_index as int
    }

    /// The recent bytes: the current byte lowest.
    pub closed spec fn cache(&self) -> u32 {
        self.bytes_cache
    }

    pub closed spec fn wf(&self) -> bool {
        -1 <= self.bit_index <= 7
    }

    pub fn new() -> (r: Self)
        ensures
            r.wf(),
            r.bit_index_of() == -1,
            r.cache() == 0,
    {
        LastBytesCache { bit_index: -1, bytes_cache: 0 }
    }

    /// Moves the recent bytes up by one byte and starts a new one.
    pub fn start_new_byte(&mut self)
        requires
            old(self).bit_index_of() == -1,
        ensures
            final(self).wf(),
            final(self).bit_index_of() == 7,
            final(self).cache() == (old(self).cache() as int * 256) % 0x1_0000_0000,
    {
        self.bit_index = 7;
        proof {
            let c = self.bytes_cache;
            assert(c << 8u32 == ((c as int * 256) % 0x1_0000_0000) as u32) by (bit_vector);
        }
        self.bytes_cache = self.bytes_cache << 8u32;
    }

    /// Records the next bit of the current byte.
    pub fn on_next_bit(&mut self, input_bit: Bit)
        requires
            old(self).wf(),
            old(self).bit_index_of() >= 0,
        ensures
            final(self).wf(),
            final(self).bit_index_of() == old(self).bit_index_of() - 1,
            final(self).cache() == old(self).cache() | ((input_bit.value() as u32) << (old(self).bit_index_of() as u32)),
    {
        let bit_index = self.checked_bit_index();
        self.bytes_cache = self.bytes_cache | (input_bit.to_u32() << (bit_index as u32));
        self.bit_index = self.bit_index - 1;
    }

    pub fn unfinished_byte(&self) -> (r: UnfinishedByte)
        requires
            self.wf(),
            self.bit_index_of() >= 0,
        ensures
            r.value() == unfinished_spec(self.cache(), self.bit_index_of()),
    {
        let bit_index = self.checked_bit_index() as u32;
        let c = self.bytes_cache;
        proof {
            assert(bit_index <= 7 ==> (1u32 << (7 - bit_index) as u32) + ((c & 0xff) >> (bit_index + 1) as u32) < 256) by (bit_vector);
        }
        let raw = (1u32 << (7 - bit_index)) + ((c & 0xff) >> (bit_index + 1));
        UnfinishedByte(raw as u8)
    }

    pub fn previous_byte_1(&self) -> (r: u8)
        requires
            self.bit_index_of() >= 0,
        ensures
            r == (self.cache() >> 8u32) as u8,
    {
        (self.bytes_cache >> 8u32) as u8
    }

    pub fn previous_byte_2(&self) -> (r: u8)
        requires
            self.bit_index_of() >= 0,
        ensures
            r == (self.cache() >> 16u32) as u8,
    {
        (self.bytes_cache >> 16u32) as u8
    }

    pub fn previous_byte_3(&self) -> (r: u8)
        requires
            self.bit_index_of() >= 0,
        ensures
            r == (self.cache() >> 24u32) as u8,
    {
        (self.bytes_cache >> 24u32) as u8
    }

    /// The previous byte and the known bits of the current one.
    pub fn hash01_16(&self) -> (r: u16)
        requires
            self.wf(),
            self.bit_index_of() >= 0,
        ensures
            r == hash01_spec(self.cache(), self.bit_index_of()),
    {
        let bit_index = self.checked_bit_index() as u32;
        let c = self.bytes_cache;
        proof {
            assert(bit_index <= 7 ==> (1u32 << (15 - bit_index) as u32) + ((c & 0xffff) >> (bit_index + 1) as u32) < 0x1_0000) by (bit_vector);
        }
        ((1u32 << (15 - bit_index)) + ((c & 0xffff) >> (bit_index + 1))) as u16
    }

    /// FNV-1a of the two previous bytes and the unfinished byte, folded to
    /// 16 bits.
    pub fn hash02_16(&self) -> (r: u16)
        requires
            self.wf(),
            self.bit_index_of() >= 0,
        ensures
            r == hash02_spec(self.cache(), self.bit_index_of()),
    {
        let mut hasher = Fnv1A::new();
        hasher.mix_byte(self.previous_byte_2());
        hasher.mix_byte(self.previous_byte_1());
        hasher.mix_byte(self.unfinished_byte().raw());
        hasher.into_u16()
    }

    /// FNV-1a of the three previous bytes and the unfinished byte, folded to
    /// 16 bits.
    pub fn hash03_16(&self) -> (r: u16)
        requires
            self.wf(),
            self.bit_index_of() >= 0,
        ensures
            r == hash03_spec(self.cache(), self.bit_index_of()),
    {
        let mut hasher = Fnv1A::new();
        hasher.mix_byte(self.previous_byte_3());
        hasher.mix_byte(self.previous_byte_2());
        hasher.mix_byte(self.previous_byte_1());
        hasher.mix_byte(self.unfinished_byte().raw());
        hasher.into_u16()
    }

    fn checked_bit_index(&self) -> (r: usize)
        requires
            self.bit_index_of() >= 0,
        ensures
            r == self.bit_index_of(),
    {
        self.bit_index as usize
    }
}

} // verus!
