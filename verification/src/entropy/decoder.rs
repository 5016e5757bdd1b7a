use vstd::prelude::*;
use crate::bit::Bit;
use crate::fixed_point::FixU32;
use super::FinalProbability;
use super::encoder::{shortfall, normalize_shifts, split_point, lemma_normalize_shifts};

verus! {

/// The state of a decoder: the input, the position of the next byte to
/// read, the code value within the interval, the width of the interval and
/// the low bit of the last byte read, which starts the next byte.
#[verifier::ext_equal]
pub struct DecoderModel {
    pub input: Seq<u8>,
    pub position: int,
    pub buffer: int,
    pub range: int,
    pub next_high_bit: int,
}

/// A state in which every field is in its range.
pub open spec fn decoder_wf(m: DecoderModel) -> bool {
    &&& 0 <= m.position <= m.input.len()
    &&& i32::MIN <= m.buffer <= i32::MAX
    &&& 1 <= m.range < 0x8000_0000
    &&& 0 <= m.next_high_bit <= 1
}

/// The next code byte: the input is read shifted right by one bit, the low
/// bit of each byte starting the next one.
pub open spec fn spec_code_byte(m: DecoderModel) -> int {
    m.input[m.position] as int / 2 + m.next_high_bit * 128
}

/// Shifts the next code byte into the low end of the code value.
pub open spec fn spec_shift_in(m: DecoderModel) -> DecoderModel {
    DecoderModel {
        position: m.position + 1,
        buffer: ((m.buffer * 256) as i32) as int + spec_code_byte(m),
        next_high_bit: m.input[m.position] as int % 2,
        ..m
    }
}

/// Shifts bytes in until the interval is at least `2^23` wide.
pub open spec fn spec_decoder_normalize(m: DecoderModel) -> DecoderModel
    decreases shortfall(m.range),
    when m.range >= 1
{
    if m.range < 0x80_0000 {
        spec_decoder_normalize(DecoderModel { range: m.range * 256, ..spec_shift_in(m) })
    } else {
        m
    }
}

/// The state after the first four code bytes of `input`.
pub open spec fn spec_decoder_start(input: Seq<u8>) -> DecoderModel {
    let m0 = DecoderModel { input, position: 0, buffer: 0, range: 0x7fff_ffff, next_high_bit: 0 };
    spec_shift_in(spec_shift_in(spec_shift_in(spec_shift_in(m0))))
}

/// The bit read under a probability of bit 0, and the state after it.
pub open spec fn spec_decode_bit(m: DecoderModel, probability: int) -> (DecoderModel, Bit) {
    let n = spec_decoder_normalize(m);
    let helper = split_point(n.range, probability);
    if n.buffer < helper {
        (DecoderModel { range: helper, ..n }, Bit::Zero)
    } else {
        (DecoderModel { range: n.range - helper, buffer: n.buffer - helper, ..n }, Bit::One)
    }
}

/// Whether a rare event is read, and the state after it.
pub open spec fn spec_decode_rare_event(m: DecoderModel) -> (DecoderModel, bool) {
    let n = spec_decoder_normalize(m);
    if n.buffer < n.range - 1 {
        (DecoderModel { range: n.range - 1, ..n }, false)
    } else {
        (DecoderModel { buffer: 0, range: 1, ..n }, true)
    }
}

/// Whether the input holds the bytes that the next decoding step reads.
pub open spec fn has_input_for_next(m: DecoderModel) -> bool {
    m.position + normalize_shifts(m.range) <= m.input.len()
}

/// A shift keeps the state in range.
proof fn lemma_shift_in(m: DecoderModel)
    requires
        decoder_wf(m),
        m.position < m.input.len(),
    ensures
        decoder_wf(DecoderModel { range: m.range, ..spec_shift_in(m) }),
        0 <= spec_code_byte(m) < 256,
{
    let b = m.input[m.position] as int;
    assert(((m.buffer * 256) as i32) as int % 256 == 0) by {
        let x = m.buffer as i32;
        assert(((x as int * 256) as i32) as int == (x << 8u32) as int) by (bit_vector);
        assert((x << 8u32) & 0xff == 0) by (bit_vector);
        assert(((x << 8u32) as int) % 256 == 0) by (bit_vector);
    }
    assert(((m.buffer * 256) as i32) as int <= i32::MAX - 255);
}

/// Normalization keeps the state in range and reads the bytes counted by
/// `normalize_shifts`.
proof fn lemma_decoder_normalize(m: DecoderModel)
    requires
        decoder_wf(m),
        has_input_for_next(m),
    ensures
        decoder_wf(spec_decoder_normalize(m)),
        spec_decoder_normalize(m).range >= 0x80_0000,
        spec_decoder_normalize(m).input == m.input,
        spec_decoder_normalize(m).position == m.position + normalize_shifts(m.range),
    decreases shortfall(m.range),
{
    if m.range < 0x80_0000 {
        lemma_shift_in(m);
        lemma_decoder_normalize(DecoderModel { range: m.range * 256, ..spec_shift_in(m) });
    }
}

/// A range decoder that reads its bytes from memory.
pub struct Decoder {
    input: Vec<u8>,
    position: usize,
    rc_buffer: i32,
    rc_range: i32,
    next_high_bit: i32,
}

impl Decoder {
    /// The state of the decoder.
    pub closed spec fn model(&self) -> DecoderModel {
        DecoderModel {
            input: self.input@,
            position: self.position as int,
            buffer: self.rc_buffer as int,
            range: self.rc_range as int,
            next_high_bit: self.next_high_bit as int,
        }
    }

    pub open spec fn wf(&self) -> bool {
        decoder_wf(self.model())
    }

    /// Starts decoding `input`, reading its first four bytes.
    pub fn new(input: Vec<u8>) -> (r: Decoder)
        requires
            input.len() >= 4,
        ensures
            r.wf(),
            r.model() == spec_decoder_start(input@),
    {
        let mut decoder = Decoder { input, position: 0, rc_buffer: 0, rc_range: 0x7fff_ffff, next_high_bit: 0 };
        let ghost m0 = decoder.model();
        decoder.shift_in();
        decoder.shift_in();
        decoder.shift_in();
        decoder.shift_in();
        decoder
    }

    /// Whether the input holds the bytes that the next decoding step reads.
    pub fn has_input_for_next(&self) -> (r: bool)
        requires
            self.wf(),
        ensures
            r == has_input_for_next(self.model()),
    {
        let mut range = self.rc_range;
        let mut needed: usize = 0;
        proof {
            lemma_normalize_shifts(range as int);
        }
        while range < 0x80_0000
            invariant
                1 <= range < 0x8000_0000,
                needed + normalize_shifts(range as int) == normalize_shifts(self.rc_range as int),
                needed <= 3,
                normalize_shifts(self.rc_range as int) <= 3,
            decreases shortfall(range as int),
        {
            range = range * 256;
            needed += 1;
        }
        needed <= self.input.len() - self.position
    }

    pub fn decode_bit(&mut self, probability: FinalProbability) -> (r: Bit)
        requires
            old(self).wf(),
            has_input_for_next(old(self).model()),
            FinalProbability::raw_ok(probability.raw_of()),
        ensures
            final(self).wf(),
            (final(self).model(), r) == spec_decode_bit(old(self).model(), probability.raw_of() as int),
    {
        self.normalize();
        let ghost n = self.model();
        let p = probability.raw();
        proof {
            assert(n.range * p <= 0x7fff_ffff * 4095) by (nonlinear_arith)
                requires 0 <= n.range <= 0x7fff_ffff, 0 <= p <= 4095;
            assert(n.range * p >= 0x80_0000 * 1) by (nonlinear_arith)
                requires n.range >= 0x80_0000, p >= 1;
            assert(split_point(n.range, p as int) < n.range) by (nonlinear_arith)
                requires n.range >= 1, p <= 4095, split_point(n.range, p as int) == n.range * p / 4096;
        }
        let rc_helper = ((self.rc_range as i64 * p as i64) / 4096) as i32;
        if self.rc_buffer < rc_helper {
            self.rc_range = rc_helper;
            Bit::from_bool(false)
        } else {
            self.rc_range = self.rc_range - rc_helper;
            self.rc_buffer = self.rc_buffer - rc_helper;
            Bit::from_bool(true)
        }
    }

    pub fn decode_rare_event(&mut self) -> (r: bool)
        requires
            old(self).wf(),
            has_input_for_next(old(self).model()),
        ensures
            final(self).wf(),
            (final(self).model(), r) == spec_decode_rare_event(old(self).model()),
    {
        self.normalize();
        if self.rc_buffer < self.rc_range - 1 {
            self.rc_range = self.rc_range - 1;
            false
        } else {
            self.rc_buffer = 0;
            self.rc_range = 1;
            true
        }
    }

    /// Reads the next byte as a code byte: the input shifted right by one
    /// bit.
    fn input_byte(&mut self) -> (r: i32)
        requires
            old(self).position < old(self).input.len(),
            0 <= old(self).next_high_bit <= 1,
        ensures
            r == spec_code_byte(old(self).model()),
            final(self).input == old(self).input,
            final(self).position == old(self).position + 1,
            final(self).next_high_bit == old(self).input@[old(self).position as int] as int % 2,
            final(self).rc_buffer == old(self).rc_buffer,
            final(self).rc_range == old(self).rc_range,
    {
        let input_byte = self.input[self.position] as i32;
        self.position = self.position + 1;
        let current_byte = input_byte / 2 + self.next_high_bit * 128;
        self.next_high_bit = input_byte % 2;
        current_byte
    }

    fn shift_in(&mut self)
        requires
            decoder_wf(old(self).model()),
            old(self).position < old(self).input.len(),
        ensures
            final(self).model() == (DecoderModel { range: old(self).model().range, ..spec_shift_in(old(self).model()) }),
            decoder_wf(final(self).model()),
    {
        proof {
            lemma_shift_in(self.model());
        }
        let shifted = ((self.rc_buffer as i64) * 256) as i32;
        let byte = self.input_byte();
        self.rc_buffer = shifted + byte;
    }

    fn normalize(&mut self)
        requires
            old(self).wf(),
            has_input_for_next(old(self).model()),
        ensures
            final(self).model() == spec_decoder_normalize(old(self).model()),
            final(self).wf(),
            final(self).model().range >= 0x80_0000,
    {
        proof {
            lemma_decoder_normalize(self.model());
        }
        let ghost start = self.model();
        while self.rc_range < 0x0080_0000
            invariant
                self.wf(),
                has_input_for_next(self.model()),
                spec_decoder_normalize(self.model()) == spec_decoder_normalize(start),
            decreases shortfall(self.rc_range as int),
        {
            self.shift_in();
            self.rc_range = self.rc_range * 256;
        }
    }
}

} // verus!
