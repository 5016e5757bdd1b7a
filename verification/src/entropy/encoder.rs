use vstd::prelude::*;
use crate::bit::Bit;
use crate::fixed_point::FixU32;
use super::FinalProbability;

verus! {

/// The state of an encoder: the bytes written so far, the low end and the
/// width of the current interval (31 bits), the run of `0xff` bytes held
/// back, the last byte held back, whether a byte is held back and whether
/// a carry is pending for the held-back bytes.
#[verifier::ext_equal]
pub struct EncoderModel {
    pub output: Seq<u8>,
    pub buffer: int,
    pub range: int,
    pub run: int,
    pub last: int,
    pub delay: bool,
    pub carry: bool,
}

/// `n` copies of `byte`.
pub open spec fn repeat_byte(byte: u8, n: nat) -> Seq<u8> {
    Seq::new(n, |i: int| byte)
}

/// A state in which every field is in its range.
pub open spec fn model_wf(m: EncoderModel) -> bool {
    &&& 0 <= m.buffer < 0x8000_0000
    &&& 1 <= m.range < 0x8000_0000
    &&& 0 <= m.run
    &&& 0 <= m.last < 256
}

/// Emits the byte `octet` shifted out of the interval: it is held back if it
/// is `0xff` and no carry is pending; otherwise the held-back bytes are
/// written, with the carry added, and `octet` is held back.
pub open spec fn spec_output_byte(m: EncoderModel, octet: int) -> EncoderModel {
    if octet != 0xff || m.carry {
        let carried = if m.carry {
            1int
        } else {
            0
        };
        let first = if m.delay {
            m.output.push(((m.last + carried) % 256) as u8)
        } else {
            m.output
        };
        let filler: u8 = if m.carry {
            0
        } else {
            0xff
        };
        EncoderModel {
            output: first + repeat_byte(filler, m.run as nat),
            run: 0,
            last: octet,
            delay: true,
            carry: false,
            ..m
        }
    } else {
        EncoderModel { run: m.run + 1, ..m }
    }
}

/// How far an interval of width `range` is from needing no normalization.
pub open spec fn shortfall(range: int) -> int {
    if range < 0x80_0000 {
        0x80_0000 - range
    } else {
        0
    }
}

/// Shifts bytes out of the interval until its width is at least `2^23`.
pub open spec fn spec_normalize(m: EncoderModel) -> EncoderModel
    decreases shortfall(m.range),
    when m.range >= 1
{
    if m.range < 0x80_0000 {
        let n = spec_output_byte(m, m.buffer / 0x80_0000);
        spec_normalize(EncoderModel { buffer: (n.buffer % 0x80_0000) * 256, range: n.range * 256, ..n })
    } else {
        m
    }
}

/// Moves the low end of the interval up by `x`; an overflow past 31 bits
/// becomes a carry into the held-back bytes.
pub open spec fn spec_add_with_carry(m: EncoderModel, x: int) -> EncoderModel {
    let sum = m.buffer + x;
    if sum >= 0x8000_0000 {
        EncoderModel { buffer: sum - 0x8000_0000, carry: true, ..m }
    } else {
        EncoderModel { buffer: sum, ..m }
    }
}

/// The part of the normalized interval given to bit 0.
pub open spec fn split_point(range: int, probability: int) -> int {
    range * probability / 4096
}

/// Coding a bit: bit 0 keeps the lower part of the interval, bit 1 the upper.
pub open spec fn spec_encode_bit(m: EncoderModel, probability: int, bit: Bit) -> EncoderModel {
    let n = spec_normalize(m);
    let helper = split_point(n.range, probability);
    if bit == Bit::One {
        EncoderModel { range: n.range - helper, ..spec_add_with_carry(n, helper) }
    } else {
        EncoderModel { range: helper, ..n }
    }
}

/// Coding a rare event: it gets a width of one, its absence all the rest.
pub open spec fn spec_encode_rare_event(m: EncoderModel, is_rare_event: bool) -> EncoderModel {
    let n = spec_normalize(m);
    if is_rare_event {
        EncoderModel { range: 1, ..spec_add_with_carry(n, n.range - 1) }
    } else {
        EncoderModel { range: n.range - 1, ..n }
    }
}

/// The final `steps` bytes of the low end, shifted out one at a time.
pub open spec fn spec_flush(m: EncoderModel, steps: nat) -> EncoderModel
    decreases steps,
{
    if steps == 0 {
        m
    } else {
        let n = spec_output_byte(m, (m.buffer / 0x80_0000) % 256);
        spec_flush(EncoderModel { buffer: (n.buffer * 256) % 0x1_0000_0000, ..n }, (steps - 1) as nat)
    }
}

/// The number of bytes that normalization shifts out of an interval of
/// width `range`.
pub open spec fn normalize_shifts(range: int) -> nat
    decreases shortfall(range),
    when range >= 1
{
    if range < 0x80_0000 {
        1 + normalize_shifts(range * 256)
    } else {
        0
    }
}

/// An interval of width at least one needs at most three shifts.
pub proof fn lemma_normalize_shifts(range: int)
    requires
        range >= 1,
    ensures
        normalize_shifts(range) <= 3,
{
    assert(normalize_shifts(range * 256 * 256 * 256) == 0);
    assert(normalize_shifts(range * 256 * 256) <= 1);
    assert(normalize_shifts(range * 256) <= 2);
}

/// Normalization shifts out at most three bytes, and what it keeps is in
/// range.
pub proof fn lemma_normalize(m: EncoderModel)
    requires
        model_wf(m),
    ensures
        model_wf(spec_normalize(m)),
        spec_normalize(m).range >= 0x80_0000,
        spec_normalize(m).run <= m.run + normalize_shifts(m.range),
        normalize_shifts(m.range) <= 3,
        m.output.is_prefix_of(spec_normalize(m).output),
    decreases shortfall(m.range),
{
    if m.range < 0x80_0000 {
        let n = spec_output_byte(m, m.buffer / 0x80_0000);
        let k = EncoderModel { buffer: (n.buffer % 0x80_0000) * 256, range: n.range * 256, ..n };
        lemma_normalize(k);
        assert(m.output.is_prefix_of(n.output)) by {
            assert forall|i: int| 0 <= i < m.output.len() implies #[trigger] n.output[i] == m.output[i] by {
            }
        }
        lemma_normalize_shifts(m.range);
    }
}

/// The state of a new encoder.
pub open spec fn initial_encoder() -> EncoderModel {
    EncoderModel {
        output: Seq::empty(),
        buffer: 0,
        range: 0x7fff_ffff,
        run: 0,
        last: 0,
        delay: false,
        carry: true,
    }
}

/// A range coder that writes its bytes into memory; `finish` writes the
/// final bytes and hands the output over.
pub struct Encoder {
    output: Vec<u8>,
    rc_buffer: i32,
    rc_range: i32,
    run_length_0xff: i32,
    last_output_byte: u8,
    delay: bool,
    carry: bool,
}

impl Encoder {
    /// The state of the encoder.
    pub closed spec fn model(&self) -> EncoderModel {
        EncoderModel {
            output: self.output@,
            buffer: self.rc_buffer as int,
            range: self.rc_range as int,
            run: self.run_length_0xff as int,
            last: self.last_output_byte as int,
            delay: self.delay,
            carry: self.carry,
        }
    }

    /// Whether the state is in range and the held-back run of `0xff` bytes
    /// leaves room for one more operation.
    pub open spec fn wf(&self) -> bool {
        &&& model_wf(self.model())
        &&& self.model().run + 8 <= i32::MAX
    }

    pub fn new() -> (r: Encoder)
        ensures
            r.model() == initial_encoder(),
            r.wf(),
    {
        Encoder {
            output: Vec::new(),
            rc_buffer: 0,
            rc_range: 0x7fff_ffff,
            run_length_0xff: 0,
            last_output_byte: 0,
            delay: false,
            carry: true,
        }
    }

    /// The bytes written so far.
    pub fn output(&self) -> (r: &Vec<u8>)
        ensures
            r@ == self.model().output,
    {
        &self.output
    }

    pub fn encode_bit(&mut self, probability: FinalProbability, value: Bit)
        requires
            old(self).wf(),
            FinalProbability::raw_ok(probability.raw_of()),
        ensures
            final(self).model() == spec_encode_bit(old(self).model(), probability.raw_of() as int, value),
            model_wf(final(self).model()),
            final(self).model().run <= old(self).model().run + 3,
            old(self).model().output.is_prefix_of(final(self).model().output),
    {
        self.normalize();
        let ghost n = self.model();
        let p = probability.raw();
        proof {
            assert(n.range * p <= 0x7fff_ffff * 4095) by (nonlinear_arith)
                requires 0 <= n.range <= 0x7fff_ffff, 0 <= p <= 4095;
            assert(n.range * p >= 0x80_0000 * 1) by (nonlinear_arith)
                requires n.range >= 0x80_0000, p >= 1;
            assert(split_point(n.range, p as int) < n.range) by (nonlinear_arith)
                requires n.range >= 1, p <= 4095, split_point(n.range, p as int) == n.range * p / 4096;
        }
        let rc_helper = ((self.rc_range as i64 * p as i64) / 4096) as i32;
        if value.is_1() {
            self.add_with_carry(rc_helper);
            self.rc_range = self.rc_range - rc_helper;
        } else {
            self.rc_range = rc_helper;
        }
    }

    pub fn encode_rare_event(&mut self, is_rare_event: bool)
        requires
            old(self).wf(),
        ensures
            final(self).model() == spec_encode_rare_event(old(self).model(), is_rare_event),
            model_wf(final(self).model()),
            final(self).model().run <= old(self).model().run + 3,
            old(self).model().output.is_prefix_of(final(self).model().output),
    {
        self.normalize();
        if is_rare_event {
            let freq = self.rc_range - 1;
            self.add_with_carry(freq);
            self.rc_range = 1;
        } else {
            self.rc_range = self.rc_range - 1;
        }
    }

    fn normalize(&mut self)
        requires
            old(self).wf(),
        ensures
            final(self).model() == spec_normalize(old(self).model()),
            model_wf(final(self).model()),
            final(self).model().range >= 0x80_0000,
            final(self).model().run <= old(self).model().run + 3,
            old(self).model().output.is_prefix_of(final(self).model().output),
    {
        proof {
            lemma_normalize(self.model());
        }
        let ghost start = self.model();
        let ghost mut shifts: int = 0;
        while self.rc_range < 0x0080_0000
            invariant
                model_wf(self.model()),
                spec_normalize(self.model()) == spec_normalize(start),
                normalize_shifts(self.model().range) + shifts == normalize_shifts(start.range),
                self.model().run <= start.run + shifts,
                start.run + 8 <= i32::MAX,
                normalize_shifts(start.range) <= 3,
                start.output.is_prefix_of(self.model().output),
            decreases shortfall(self.rc_range as int),
        {
            let shifted_byte = self.rc_buffer / 0x80_0000;
            let ghost before = self.model();
            self.output_byte(shifted_byte);
            proof {
                assert(self.model() == spec_output_byte(before, shifted_byte as int));
                assert forall|i: int| 0 <= i < start.output.len() implies #[trigger] self.model().output[i] == start.output[i] by {
                    assert(before.output[i] == start.output[i]);
                }
                shifts = shifts + 1;
            }
            self.rc_buffer = (self.rc_buffer % 0x80_0000) * 256;
            self.rc_range = self.rc_range * 256;
        }
    }

    fn output_byte(&mut self, octet: i32)
        requires
            0 <= octet <= 255,
            0 <= old(self).model().run < i32::MAX,
            old(self).model().last < 256,
        ensures
            final(self).model() == spec_output_byte(old(self).model(), octet as int),
    {
        let ghost m = self.model();
        let octet = octet as u8;
        if octet != 0xff || self.carry {
            if self.delay {
                let to_write = if self.carry {
                    self.last_output_byte.wrapping_add(1)
                } else {
                    self.last_output_byte
                };
                self.output.push(to_write);
            }
            let ghost first = self.output@;
            let filler: u8 = if self.carry {
                0x00
            } else {
                0xff
            };
            while self.run_length_0xff > 0
                invariant
                    0 <= self.run_length_0xff <= m.run,
                    self.rc_buffer == m.buffer,
                    self.rc_range == m.range,
                    self.carry == m.carry,
                    self.output@ == first + repeat_byte(filler, (m.run - self.run_length_0xff) as nat),
                decreases self.run_length_0xff,
            {
                self.run_length_0xff -= 1;
                self.output.push(filler);
                proof {
                    assert(self.output@ =~= first + repeat_byte(filler, (m.run - self.run_length_0xff) as nat));
                }
            }
            self.last_output_byte = octet;
            self.delay = true;
            self.carry = false;
            proof {
                assert(self.output@ =~= first + repeat_byte(filler, m.run as nat));
                if m.delay {
                    let carried = if m.carry { 1int } else { 0 };
                    assert(first == m.output.push(((m.last + carried) % 256) as u8));
                } else {
                    assert(first == m.output);
                }
                assert(self.model() =~= spec_output_byte(m, octet as int));
            }
        } else {
            self.run_length_0xff += 1;
            assert(self.model() =~= spec_output_byte(m, octet as int));
        }
    }

    fn add_with_carry(&mut self, cumulative_exclusive_fraction: i32)
        requires
            model_wf(old(self).model()),
            0 <= cumulative_exclusive_fraction < 0x8000_0000,
        ensures
            final(self).model() == spec_add_with_carry(old(self).model(), cumulative_exclusive_fraction as int),
    {
        let sum = self.rc_buffer as i64 + cumulative_exclusive_fraction as i64;
        if sum >= 0x8000_0000 {
            self.carry = true;
            self.rc_buffer = (sum - 0x8000_0000) as i32;
        } else {
            self.rc_buffer = sum as i32;
        }
    }

    /// Writes the final bytes of the low end and returns everything written.
    pub fn finish(self) -> (r: Vec<u8>)
        requires
            self.wf(),
        ensures
            r@ == spec_flush(self.model(), 5).output,
            self.model().output.is_prefix_of(r@),
    {
        let mut encoder = self;
        let mut buffer: u64 = encoder.rc_buffer as u64;
        let mut step: u8 = 0;
        let ghost start = encoder.model();
        while step < 5
            invariant
                0 <= step <= 5,
                buffer < 0x1_0000_0000,
                0 <= encoder.model().run <= start.run + step,
                start.run + 8 <= i32::MAX,
                encoder.model().last < 256,
                spec_flush(EncoderModel { buffer: buffer as int, ..encoder.model() }, (5 - step) as nat)
                    == spec_flush(start, 5),
                start.output.is_prefix_of(encoder.model().output),
            decreases 5 - step,
        {
            let shifted_byte = ((buffer / 0x80_0000) % 256) as i32;
            let ghost before = EncoderModel { buffer: buffer as int, ..encoder.model() };
            encoder.output_byte(shifted_byte);
            proof {
                assert forall|i: int| 0 <= i < start.output.len() implies #[trigger] encoder.model().output[i] == start.output[i] by {
                    assert(before.output[i] == start.output[i]);
                }
            }
            buffer = (buffer * 256) % 0x1_0000_0000;
            step += 1;
        }
        encoder.output
    }
}

} // verus!
