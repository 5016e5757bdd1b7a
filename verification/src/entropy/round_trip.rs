//! Decoding gives back what was encoded: the encoder's output, read by the
//! decoder under the same probabilities, yields the same bits.

use vstd::prelude::*;
use crate::bit::Bit;
use super::encoder::{
    EncoderModel, model_wf, repeat_byte, spec_output_byte, spec_normalize, spec_add_with_carry, spec_encode_bit,
    spec_flush, normalize_shifts, split_point, shortfall, lemma_normalize_shifts, initial_encoder,
};
use super::decoder::{
    DecoderModel, decoder_wf, spec_code_byte, spec_shift_in, spec_decoder_normalize, spec_decoder_start,
    spec_decode_bit, has_input_for_next,
};

verus! {

// ---------------------------------------------------------------------------
// Numbers written as bytes.
// ---------------------------------------------------------------------------

/// `256^n`.
pub open spec fn base_pow(n: nat) -> int
    decreases n,
{
    if n == 0 {
        1
    } else {
        256 * base_pow((n - 1) as nat)
    }
}

/// The number that bytes write, most significant first.
pub open spec fn bytes_value(s: Seq<u8>) -> int
    decreases s.len(),
{
    if s.len() == 0 {
        0
    } else {
        bytes_value(s.drop_last()) * 256 + s.last() as int
    }
}

proof fn lemma_base_pow_pos(n: nat)
    ensures
        base_pow(n) >= 1,
    decreases n,
{
    if n > 0 {
        lemma_base_pow_pos((n - 1) as nat);
    }
}

proof fn lemma_base_pow_add(a: nat, b: nat)
    ensures
        base_pow(a + b) == base_pow(a) * base_pow(b),
    decreases b,
{
    if b > 0 {
        lemma_base_pow_add(a, (b - 1) as nat);
        assert(base_pow(a + b) == 256 * base_pow((a + b - 1) as nat));
        assert(base_pow(a) * (256 * base_pow((b - 1) as nat)) == 256 * (base_pow(a) * base_pow((b - 1) as nat)))
            by (nonlinear_arith);
    }
}

proof fn lemma_bytes_value_push(s: Seq<u8>, b: u8)
    ensures
        bytes_value(s.push(b)) == bytes_value(s) * 256 + b,
{
    assert(s.push(b).drop_last() =~= s);
}

proof fn lemma_bytes_value_bound(s: Seq<u8>)
    ensures
        0 <= bytes_value(s) < base_pow(s.len()),
    decreases s.len(),
{
    if s.len() > 0 {
        lemma_bytes_value_bound(s.drop_last());
        let v = bytes_value(s.drop_last());
        let p = base_pow(s.drop_last().len());
        assert(v * 256 + s.last() < p * 256) by (nonlinear_arith)
            requires 0 <= v < p, 0 <= s.last() < 256;
        assert(v * 256 + s.last() >= 0) by (nonlinear_arith)
            requires 0 <= v, 0 <= s.last();
    }
}

proof fn lemma_bytes_value_concat(a: Seq<u8>, b: Seq<u8>)
    ensures
        bytes_value(a + b) == bytes_value(a) * base_pow(b.len()) + bytes_value(b),
    decreases b.len(),
{
    if b.len() == 0 {
        assert(a + b =~= a);
    } else {
        let b0 = b.drop_last();
        lemma_bytes_value_concat(a, b0);
        assert((a + b).drop_last() =~= a + b0);
        assert((a + b).last() == b.last());
        let va = bytes_value(a);
        let p0 = base_pow(b0.len());
        assert(base_pow(b.len()) == 256 * p0);
        assert((va * p0 + bytes_value(b0)) * 256 + b.last() == va * (256 * p0) + (bytes_value(b0) * 256 + b.last()))
            by (nonlinear_arith);
    }
}

proof fn lemma_repeat_value(byte: u8, n: nat)
    requires
        byte == 0 || byte == 0xff,
    ensures
        bytes_value(repeat_byte(byte, n)) == if byte == 0 {
            0
        } else {
            base_pow(n) - 1
        },
    decreases n,
{
    if n > 0 {
        lemma_repeat_value(byte, (n - 1) as nat);
        assert(repeat_byte(byte, n).drop_last() =~= repeat_byte(byte, (n - 1) as nat));
    }
}

/// The leading `j` bytes write the number divided by `256` to the power of
/// the bytes left out.
proof fn lemma_bytes_value_take(s: Seq<u8>, j: int)
    requires
        0 <= j <= s.len(),
    ensures
        bytes_value(s.take(j)) == bytes_value(s) / base_pow((s.len() - j) as nat),
{
    let k = (s.len() - j) as nat;
    assert(s =~= s.take(j) + s.skip(j));
    lemma_bytes_value_concat(s.take(j), s.skip(j));
    lemma_bytes_value_bound(s.skip(j));
    lemma_base_pow_pos(k);
    let q = bytes_value(s.take(j));
    let r = bytes_value(s.skip(j));
    let p = base_pow(k);
    assert((q * p + r) / p == q) by (nonlinear_arith)
        requires 0 <= r < p, p >= 1;
}

// ---------------------------------------------------------------------------
// The encoder's interval at the precision of all the bytes shifted out.
// ---------------------------------------------------------------------------

/// The number of bytes shifted out of the interval so far: written, held
/// back or pending.
pub open spec fn shifted_digits(m: EncoderModel) -> nat {
    if m.delay {
        (m.output.len() + 1 + m.run) as nat
    } else {
        m.output.len()
    }
}

/// The bytes shifted out so far as a number, a pending carry added.
pub open spec fn shifted_value(m: EncoderModel) -> int {
    if m.delay {
        bytes_value(m.output) * base_pow((1 + m.run) as nat) + m.last * base_pow(m.run as nat) + (base_pow(
            m.run as nat,
        ) - 1) + if m.carry {
            1int
        } else {
            0
        }
    } else {
        0
    }
}

/// The low end of the interval, the shifted bytes above the 31 bits of the
/// buffer.
pub open spec fn interval_low(m: EncoderModel) -> int {
    shifted_value(m) * 0x8000_0000 + m.buffer
}

/// What keeps the bytes written final: a pending carry finds a held-back
/// byte below `0xff`, and no second carry comes before it is written; the
/// interval lies below the end of the bytes shifted out.
pub open spec fn coder_inv(m: EncoderModel) -> bool {
    &&& model_wf(m)
    &&& !m.delay ==> m.output.len() == 0 && m.run == 0 && m.carry
    &&& m.carry ==> m.buffer + m.range <= 0x8000_0000
    &&& m.delay && m.carry ==> m.last < 255
    &&& m.delay && m.last == 255 ==> m.buffer + m.range <= 0x8000_0000
    &&& interval_low(m) + m.range <= 0x8000_0000 * base_pow(shifted_digits(m))
}

/// Shifting a byte out appends it to the shifted number.
proof fn lemma_output_byte(m: EncoderModel, octet: int)
    requires
        0 <= m.run,
        0 <= m.last < 256,
        0 <= octet < 256,
        !m.delay ==> m.output.len() == 0 && m.run == 0 && m.carry,
        m.delay && m.carry ==> m.last < 255,
    ensures
        ({
            let n = spec_output_byte(m, octet);
            &&& shifted_value(n) == shifted_value(m) * 256 + octet
            &&& shifted_digits(n) == shifted_digits(m) + 1
            &&& n.delay
            &&& !n.carry
            &&& n.buffer == m.buffer
            &&& n.range == m.range
            &&& 0 <= n.run
            &&& 0 <= n.last < 256
            &&& n.last == 255 ==> octet == 255 && (m.carry || (m.delay && m.last == 255))
            &&& octet != 0xff ==> n.run == 0 && n.last == octet
            &&& m.output.is_prefix_of(n.output)
        }),
{
    let n = spec_output_byte(m, octet);
    let k = m.run as nat;
    lemma_base_pow_pos(k);
    assert(base_pow(k + 1) == 256 * base_pow(k));
    if octet != 0xff || m.carry {
        let carried = if m.carry { 1int } else { 0 };
        let filler: u8 = if m.carry { 0 } else { 0xff };
        let first = if m.delay {
            m.output.push(((m.last + carried) % 256) as u8)
        } else {
            m.output
        };
        assert(n.output == first + repeat_byte(filler, k));
        lemma_bytes_value_concat(first, repeat_byte(filler, k));
        lemma_repeat_value(filler, k);
        if m.delay {
            lemma_bytes_value_push(m.output, ((m.last + carried) % 256) as u8);
            assert(((m.last + carried) % 256) as u8 == m.last + carried);
            let v = bytes_value(m.output);
            let p = base_pow(k);
            assert((v * 256 + m.last + carried) * p == v * (256 * p) + m.last * p + carried * p) by (nonlinear_arith);
            if m.carry {
                assert(bytes_value(n.output) == shifted_value(m));
            } else {
                assert(bytes_value(n.output) == shifted_value(m));
            }
        } else {
            assert(first =~= Seq::<u8>::empty());
            assert(bytes_value(n.output) == 0);
        }
        assert(n.output.len() == first.len() + k);
        assert(base_pow(0) == 1);
        assert(base_pow(1) == 256);
        assert(m.output.is_prefix_of(n.output)) by {
            assert forall|i: int| 0 <= i < m.output.len() implies n.output[i] == m.output[i] by {
                assert(first[i] == m.output[i]);
            }
        }
    } else {
        let v = bytes_value(m.output);
        let p = base_pow(k);
        assert(base_pow(k + 2) == 256 * base_pow(k + 1));
        assert(v * (256 * (256 * p)) + m.last * (256 * p) + (256 * p - 1) == (v * (256 * p) + m.last * p + (p - 1)) * 256
            + 255) by (nonlinear_arith);
    }
}

/// One shift of normalization: the top byte of the buffer out, the interval
/// scaled up by a byte.
pub open spec fn shift_step(m: EncoderModel) -> EncoderModel {
    let k = spec_output_byte(m, m.buffer / 0x80_0000);
    EncoderModel { buffer: (k.buffer % 0x80_0000) * 256, range: k.range * 256, ..k }
}

/// A shift scales the interval up by a byte and keeps the invariant.
proof fn lemma_shift_step(m: EncoderModel)
    requires
        coder_inv(m),
        m.range < 0x80_0000,
    ensures
        coder_inv(shift_step(m)),
        interval_low(shift_step(m)) == 256 * interval_low(m),
        shift_step(m).range == 256 * m.range,
        shifted_digits(shift_step(m)) == shifted_digits(m) + 1,
        m.output.is_prefix_of(shift_step(m).output),
{
    let octet = m.buffer / 0x80_0000;
    lemma_output_byte(m, octet);
    let k = spec_output_byte(m, octet);
    let next = shift_step(m);
    let low = interval_low(m);
    let sv = shifted_value(m);
    let b = m.buffer;
    assert(b == octet * 0x80_0000 + b % 0x80_0000);
    assert(interval_low(next) == 256 * low) by {
        assert(interval_low(next) == (sv * 256 + octet) * 0x8000_0000 + (b % 0x80_0000) * 256);
    }
    let n_digits = shifted_digits(m);
    assert(base_pow(n_digits + 1) == 256 * base_pow(n_digits));
    assert(interval_low(next) + next.range <= 0x8000_0000 * base_pow(shifted_digits(next))) by {
        assert(256 * (low + m.range) <= 256 * (0x8000_0000 * base_pow(n_digits)));
    }
    if next.delay && next.last == 255 {
        assert(octet == 255);
        assert(b + m.range <= 0x8000_0000);
    }
}

/// Normalization scales the interval up by a byte per shift and keeps the
/// invariant.
proof fn lemma_normalize_tracks(m: EncoderModel)
    requires
        coder_inv(m),
    ensures
        ({
            let n = spec_normalize(m);
            let s = normalize_shifts(m.range);
            &&& coder_inv(n)
            &&& n.range >= 0x80_0000
            &&& interval_low(n) == interval_low(m) * base_pow(s)
            &&& n.range == m.range * base_pow(s)
            &&& shifted_digits(n) == shifted_digits(m) + s
            &&& m.output.is_prefix_of(n.output)
        }),
    decreases shortfall(m.range),
{
    if m.range < 0x80_0000 {
        lemma_shift_step(m);
        let next = shift_step(m);
        let low = interval_low(m);
        lemma_normalize_tracks(next);
        let s1 = normalize_shifts(next.range);
        assert(normalize_shifts(m.range) == 1 + s1);
        lemma_base_pow_add(1, s1);
        assert(base_pow(1) == 256) by {
            assert(base_pow(0) == 1);
        }
        assert(base_pow(1 + s1) == 256 * base_pow(s1));
        let n = spec_normalize(next);
        assert(spec_normalize(m) == n);
        assert(interval_low(n) == (256 * low) * base_pow(s1));
        assert((256 * low) * base_pow(s1) == low * (256 * base_pow(s1))) by (nonlinear_arith);
        assert((m.range * 256) * base_pow(s1) == m.range * (256 * base_pow(s1))) by (nonlinear_arith);
        assert(m.output.is_prefix_of(n.output)) by {
            assert forall|i: int| 0 <= i < m.output.len() implies n.output[i] == m.output[i] by {
                assert(next.output[i] == m.output[i]);
            }
        }
    } else {
        assert(base_pow(0) == 1);
    }
}

/// Coding a bit narrows the normalized interval to the part of the bit.
proof fn lemma_encode_bit_tracks(m: EncoderModel, probability: int, bit: Bit)
    requires
        coder_inv(m),
        1 <= probability <= 4095,
    ensures
        ({
            let n = spec_normalize(m);
            let e = spec_encode_bit(m, probability, bit);
            let helper = split_point(n.range, probability);
            &&& coder_inv(e)
            &&& shifted_digits(e) == shifted_digits(n)
            &&& 1 <= helper < n.range
            &&& bit == Bit::Zero ==> interval_low(e) == interval_low(n) && e.range == helper
            &&& bit == Bit::One ==> interval_low(e) == interval_low(n) + helper && e.range == n.range - helper
            &&& m.output.is_prefix_of(e.output)
        }),
{
    lemma_normalize_tracks(m);
    let n = spec_normalize(m);
    let helper = split_point(n.range, probability);
    assert(1 <= helper < n.range) by {
        assert(n.range * probability >= 0x80_0000) by (nonlinear_arith)
            requires n.range >= 0x80_0000, probability >= 1;
        assert(n.range * probability < n.range * 4096) by (nonlinear_arith)
            requires n.range >= 1, probability <= 4095;
    }
    if bit == Bit::One {
        let a = spec_add_with_carry(n, helper);
        if n.buffer + helper >= 0x8000_0000 {
            assert(!n.carry);
            assert(n.delay ==> n.last != 255);
            assert(n.delay);
        }
    }
}

/// Coding a rare event narrows the normalized interval to the event's
/// width of one or to the rest.
proof fn lemma_encode_rare_event_tracks(m: EncoderModel, is_rare_event: bool)
    requires
        coder_inv(m),
    ensures
        ({
            let n = spec_normalize(m);
            let e = super::encoder::spec_encode_rare_event(m, is_rare_event);
            let helper = n.range - 1;
            &&& coder_inv(e)
            &&& shifted_digits(e) == shifted_digits(n)
            &&& 1 <= helper < n.range
            &&& !is_rare_event ==> interval_low(e) == interval_low(n) && e.range == helper
            &&& is_rare_event ==> interval_low(e) == interval_low(n) + helper && e.range == n.range - helper
            &&& m.output.is_prefix_of(e.output)
        }),
{
    lemma_normalize_tracks(m);
    let n = spec_normalize(m);
    if is_rare_event {
        if n.buffer + n.range - 1 >= 0x8000_0000 {
            assert(!n.carry);
            assert(n.delay ==> n.last != 255);
            assert(n.delay);
        }
    }
}

/// The byte that a flush step writes from a buffer.
pub open spec fn flush_octet(b: u64) -> u64 {
    (b / 0x80_0000) % 256
}

/// The buffer after a flush step.
pub open spec fn flush_next(b: u64) -> u64 {
    ((b * 256) % 0x1_0000_0000) as u64
}

/// The five bytes that a flush writes from 31 bits are the bits doubled,
/// then a zero.
proof fn lemma_flush_octets(b: u64)
    by (bit_vector)
    requires
        b < 0x8000_0000,
    ensures
        flush_octet(flush_next(flush_next(flush_next(flush_next(b))))) == 0,
        flush_octet(b) * 0x1_0000_0000 + flush_octet(flush_next(b)) * 0x100_0000 + flush_octet(
            flush_next(flush_next(b)),
        ) * 0x1_0000 + flush_octet(flush_next(flush_next(flush_next(b)))) * 0x100 == 2 * b * 256,
        flush_octet(b) < 256,
        flush_octet(flush_next(b)) < 256,
        flush_octet(flush_next(flush_next(b))) < 256,
        flush_octet(flush_next(flush_next(flush_next(b)))) < 256,
{
}

/// The step of a flush from a state.
pub open spec fn flush_step(m: EncoderModel) -> EncoderModel {
    let n = spec_output_byte(m, (m.buffer / 0x80_0000) % 256);
    EncoderModel { buffer: (n.buffer * 256) % 0x1_0000_0000, ..n }
}

/// The flushed output writes twice the low end of the interval, on four
/// bytes more than were shifted out.
#[verifier::spinoff_prover]
#[verifier::rlimit(50)]
proof fn lemma_flush(m: EncoderModel)
    requires
        coder_inv(m),
    ensures
        bytes_value(spec_flush(m, 5).output) == 2 * interval_low(m),
        spec_flush(m, 5).output.len() == shifted_digits(m) + 4,
        m.output.is_prefix_of(spec_flush(m, 5).output),
{
    reveal_with_fuel(spec_flush, 6);
    let b0 = m.buffer as u64;
    lemma_flush_octets(b0);
    let f1 = flush_step(m);
    let f2 = flush_step(f1);
    let f3 = flush_step(f2);
    let f4 = flush_step(f3);
    let f5 = flush_step(f4);
    assert(spec_flush(m, 5) == f5);
    let b1 = flush_next(b0);
    let b2 = flush_next(b1);
    let b3 = flush_next(b2);
    let b4 = flush_next(b3);
    lemma_output_byte(m, flush_octet(b0) as int);
    assert(f1.buffer == b1);
    lemma_output_byte(f1, flush_octet(b1) as int);
    assert(f2.buffer == b2);
    lemma_output_byte(f2, flush_octet(b2) as int);
    assert(f3.buffer == b3);
    lemma_output_byte(f3, flush_octet(b3) as int);
    assert(f4.buffer == b4);
    lemma_output_byte(f4, flush_octet(b4) as int);
    let sv = shifted_value(m);
    assert(shifted_value(f5) == ((((sv * 256 + flush_octet(b0)) * 256 + flush_octet(b1)) * 256 + flush_octet(b2)) * 256
        + flush_octet(b3)) * 256 + flush_octet(b4));
    assert(f5.run == 0 && f5.last == 0 && !f5.carry && f5.delay);
    assert(base_pow(0) == 1);
    assert(base_pow(1) == 256);
    assert(shifted_value(f5) == bytes_value(f5.output) * 256);
    assert(bytes_value(f5.output) == 2 * interval_low(m)) by (nonlinear_arith)
        requires
            bytes_value(f5.output) * 256 == ((((sv * 256 + flush_octet(b0)) * 256 + flush_octet(b1)) * 256 + flush_octet(
                b2,
            )) * 256 + flush_octet(b3)) * 256 + flush_octet(b4),
            flush_octet(b4) == 0,
            flush_octet(b0) * 0x1_0000_0000 + flush_octet(b1) * 0x100_0000 + flush_octet(b2) * 0x1_0000 + flush_octet(b3)
                * 0x100 == 2 * b0 * 256,
            interval_low(m) == sv * 0x8000_0000 + b0,
    ;
    assert(m.output.is_prefix_of(f5.output)) by {
        assert(m.output.is_prefix_of(f1.output));
        assert(f1.output.is_prefix_of(f2.output));
        assert(f2.output.is_prefix_of(f3.output));
        assert(f3.output.is_prefix_of(f4.output));
        assert(f4.output.is_prefix_of(f5.output));
        assert forall|i: int| 0 <= i < m.output.len() implies f5.output[i] == m.output[i] by {
            assert(f1.output[i] == m.output[i]);
            assert(f2.output[i] == f1.output[i]);
            assert(f3.output[i] == f2.output[i]);
            assert(f4.output[i] == f3.output[i]);
            assert(f5.output[i] == f4.output[i]);
        }
    }
}

// ---------------------------------------------------------------------------
// Sequences of coding steps.
// ---------------------------------------------------------------------------

/// One step of coding: a bit under a probability of bit 0 (12 fractional
/// bits), or whether a rare event occurs.
#[derive(Clone, Copy, Debug)]
pub enum CodingStep {
    CodedBit { probability: u32, bit: Bit },
    RareEvent { present: bool },
}

/// Whether the probability of a coded bit is strictly between 0 and 1.
pub open spec fn step_ok(step: CodingStep) -> bool {
    match step {
        CodingStep::CodedBit { probability, .. } => 1 <= probability <= 4095,
        CodingStep::RareEvent { .. } => true,
    }
}

/// What a step codes: whether the bit is one, or whether the event occurs.
pub open spec fn step_answer(step: CodingStep) -> bool {
    match step {
        CodingStep::CodedBit { bit, .. } => bit == Bit::One,
        CodingStep::RareEvent { present } => present,
    }
}

/// The encoder after a step.
pub open spec fn encode_step(m: EncoderModel, step: CodingStep) -> EncoderModel {
    match step {
        CodingStep::CodedBit { probability, bit } => spec_encode_bit(m, probability as int, bit),
        CodingStep::RareEvent { present } => super::encoder::spec_encode_rare_event(m, present),
    }
}

/// The encoder after several steps.
pub open spec fn encode_steps(m: EncoderModel, steps: Seq<CodingStep>) -> EncoderModel
    decreases steps.len(),
{
    if steps.len() == 0 {
        m
    } else {
        encode_step(encode_steps(m, steps.drop_last()), steps.last())
    }
}

/// The decoder after a step, and what it read; it uses the step's
/// probability only.
pub open spec fn decode_step(d: DecoderModel, step: CodingStep) -> (DecoderModel, bool) {
    match step {
        CodingStep::CodedBit { probability, .. } => {
            let (n, bit) = spec_decode_bit(d, probability as int);
            (n, bit == Bit::One)
        },
        CodingStep::RareEvent { .. } => super::decoder::spec_decode_rare_event(d),
    }
}

/// The decoder after several steps, and what it read.
pub open spec fn decode_steps(d: DecoderModel, steps: Seq<CodingStep>) -> (DecoderModel, Seq<bool>)
    decreases steps.len(),
{
    if steps.len() == 0 {
        (d, Seq::empty())
    } else {
        let (n, answers) = decode_steps(d, steps.drop_last());
        let (e, answer) = decode_step(n, steps.last());
        (e, answers.push(answer))
    }
}

/// Whether the input holds the bytes of each of the steps.
pub open spec fn decodable(d: DecoderModel, steps: Seq<CodingStep>) -> bool
    decreases steps.len(),
{
    if steps.len() == 0 {
        true
    } else {
        decodable(d, steps.drop_last()) && has_input_for_next(decode_steps(d, steps.drop_last()).0)
    }
}

/// The interval of a later state lies within that of an earlier one, at the
/// precision of the later one.
pub open spec fn nested(outer: EncoderModel, inner: EncoderModel) -> bool {
    let scale = base_pow((shifted_digits(inner) - shifted_digits(outer)) as nat);
    &&& shifted_digits(outer) <= shifted_digits(inner)
    &&& interval_low(outer) * scale <= interval_low(inner)
    &&& interval_low(inner) + inner.range <= (interval_low(outer) + outer.range) * scale
}

/// A step keeps the invariant and nests the interval.
proof fn lemma_step_nests(m: EncoderModel, step: CodingStep)
    requires
        coder_inv(m),
        step_ok(step),
    ensures
        coder_inv(encode_step(m, step)),
        nested(m, encode_step(m, step)),
        m.output.is_prefix_of(encode_step(m, step).output),
{
    lemma_normalize_tracks(m);
    let n = spec_normalize(m);
    let s = normalize_shifts(m.range);
    match step {
        CodingStep::CodedBit { probability, bit } => {
            lemma_encode_bit_tracks(m, probability as int, bit);
        },
        CodingStep::RareEvent { present } => {
            lemma_encode_rare_event_tracks(m, present);
        },
    }
    let e = encode_step(m, step);
    assert(shifted_digits(e) - shifted_digits(m) == s);
    let scale = base_pow(s);
    lemma_base_pow_pos(s);
    assert(interval_low(n) + n.range == (interval_low(m) + m.range) * scale) by (nonlinear_arith)
        requires interval_low(n) == interval_low(m) * scale, n.range == m.range * scale;
}

/// Nesting is transitive.
proof fn lemma_nested_transitive(a: EncoderModel, b: EncoderModel, c: EncoderModel)
    requires
        nested(a, b),
        nested(b, c),
        a.range >= 1,
        b.range >= 1,
        c.range >= 1,
    ensures
        nested(a, c),
{
    let k1 = (shifted_digits(b) - shifted_digits(a)) as nat;
    let k2 = (shifted_digits(c) - shifted_digits(b)) as nat;
    lemma_base_pow_add(k1, k2);
    lemma_base_pow_pos(k1);
    lemma_base_pow_pos(k2);
    assert(k1 + k2 == shifted_digits(c) - shifted_digits(a));
    let p1 = base_pow(k1);
    let p2 = base_pow(k2);
    let la = interval_low(a);
    let lb = interval_low(b);
    let lc = interval_low(c);
    assert(la * (p1 * p2) <= lc) by (nonlinear_arith)
        requires la * p1 <= lb, lb * p2 <= lc, p2 >= 1;
    assert(lc + c.range <= (la + a.range) * (p1 * p2)) by (nonlinear_arith)
        requires lc + c.range <= (lb + b.range) * p2, lb + b.range <= (la + a.range) * p1, p2 >= 1;
}

/// Coding steps keeps the invariant, and the final interval lies within
/// every earlier one.
proof fn lemma_steps_nest(m: EncoderModel, steps: Seq<CodingStep>)
    requires
        coder_inv(m),
        forall|i: int| 0 <= i < steps.len() ==> step_ok(#[trigger] steps[i]),
    ensures
        coder_inv(encode_steps(m, steps)),
        nested(m, encode_steps(m, steps)),
        m.output.is_prefix_of(encode_steps(m, steps).output),
    decreases steps.len(),
{
    if steps.len() == 0 {
        assert(base_pow(0) == 1);
    } else {
        let init = steps.drop_last();
        assert forall|i: int| 0 <= i < init.len() implies step_ok(#[trigger] init[i]) by {
            assert(init[i] == steps[i]);
        }
        lemma_steps_nest(m, init);
        let mid = encode_steps(m, init);
        assert(step_ok(steps.last())) by {
            assert(steps.last() == steps[steps.len() - 1]);
        }
        lemma_step_nests(mid, steps.last());
        lemma_nested_transitive(m, mid, encode_steps(m, steps));
        assert(m.output.is_prefix_of(encode_steps(m, steps).output)) by {
            let e = encode_steps(m, steps);
            assert forall|i: int| 0 <= i < m.output.len() implies e.output[i] == m.output[i] by {
                assert(mid.output[i] == m.output[i]);
            }
        }
    }
}

/// Coding the steps of two sequences one after the other is coding their
/// concatenation.
proof fn lemma_encode_steps_concat(m: EncoderModel, a: Seq<CodingStep>, b: Seq<CodingStep>)
    ensures
        encode_steps(m, a + b) == encode_steps(encode_steps(m, a), b),
    decreases b.len(),
{
    if b.len() == 0 {
        assert(a + b =~= a);
    } else {
        lemma_encode_steps_concat(m, a, b.drop_last());
        assert((a + b).drop_last() =~= a + b.drop_last());
        assert((a + b).last() == b.last());
    }
}

// ---------------------------------------------------------------------------
// The decoder reads the code within the encoder's interval.
// ---------------------------------------------------------------------------

/// The code read after `j` bytes of input: the input read one bit later.
pub open spec fn code_value(input: Seq<u8>, j: int) -> int {
    bytes_value(input.take(j)) / 2
}

/// The low bit of the byte before position `j`, which starts the next code
/// byte.
pub open spec fn carried_bit(input: Seq<u8>, j: int) -> int {
    if j == 0 {
        0
    } else {
        input[j - 1] as int % 2
    }
}

proof fn lemma_code_value_step(input: Seq<u8>, j: int)
    requires
        0 <= j < input.len(),
    ensures
        code_value(input, j + 1) == code_value(input, j) * 256 + carried_bit(input, j) * 128 + input[j] as int / 2,
        code_value(input, j) >= 0,
{
    assert(input.take(j + 1) =~= input.take(j).push(input[j]));
    lemma_bytes_value_push(input.take(j), input[j]);
    lemma_bytes_value_bound(input.take(j));
    let v = bytes_value(input.take(j));
    if j > 0 {
        assert(input.take(j) =~= input.take(j - 1).push(input[j - 1]));
        lemma_bytes_value_push(input.take(j - 1), input[j - 1]);
        lemma_bytes_value_bound(input.take(j - 1));
        assert(v % 2 == input[j - 1] as int % 2) by (nonlinear_arith)
            requires v == bytes_value(input.take(j - 1)) * 256 + input[j - 1] as int;
    } else {
        assert(input.take(0) =~= Seq::<u8>::empty());
    }
    let c = v / 2;
    let b = input[j] as int;
    assert(v == 2 * c + v % 2);
    assert((v * 256 + b) / 2 == c * 256 + (v % 2) * 128 + b / 2) by (nonlinear_arith)
        requires v == 2 * c + v % 2, 0 <= v % 2 <= 1, 0 <= b < 256;
}

/// Halving after dividing twice the number is dividing the number.
proof fn lemma_half_of_double(x: int, p: int)
    requires
        x >= 0,
        p >= 1,
    ensures
        (2 * x / p) / 2 == x / p,
{
    let q = x / p;
    let r = x % p;
    assert(x == q * p + r && 0 <= r < p) by {
        vstd::arithmetic::div_mod::lemma_fundamental_div_mod(x, p);
    }
    assert(2 * x == (2 * q) * p + 2 * r) by (nonlinear_arith)
        requires x == q * p + r;
    if 2 * r < p {
        assert(2 * x / p == 2 * q) by (nonlinear_arith)
            requires 2 * x == (2 * q) * p + 2 * r, 0 <= 2 * r < p, p >= 1;
    } else {
        assert(2 * x == (2 * q + 1) * p + (2 * r - p)) by (nonlinear_arith)
            requires 2 * x == (2 * q) * p + 2 * r;
        assert(2 * x / p == 2 * q + 1) by (nonlinear_arith)
            requires 2 * x == (2 * q + 1) * p + (2 * r - p), 0 <= 2 * r - p < p, p >= 1;
    }
}

/// Whether the decoder reads the final code within the encoder's interval:
/// past the same bytes, with the code less the low end as its buffer.
pub open spec fn tracks(d: DecoderModel, e: EncoderModel, out: Seq<u8>) -> bool {
    &&& d.input == out
    &&& d.position == shifted_digits(e) + 4
    &&& d.position <= out.len()
    &&& d.range == e.range
    &&& d.next_high_bit == carried_bit(out, d.position)
    &&& d.buffer == code_value(out, d.position) - interval_low(e)
    &&& 0 <= d.buffer < d.range
}

/// The output of a final state: twice its low end, on four bytes more than
/// it shifted out.
pub open spec fn final_output(f: EncoderModel, out: Seq<u8>) -> bool {
    &&& bytes_value(out) == 2 * interval_low(f)
    &&& out.len() == shifted_digits(f) + 4
    &&& f.range >= 1
}

/// The code read at the precision of a state lies in the state's interval,
/// when the final interval lies within it.
proof fn lemma_code_in_interval(e: EncoderModel, f: EncoderModel, out: Seq<u8>)
    requires
        nested(e, f),
        final_output(f, out),
        interval_low(e) >= 0,
    ensures
        interval_low(e) <= code_value(out, shifted_digits(e) + 4int) < interval_low(e) + e.range,
        shifted_digits(e) + 4 <= out.len(),
{
    let j = shifted_digits(e) + 4int;
    let k = (shifted_digits(f) - shifted_digits(e)) as nat;
    assert(out.len() - j == k);
    lemma_bytes_value_take(out, j);
    lemma_base_pow_pos(k);
    let p = base_pow(k);
    let lf = interval_low(f);
    assert(lf >= 0) by (nonlinear_arith)
        requires interval_low(e) * p <= lf, interval_low(e) >= 0, p >= 1;
    lemma_half_of_double(lf, p);
    assert(code_value(out, j) == lf / p);
    let le = interval_low(e);
    assert(le <= lf / p) by (nonlinear_arith)
        requires le * p <= lf, p >= 1;
    assert(lf / p < le + e.range) by (nonlinear_arith)
        requires lf + f.range <= (le + e.range) * p, f.range >= 1, p >= 1, lf >= 0;
}

/// The low end of the interval is not negative.
proof fn lemma_low_nonneg(m: EncoderModel)
    requires
        coder_inv(m),
    ensures
        interval_low(m) >= 0,
{
    if m.delay {
        lemma_bytes_value_bound(m.output);
        lemma_base_pow_pos((1 + m.run) as nat);
        lemma_base_pow_pos(m.run as nat);
        let v = bytes_value(m.output);
        assert(v * base_pow((1 + m.run) as nat) >= 0) by (nonlinear_arith)
            requires v >= 0, base_pow((1 + m.run) as nat) >= 1;
        assert(m.last * base_pow(m.run as nat) >= 0) by (nonlinear_arith)
            requires m.last >= 0, base_pow(m.run as nat) >= 1;
        assert(shifted_value(m) >= 0);
        assert(shifted_value(m) * 0x8000_0000 >= 0) by (nonlinear_arith)
            requires shifted_value(m) >= 0;
    }
}

/// The decoder's normalization mirrors the encoder's.
proof fn lemma_normalize_mirrors(d: DecoderModel, e: EncoderModel, out: Seq<u8>)
    requires
        tracks(d, e, out),
        coder_inv(e),
        shifted_digits(e) + 4 + normalize_shifts(e.range) <= out.len(),
    ensures
        tracks(spec_decoder_normalize(d), spec_normalize(e), out),
    decreases shortfall(e.range),
{
    if e.range < 0x80_0000 {
        lemma_shift_step(e);
        let next_e = shift_step(e);
        let next_d = DecoderModel { range: d.range * 256, ..spec_shift_in(d) };
        let pos = d.position;
        lemma_code_value_step(out, pos);
        let cb = spec_code_byte(d);
        assert(0 <= cb < 256);
        assert(((d.buffer * 256) as i32) as int == d.buffer * 256);
        assert(next_d.buffer == code_value(out, pos + 1) - interval_low(next_e));
        assert(next_d.buffer < next_d.range);
        assert(normalize_shifts(e.range) == 1 + normalize_shifts(next_e.range));
        lemma_normalize_mirrors(next_d, next_e, out);
    }
}

/// A decoding step mirrors the encoding step: it reads what was coded, when
/// the final interval lies within the interval after the step.
proof fn lemma_step_mirrors(d: DecoderModel, e: EncoderModel, step: CodingStep, f: EncoderModel, out: Seq<u8>)
    requires
        tracks(d, e, out),
        coder_inv(e),
        step_ok(step),
        nested(encode_step(e, step), f),
        final_output(f, out),
    ensures
        has_input_for_next(d),
        tracks(decode_step(d, step).0, encode_step(e, step), out),
        decode_step(d, step).1 == step_answer(step),
{
    lemma_step_nests(e, step);
    lemma_normalize_tracks(e);
    let e1 = encode_step(e, step);
    let ne = spec_normalize(e);
    assert(shifted_digits(e1) == shifted_digits(ne));
    lemma_low_nonneg(e1);
    lemma_code_in_interval(e1, f, out);
    lemma_normalize_mirrors(d, e, out);
    let nd = spec_decoder_normalize(d);
    let c = code_value(out, shifted_digits(e1) + 4int);
    assert(nd.buffer == c - interval_low(ne));
    match step {
        CodingStep::CodedBit { probability, bit } => {
            lemma_encode_bit_tracks(e, probability as int, bit);
        },
        CodingStep::RareEvent { present } => {
            lemma_encode_rare_event_tracks(e, present);
        },
    }
}

/// A new encoder keeps the invariant.
proof fn lemma_initial_encoder()
    ensures
        coder_inv(initial_encoder()),
        interval_low(initial_encoder()) == 0,
        shifted_digits(initial_encoder()) == 0,
{
    assert(base_pow(0) == 1);
}

/// A new decoder reads the code within the interval of a new encoder.
proof fn lemma_initial_decoder(f: EncoderModel, out: Seq<u8>)
    requires
        nested(initial_encoder(), f),
        final_output(f, out),
    ensures
        tracks(spec_decoder_start(out), initial_encoder(), out),
{
    lemma_initial_encoder();
    lemma_code_in_interval(initial_encoder(), f, out);
    let m0 = DecoderModel { input: out, position: 0, buffer: 0, range: 0x7fff_ffff, next_high_bit: 0 };
    let m1 = spec_shift_in(m0);
    let m2 = spec_shift_in(m1);
    let m3 = spec_shift_in(m2);
    let m4 = spec_shift_in(m3);
    assert(out.take(0) =~= Seq::<u8>::empty());
    assert(code_value(out, 0) == 0);
    lemma_code_value_step(out, 0);
    lemma_code_value_step(out, 1);
    lemma_code_value_step(out, 2);
    lemma_code_value_step(out, 3);
    lemma_bytes_value_bound(out.take(3));
    assert(base_pow(0) == 1);
    assert(base_pow(1) == 256);
    assert(base_pow(2) == 0x1_0000);
    assert(base_pow(3) == 0x100_0000);
    assert(m1.buffer == code_value(out, 1));
    assert(code_value(out, 1) < 128);
    assert(m2.buffer == code_value(out, 2));
    assert(code_value(out, 2) < 0x8000);
    assert(m3.buffer == code_value(out, 3));
    assert(code_value(out, 3) < 0x80_0000);
    assert(m4.buffer == code_value(out, 4));
    assert(spec_decoder_start(out) == m4);
}

/// Decoding the first `t` steps of the output of all the steps reads what
/// those steps coded.
proof fn lemma_prefix_mirrors(steps: Seq<CodingStep>, t: int, f: EncoderModel, out: Seq<u8>)
    requires
        forall|i: int| 0 <= i < steps.len() ==> step_ok(#[trigger] steps[i]),
        0 <= t <= steps.len(),
        f == encode_steps(initial_encoder(), steps),
        final_output(f, out),
    ensures
        ({
            let d0 = spec_decoder_start(out);
            let prefix = steps.take(t);
            &&& tracks(decode_steps(d0, prefix).0, encode_steps(initial_encoder(), prefix), out)
            &&& decode_steps(d0, prefix).1 == prefix.map_values(|s: CodingStep| step_answer(s))
            &&& decodable(d0, prefix)
        }),
    decreases t,
{
    let e0 = initial_encoder();
    lemma_initial_encoder();
    let d0 = spec_decoder_start(out);
    let prefix = steps.take(t);
    assert forall|i: int| 0 <= i < prefix.len() implies step_ok(#[trigger] prefix[i]) by {
        assert(prefix[i] == steps[i]);
    }
    let rest = steps.skip(t);
    assert forall|i: int| 0 <= i < rest.len() implies step_ok(#[trigger] rest[i]) by {
        assert(rest[i] == steps[t + i]);
    }
    assert(steps =~= prefix + rest);
    lemma_encode_steps_concat(e0, prefix, rest);
    lemma_steps_nest(e0, prefix);
    let et = encode_steps(e0, prefix);
    lemma_steps_nest(et, rest);
    if t == 0 {
        assert(prefix =~= Seq::<CodingStep>::empty());
        lemma_initial_decoder(f, out);
        assert(prefix.map_values(|s: CodingStep| step_answer(s)) =~= Seq::<bool>::empty());
    } else {
        lemma_prefix_mirrors(steps, t - 1, f, out);
        let before = steps.take(t - 1);
        assert(prefix.drop_last() =~= before);
        assert(prefix.last() == steps[t - 1]);
        assert forall|i: int| 0 <= i < before.len() implies step_ok(#[trigger] before[i]) by {
            assert(before[i] == steps[i]);
        }
        lemma_steps_nest(e0, before);
        let e_before = encode_steps(e0, before);
        let d_before = decode_steps(d0, before).0;
        assert(step_ok(steps[t - 1]));
        lemma_step_mirrors(d_before, e_before, steps[t - 1], f, out);
        assert(prefix.map_values(|s: CodingStep| step_answer(s)) =~= before.map_values(|s: CodingStep| step_answer(s)).push(
            step_answer(steps[t - 1]),
        ));
    }
}

/// Decoding gives back what encoding coded: the decoder, started on the
/// encoder's finished output and asked the same questions (each bit under
/// the same probability, each rare event), has the bytes for every step,
/// reads every coded bit and rare event back, and ends having read exactly
/// all the bytes of the output.
pub proof fn lemma_decoding_inverts_encoding(steps: Seq<CodingStep>)
    requires
        forall|i: int| 0 <= i < steps.len() ==> step_ok(#[trigger] steps[i]),
    ensures
        ({
            let out = spec_flush(encode_steps(initial_encoder(), steps), 5).output;
            let d0 = spec_decoder_start(out);
            &&& out.len() >= 4
            &&& decodable(d0, steps)
            &&& decode_steps(d0, steps).1 == steps.map_values(|s: CodingStep| step_answer(s))
            &&& decode_steps(d0, steps).0.position == out.len()
        }),
{
    let e0 = initial_encoder();
    lemma_initial_encoder();
    lemma_steps_nest(e0, steps);
    let f = encode_steps(e0, steps);
    lemma_flush(f);
    let out = spec_flush(f, 5).output;
    lemma_prefix_mirrors(steps, steps.len() as int, f, out);
    assert(steps.take(steps.len() as int) =~= steps);
}

} // verus!
