use vstd::prelude::*;
use vstd::arithmetic::power2::{pow2, lemma2_to64};
use crate::bit::Bit;
use crate::fixed_point::{FixU32, scaled_down_unsigned};
use crate::fixed_point::fix_u32;
use crate::fixed_point::types::FractOnlyU32;
use crate::lut::estimator::DeceleratingEstimatorLut;

verus! {

pub const COUNT_BITS: u8 = 10;
pub const PREDICTION_BITS: u8 = 22;
pub const MAX_COUNT: u16 = 1000;

/// The raw word of an estimator made from a 31-bit prediction and a count:
/// the prediction rounded to 22 bits (kept strictly between 0 and 1) above
/// the 10-bit count.
pub open spec fn make_raw(prediction: int, count: int) -> int {
    let q = (prediction + 256) / 512;
    let p = if q == 0 {
        1
    } else if q == 0x40_0000 {
        0x3f_ffff
    } else {
        q
    };
    p * 1024 + count
}

/// The 31-bit prediction stored in a raw word.
pub open spec fn prediction_of(raw: int) -> int {
    (raw / 1024) * 512
}

/// The usage count stored in a raw word.
pub open spec fn count_of(raw: int) -> int {
    raw % 1024
}

/// `error * factor` in 31-bit fixed point, rounded to nearest.
pub open spec fn correction(error: int, factor: int) -> int {
    (error * factor + 0x4000_0000) / 0x8000_0000
}

/// The prediction after one more bit: it moves towards the bit by `factor`
/// of the distance.
pub open spec fn next_prediction(p: int, factor: int, bit: Bit) -> int {
    match bit {
        Bit::Zero => p + correction(0x8000_0000 - p, factor),
        Bit::One => p - correction(p, factor),
    }
}

/// Whether an update keeps the prediction below one.
pub open spec fn update_ok(p: int, factor: int, bit: Bit) -> bool {
    bit == Bit::Zero ==> next_prediction(p, factor, bit) < 0x8000_0000
}

/// Facts about the rounded product of two 31-bit fractions.
pub proof fn lemma_correction(e: int, f: int)
    requires
        0 <= e <= 0x8000_0000,
        0 <= f <= 0x8000_0000,
    ensures
        scaled_down_unsigned(e * f, 31, u64::MAX as int) == correction(e, f),
        0 <= correction(e, f) <= e,
        f <= 0x4000_0000 && e >= 2 ==> correction(e, f) < e,
        e * f <= 0x4000_0000_0000_0000,
{
    lemma2_to64();
    vstd::arithmetic::power2::lemma2_to64_rest();
    assert(pow2(30) == 0x4000_0000);
    assert(pow2(31) == 0x8000_0000);
    assert(e * f <= 0x4000_0000_0000_0000) by (nonlinear_arith)
        requires 0 <= e <= 0x8000_0000, 0 <= f <= 0x8000_0000;
    assert(e * f >= 0) by (nonlinear_arith)
        requires 0 <= e, 0 <= f;
    assert(e * f <= e * 0x8000_0000) by (nonlinear_arith)
        requires 0 <= e, 0 <= f <= 0x8000_0000;
    assert(correction(e, f) <= e) by (nonlinear_arith)
        requires 0 <= e, 0 <= f <= 0x8000_0000, e * f <= e * 0x8000_0000,
            correction(e, f) == (e * f + 0x4000_0000) / 0x8000_0000;
    if f <= 0x4000_0000 && e >= 2 {
        assert(e * f <= e * 0x4000_0000) by (nonlinear_arith)
            requires 0 <= e, 0 <= f <= 0x4000_0000;
        assert(correction(e, f) < e) by (nonlinear_arith)
            requires e >= 2, e * f <= e * 0x4000_0000,
                correction(e, f) == (e * f + 0x4000_0000) / 0x8000_0000;
    }
}

/// A probability estimator whose adaptation rate falls as it is used: the
/// rate after `n` updates comes from a look-up table.
#[derive(Clone, Copy, Debug, PartialEq, Eq, Structural)]
pub struct DeceleratingEstimator(u32);

impl DeceleratingEstimator {
    pub const COUNT_BITS: u8 = 10;

    pub const MAX_COUNT: u16 = 1000;

    pub closed spec fn raw_of(&self) -> u32 {
        self.0
    }

    /// The estimator with a raw word.
    pub closed spec fn from_raw(raw: u32) -> DeceleratingEstimator {
        DeceleratingEstimator(raw)
    }

    pub proof fn lemma_from_raw(raw: u32)
        ensures
            Self::from_raw(raw).raw_of() == raw,
    {
    }

    /// Estimators with the same raw word are the same.
    pub proof fn lemma_raw_injective(a: DeceleratingEstimator, b: DeceleratingEstimator)
        requires
            a.raw_of() == b.raw_of(),
        ensures
            a == b,
    {
    }

    /// A prediction strictly between 0 and 1 and a count of at most
    /// `MAX_COUNT`.
    pub open spec fn wf(&self) -> bool {
        &&& 1 <= self.raw_of() / 1024 < 0x40_0000
        &&& self.raw_of() % 1024 <= 1000
    }

    /// The placeholder estimator of no context.
    pub fn invalid() -> (r: Self)
        ensures
            r.raw_of() == 0,
    {
        DeceleratingEstimator(0)
    }

    /// The estimator at one half that has not been used.
    pub fn new() -> (r: DeceleratingEstimator)
        ensures
            r.wf(),
            r.raw_of() == make_raw(0x4000_0000, 0),
            prediction_of(r.raw_of() as int) == 0x4000_0000,
            count_of(r.raw_of() as int) == 0,
    {
        let prediction = FractOnlyU32::new(0x4000_0000, 31);
        Self::make(prediction, 0)
    }

    pub fn make(prediction: FractOnlyU32, count: u16) -> (r: DeceleratingEstimator)
        requires
            prediction.raw_of() < 0x8000_0000 + 256,
            count <= 1000,
        ensures
            r.wf(),
            r.raw_of() == make_raw(prediction.raw_of() as int, count as int),
            count_of(r.raw_of() as int) == count,
    {
        let q = (prediction.raw() + 256) / 512;
        let p = if q == 0 {
            1
        } else if q == 0x40_0000 {
            0x3f_ffff
        } else {
            q
        };
        let raw = p * 1024 + (count as u32);
        proof {
            assert(raw / 1024 == p && raw % 1024 == count) by (nonlinear_arith)
                requires raw == p * 1024 + count, 0 <= count < 1024;
        }
        DeceleratingEstimator(raw)
    }

    /// Probability of bit 0.
    pub fn prediction(&self) -> (r: FractOnlyU32)
        requires
            self.wf(),
        ensures
            r.raw_of() == prediction_of(self.raw_of() as int),
            0x200 <= r.raw_of() <= 0x8000_0000 - 0x200,
    {
        let raw = self.0 / 1024;
        FractOnlyU32::new_unchecked(raw * 512)
    }

    pub fn usage_count(&self) -> (r: u16)
        ensures
            r == count_of(self.raw_of() as int),
    {
        (self.0 % 1024) as u16
    }

    /// Moves the prediction towards the bit by the table's factor for the
    /// current count, and counts the use.
    pub fn update(&mut self, value: Bit, lut: &DeceleratingEstimatorLut)
        requires
            old(self).wf(),
            lut.wf(),
            update_ok(
                prediction_of(old(self).raw_of() as int),
                lut.factor(count_of(old(self).raw_of() as int)),
                value,
            ),
        ensures
            final(self).wf(),
            value == Bit::Zero ==> prediction_of(final(self).raw_of() as int) >= prediction_of(old(self).raw_of() as int),
            value == Bit::One ==> prediction_of(final(self).raw_of() as int) <= prediction_of(old(self).raw_of() as int),
            final(self).raw_of() == make_raw(
                next_prediction(
                    prediction_of(old(self).raw_of() as int),
                    lut.factor(count_of(old(self).raw_of() as int)),
                    value,
                ),
                if count_of(old(self).raw_of() as int) < 1000 {
                    count_of(old(self).raw_of() as int) + 1
                } else {
                    1000
                },
            ),
    {
        proof {
            lut.lemma_wf(count_of(self.0 as int));
            lemma_update_moves_towards_bit(*self, lut.factor(count_of(self.0 as int)), value);
        }
        let prediction = self.prediction();
        let count = self.usage_count();
        let factor = lut.get(count);
        proof {
            lut.lemma_wf(count as int);
        }
        let ghost p = prediction.raw_of();
        let prediction = match value {
            Bit::Zero => {
                let error = FractOnlyU32::one_unsafe().sub(&prediction);
                proof {
                    lemma_correction(error.raw_of() as int, factor.raw_of() as int);
                }
                let correction: FractOnlyU32 = fix_u32::mul(&error, &factor);
                prediction.add(&correction)
            },
            Bit::One => {
                proof {
                    lemma_correction(p as int, factor.raw_of() as int);
                }
                let correction: FractOnlyU32 = fix_u32::mul(&prediction, &factor);
                prediction.sub(&correction)
            },
        };
        let count = if count + 1 < Self::MAX_COUNT {
            count + 1
        } else {
            Self::MAX_COUNT
        };
        *self = Self::make(prediction, count);
    }
}

/// A raw word made from a prediction below one (up to rounding) and a count
/// of at most the maximum is the word of a valid estimator with that count.
pub proof fn lemma_make_raw_ok(prediction: int, count: int)
    requires
        0 <= prediction < 0x8000_0000 + 256,
        0 <= count <= 1000,
    ensures
        0 <= make_raw(prediction, count) <= u32::MAX,
        DeceleratingEstimator::from_raw(make_raw(prediction, count) as u32).wf(),
        count_of(make_raw(prediction, count)) == count,
{
    let q = (prediction + 256) / 512;
    let p = if q == 0 {
        1
    } else if q == 0x40_0000 {
        0x3f_ffff
    } else {
        q
    };
    assert(q <= 0x40_0000);
    let raw = p * 1024 + count;
    assert(raw / 1024 == p && raw % 1024 == count) by (nonlinear_arith)
        requires
            raw == p * 1024 + count,
            0 <= count < 1024,
    ;
    DeceleratingEstimator::lemma_from_raw(raw as u32);
}

/// Updates are always possible when the table's factors are at most one
/// half: the prediction stays strictly between 0 and 1.
pub proof fn lemma_update_ok(e: DeceleratingEstimator, factor: int, bit: Bit)
    requires
        e.wf(),
        0 <= factor <= 0x4000_0000,
    ensures
        update_ok(prediction_of(e.raw_of() as int), factor, bit),
        0 <= next_prediction(prediction_of(e.raw_of() as int), factor, bit) < 0x8000_0000,
{
    let p = prediction_of(e.raw_of() as int);
    lemma_correction(0x8000_0000 - p, factor);
    lemma_correction(p, factor);
}

/// An update moves the estimator's probability of a zero towards the coded
/// bit: after a zero it does not fall, after a one it does not rise, and
/// the use is counted (up to `MAX_COUNT`).
pub proof fn lemma_update_moves_towards_bit(e: DeceleratingEstimator, factor: int, bit: Bit)
    requires
        e.wf(),
        0 <= factor <= 0x4000_0000,
    ensures
        ({
            let raw = e.raw_of() as int;
            let p = prediction_of(raw);
            let c = if count_of(raw) < 1000 {
                count_of(raw) + 1
            } else {
                1000
            };
            let after = make_raw(next_prediction(p, factor, bit), c);
            &&& bit == Bit::Zero ==> prediction_of(after) >= p
            &&& bit == Bit::One ==> prediction_of(after) <= p
            &&& count_of(after) == c
        }),
{
    let raw = e.raw_of() as int;
    let p = prediction_of(raw);
    let k = raw / 1024;
    lemma_update_ok(e, factor, bit);
    lemma_correction(0x8000_0000 - p, factor);
    lemma_correction(p, factor);
    let c = if count_of(raw) < 1000 {
        count_of(raw) + 1
    } else {
        1000
    };
    let q0 = next_prediction(p, factor, bit);
    lemma_make_raw_ok(q0, c);
    let q = (q0 + 256) / 512;
    let stored = if q == 0 {
        1
    } else if q == 0x40_0000 {
        0x3f_ffff
    } else {
        q
    };
    assert(make_raw(q0, c) / 1024 == stored) by (nonlinear_arith)
        requires make_raw(q0, c) == stored * 1024 + c, 0 <= c < 1024;
    assert((p + 256) / 512 == k) by (nonlinear_arith)
        requires p == k * 512;
    if bit == Bit::Zero {
        assert(q0 >= p);
        assert(q >= k) by (nonlinear_arith)
            requires q0 >= p, (p + 256) / 512 == k, q == (q0 + 256) / 512;
    } else {
        assert(q0 <= p);
        assert(q <= k) by (nonlinear_arith)
            requires q0 <= p, (p + 256) / 512 == k, q == (q0 + 256) / 512;
    }
}

} // verus!
