use vstd::prelude::*;
use vstd::arithmetic::power2::pow2;
use super::{FixI32, FixU32, FixI64, FixU64, lemma_pow2_bounds};

verus! {

/// A signed 32-bit integer seen as a fixed-point number.
#[derive(Clone, Copy, Debug, PartialEq, Eq, Structural, PartialOrd, Ord)]
pub struct NoFractI32(i32);

impl FixI32 for NoFractI32 {
    closed spec fn raw_of(&self) -> i32 {
        self.0
    }

    open spec fn fract_bits() -> nat {
        0
    }

    open spec fn raw_ok(raw: i32) -> bool {
        true
    }

    proof fn lemma_fract_bits_bound() {
    }

    fn raw(&self) -> (r: i32) {
        self.0
    }

    fn new_unchecked(raw: i32) -> (r: Self) {
        NoFractI32(raw)
    }

    fn fractional_bits() -> (r: u8) {
        0
    }

    fn within_bounds(&self) -> (r: bool) {
        true
    }
}

/// An unsigned 32-bit integer seen as a fixed-point number.
#[derive(Clone, Copy, Debug, PartialEq, Eq, Structural, PartialOrd, Ord)]
pub struct NoFractU32(u32);

impl FixU32 for NoFractU32 {
    closed spec fn raw_of(&self) -> u32 {
        self.0
    }

    open spec fn fract_bits() -> nat {
        0
    }

    open spec fn raw_ok(raw: u32) -> bool {
        true
    }

    proof fn lemma_fract_bits_bound() {
    }

    fn raw(&self) -> (r: u32) {
        self.0
    }

    fn new_unchecked(raw: u32) -> (r: Self) {
        NoFractU32(raw)
    }

    fn fractional_bits() -> (r: u8) {
        0
    }

    fn within_bounds(&self) -> (r: bool) {
        true
    }
}

/// A signed 64-bit integer seen as a fixed-point number.
#[derive(Clone, Copy, Debug, PartialEq, Eq, Structural, PartialOrd, Ord)]
pub struct NoFractI64(i64);

impl FixI64 for NoFractI64 {
    closed spec fn raw_of(&self) -> i64 {
        self.0
    }

    open spec fn fract_bits() -> nat {
        0
    }

    open spec fn raw_ok(raw: i64) -> bool {
        true
    }

    proof fn lemma_fract_bits_bound() {
    }

    fn raw(&self) -> (r: i64) {
        self.0
    }

    fn new_unchecked(raw: i64) -> (r: Self) {
        NoFractI64(raw)
    }

    fn fractional_bits() -> (r: u8) {
        0
    }

    fn within_bounds(&self) -> (r: bool) {
        true
    }
}

/// An unsigned 64-bit integer seen as a fixed-point number.
#[derive(Clone, Copy, Debug, PartialEq, Eq, Structural, PartialOrd, Ord)]
pub struct NoFractU64(u64);

impl FixU64 for NoFractU64 {
    closed spec fn raw_of(&self) -> u64 {
        self.0
    }

    open spec fn fract_bits() -> nat {
        0
    }

    open spec fn raw_ok(raw: u64) -> bool {
        true
    }

    proof fn lemma_fract_bits_bound() {
    }

    fn raw(&self) -> (r: u64) {
        self.0
    }

    fn new_unchecked(raw: u64) -> (r: Self) {
        NoFractU64(raw)
    }

    fn fractional_bits() -> (r: u8) {
        0
    }

    fn within_bounds(&self) -> (r: bool) {
        true
    }
}

/// A fraction in `[0, 1)` with 31 fractional bits, signed storage.
#[derive(Clone, Copy, Debug, PartialEq, Eq, Structural, PartialOrd, Ord)]
pub struct FractOnlyI32(i32);

impl FixI32 for FractOnlyI32 {
    closed spec fn raw_of(&self) -> i32 {
        self.0
    }

    open spec fn fract_bits() -> nat {
        31
    }

    open spec fn raw_ok(raw: i32) -> bool {
        raw >= 0
    }

    proof fn lemma_fract_bits_bound() {
    }

    fn raw(&self) -> (r: i32) {
        self.0
    }

    fn new_unchecked(raw: i32) -> (r: Self) {
        FractOnlyI32(raw)
    }

    fn fractional_bits() -> (r: u8) {
        31
    }

    fn within_bounds(&self) -> (r: bool) {
        self.0 >= 0
    }
}

/// A fraction in `[0, 1)` with 31 fractional bits.
#[derive(Clone, Copy, Debug, PartialEq, Eq, Structural, PartialOrd, Ord)]
pub struct FractOnlyU32(u32);

impl FixU32 for FractOnlyU32 {
    closed spec fn raw_of(&self) -> u32 {
        self.0
    }

    open spec fn fract_bits() -> nat {
        31
    }

    open spec fn raw_ok(raw: u32) -> bool {
        raw < 0x8000_0000
    }

    proof fn lemma_fract_bits_bound() {
    }

    fn raw(&self) -> (r: u32) {
        self.0
    }

    fn new_unchecked(raw: u32) -> (r: Self) {
        FractOnlyU32(raw)
    }

    fn fractional_bits() -> (r: u8) {
        31
    }

    fn within_bounds(&self) -> (r: bool) {
        self.0 < 0x8000_0000
    }
}

/// A fraction in `[0, 1)` with 63 fractional bits, signed storage.
#[derive(Clone, Copy, Debug, PartialEq, Eq, Structural, PartialOrd, Ord)]
pub struct FractOnlyI64(i64);

impl FixI64 for FractOnlyI64 {
    closed spec fn raw_of(&self) -> i64 {
        self.0
    }

    open spec fn fract_bits() -> nat {
        63
    }

    open spec fn raw_ok(raw: i64) -> bool {
        raw >= 0
    }

    proof fn lemma_fract_bits_bound() {
    }

    fn raw(&self) -> (r: i64) {
        self.0
    }

    fn new_unchecked(raw: i64) -> (r: Self) {
        FractOnlyI64(raw)
    }

    fn fractional_bits() -> (r: u8) {
        63
    }

    fn within_bounds(&self) -> (r: bool) {
        self.0 >= 0
    }
}

/// A fraction in `[0, 1)` with 63 fractional bits.
#[derive(Clone, Copy, Debug, PartialEq, Eq, Structural, PartialOrd, Ord)]
pub struct FractOnlyU64(u64);

impl FixU64 for FractOnlyU64 {
    closed spec fn raw_of(&self) -> u64 {
        self.0
    }

    open spec fn fract_bits() -> nat {
        63
    }

    open spec fn raw_ok(raw: u64) -> bool {
        raw < 0x8000_0000_0000_0000
    }

    proof fn lemma_fract_bits_bound() {
    }

    fn raw(&self) -> (r: u64) {
        self.0
    }

    fn new_unchecked(raw: u64) -> (r: Self) {
        FractOnlyU64(raw)
    }

    fn fractional_bits() -> (r: u8) {
        63
    }

    fn within_bounds(&self) -> (r: bool) {
        self.0 < 0x8000_0000_0000_0000
    }
}

/// A binary logarithm with 11 fractional bits.
#[derive(Clone, Copy, Debug, PartialEq, Eq, Structural, PartialOrd, Ord)]
pub struct Log2D(i32);

impl FixI32 for Log2D {
    closed spec fn raw_of(&self) -> i32 {
        self.0
    }

    open spec fn fract_bits() -> nat {
        11
    }

    open spec fn raw_ok(raw: i32) -> bool {
        true
    }

    proof fn lemma_fract_bits_bound() {
    }

    fn raw(&self) -> (r: i32) {
        self.0
    }

    fn new_unchecked(raw: i32) -> (r: Self) {
        Log2D(raw)
    }

    fn fractional_bits() -> (r: u8) {
        11
    }

    fn within_bounds(&self) -> (r: bool) {
        true
    }
}

/// A binary logarithm with 11 fractional bits, 64-bit storage.
#[derive(Clone, Copy, Debug, PartialEq, Eq, Structural, PartialOrd, Ord)]
pub struct Log2Q(i64);

impl FixI64 for Log2Q {
    closed spec fn raw_of(&self) -> i64 {
        self.0
    }

    open spec fn fract_bits() -> nat {
        11
    }

    open spec fn raw_ok(raw: i64) -> bool {
        true
    }

    proof fn lemma_fract_bits_bound() {
    }

    fn raw(&self) -> (r: i64) {
        self.0
    }

    fn new_unchecked(raw: i64) -> (r: Self) {
        Log2Q(raw)
    }

    fn fractional_bits() -> (r: u8) {
        11
    }

    fn within_bounds(&self) -> (r: bool) {
        true
    }
}

/// A stretched probability `ln(p / (1 - p))` with 21 fractional bits,
/// valid within `[-12, 12]`.
#[derive(Clone, Copy, Debug, PartialEq, Eq, Structural, PartialOrd, Ord)]
pub struct StretchedProbD(i32);

impl FixI32 for StretchedProbD {
    closed spec fn raw_of(&self) -> i32 {
        self.0
    }

    open spec fn fract_bits() -> nat {
        21
    }

    open spec fn raw_ok(raw: i32) -> bool {
        -(12 * 0x20_0000) <= raw <= 12 * 0x20_0000
    }

    proof fn lemma_fract_bits_bound() {
    }

    fn raw(&self) -> (r: i32) {
        self.0
    }

    fn new_unchecked(raw: i32) -> (r: Self) {
        StretchedProbD(raw)
    }

    fn fractional_bits() -> (r: u8) {
        21
    }

    fn within_bounds(&self) -> (r: bool) {
        -(12 * 0x20_0000) <= self.0 && self.0 <= 12 * 0x20_0000
    }
}

/// A stretched probability with 40 fractional bits.
#[derive(Clone, Copy, Debug, PartialEq, Eq, Structural, PartialOrd, Ord)]
pub struct StretchedProbQ(i64);

impl FixI64 for StretchedProbQ {
    closed spec fn raw_of(&self) -> i64 {
        self.0
    }

    open spec fn fract_bits() -> nat {
        40
    }

    open spec fn raw_ok(raw: i64) -> bool {
        true
    }

    proof fn lemma_fract_bits_bound() {
    }

    fn raw(&self) -> (r: i64) {
        self.0
    }

    fn new_unchecked(raw: i64) -> (r: Self) {
        StretchedProbQ(raw)
    }

    fn fractional_bits() -> (r: u8) {
        40
    }

    fn within_bounds(&self) -> (r: bool) {
        true
    }
}

/// A mixer weight with 21 fractional bits.
#[derive(Clone, Copy, Debug, PartialEq, Eq, Structural, PartialOrd, Ord)]
pub struct MixerWeight(i32);

impl FixI32 for MixerWeight {
    closed spec fn raw_of(&self) -> i32 {
        self.0
    }

    open spec fn fract_bits() -> nat {
        21
    }

    open spec fn raw_ok(raw: i32) -> bool {
        true
    }

    proof fn lemma_fract_bits_bound() {
    }

    fn raw(&self) -> (r: i32) {
        self.0
    }

    fn new_unchecked(raw: i32) -> (r: Self) {
        MixerWeight(raw)
    }

    fn fractional_bits() -> (r: u8) {
        21
    }

    fn within_bounds(&self) -> (r: bool) {
        true
    }
}

impl NoFractI32 {
    pub const FRACTIONAL_BITS: u8 = 0;

    pub fn zero() -> (r: Self)
        ensures
            r.raw_of() == 0,
    {
        NoFractI32(0)
    }

    pub fn one() -> (r: Self)
        ensures
            r.raw_of() == 1,
    {
        NoFractI32(1)
    }

    /// The same integer, unsigned; it must not be negative.
    pub fn to_unsigned(&self) -> (r: NoFractU32)
        requires
            self.raw_of() >= 0,
        ensures
            r.raw_of() == self.raw_of(),
    {
        NoFractU32::new(self.raw() as u32, Self::FRACTIONAL_BITS)
    }
}

impl NoFractU32 {
    pub const FRACTIONAL_BITS: u8 = 0;

    pub fn zero() -> (r: Self)
        ensures
            r.raw_of() == 0,
    {
        NoFractU32(0)
    }

    pub fn one() -> (r: Self)
        ensures
            r.raw_of() == 1,
    {
        NoFractU32(1)
    }

    /// The same integer, signed; it must be at most `i32::MAX`.
    pub fn to_signed(&self) -> (r: NoFractI32)
        requires
            self.raw_of() <= i32::MAX,
        ensures
            r.raw_of() == self.raw_of(),
    {
        NoFractI32::new(self.raw() as i32, Self::FRACTIONAL_BITS)
    }
}

impl NoFractI64 {
    pub const FRACTIONAL_BITS: u8 = 0;

    pub fn zero() -> (r: Self)
        ensures
            r.raw_of() == 0,
    {
        NoFractI64(0)
    }

    pub fn one() -> (r: Self)
        ensures
            r.raw_of() == 1,
    {
        NoFractI64(1)
    }

    /// The same integer, unsigned; it must not be negative.
    pub fn to_unsigned(&self) -> (r: NoFractU64)
        requires
            self.raw_of() >= 0,
        ensures
            r.raw_of() == self.raw_of(),
    {
        NoFractU64::new(self.raw() as u64, Self::FRACTIONAL_BITS)
    }
}

impl NoFractU64 {
    pub const FRACTIONAL_BITS: u8 = 0;

    pub fn zero() -> (r: Self)
        ensures
            r.raw_of() == 0,
    {
        NoFractU64(0)
    }

    pub fn one() -> (r: Self)
        ensures
            r.raw_of() == 1,
    {
        NoFractU64(1)
    }

    /// The same integer, signed; it must be at most `i64::MAX`.
    pub fn to_signed(&self) -> (r: NoFractI64)
        requires
            self.raw_of() <= i64::MAX,
        ensures
            r.raw_of() == self.raw_of(),
    {
        NoFractI64::new(self.raw() as i64, Self::FRACTIONAL_BITS)
    }
}

impl FractOnlyI32 {
    pub const FRACTIONAL_BITS: u8 = 31;

    pub fn zero() -> (r: Self)
        ensures
            r.raw_of() == 0,
    {
        FractOnlyI32(0)
    }

    /// One half.
    pub fn half() -> (r: Self)
        ensures
            r.raw_of() == 0x4000_0000,
    {
        FractOnlyI32(0x4000_0000)
    }

    /// `1 - self`; `self` must be a positive fraction.
    pub fn flip(&self) -> (r: Self)
        requires
            0 < self.raw_of(),
        ensures
            r.raw_of() == 0x8000_0000 - self.raw_of(),
            Self::raw_ok(r.raw_of()),
    {
        FractOnlyI32((i32::MAX - self.raw()) + 1)
    }

    /// The same fraction, unsigned; it must not be negative.
    pub fn to_unsigned(&self) -> (r: FractOnlyU32)
        requires
            self.raw_of() >= 0,
        ensures
            r.raw_of() == self.raw_of(),
    {
        FractOnlyU32::new(self.raw() as u32, Self::FRACTIONAL_BITS)
    }
}

impl FractOnlyU32 {
    pub const FRACTIONAL_BITS: u8 = 31;

    pub fn zero() -> (r: Self)
        ensures
            r.raw_of() == 0,
    {
        FractOnlyU32(0)
    }

    /// One half.
    pub fn half() -> (r: Self)
        ensures
            r.raw_of() == 0x4000_0000,
    {
        FractOnlyU32(0x4000_0000)
    }

    /// One, which is outside the bounds of the type.
    pub fn one_unsafe() -> (r: Self)
        ensures
            r.raw_of() == 0x8000_0000,
    {
        FractOnlyU32(0x8000_0000)
    }

    /// `1 - self`; `self` must be a positive fraction.
    pub fn flip(&self) -> (r: Self)
        requires
            0 < self.raw_of() <= 0x8000_0000,
        ensures
            r.raw_of() == 0x8000_0000 - self.raw_of(),
            Self::raw_ok(r.raw_of()),
    {
        Self::one_unsafe().sub(self)
    }

    /// The same fraction, signed; it must be within bounds.
    pub fn to_signed(&self) -> (r: FractOnlyI32)
        requires
            self.raw_of() < 0x8000_0000,
        ensures
            r.raw_of() == self.raw_of(),
    {
        FractOnlyI32::new(self.raw() as i32, Self::FRACTIONAL_BITS)
    }
}

impl FractOnlyI64 {
    pub const FRACTIONAL_BITS: u8 = 63;

    pub fn zero() -> (r: Self)
        ensures
            r.raw_of() == 0,
    {
        FractOnlyI64(0)
    }

    /// One half.
    pub fn half() -> (r: Self)
        ensures
            r.raw_of() == 0x4000_0000_0000_0000,
    {
        FractOnlyI64(0x4000_0000_0000_0000)
    }

    /// `1 - self`; `self` must be a positive fraction.
    pub fn flip(&self) -> (r: Self)
        requires
            0 < self.raw_of(),
        ensures
            r.raw_of() == 0x8000_0000_0000_0000 - self.raw_of(),
            Self::raw_ok(r.raw_of()),
    {
        FractOnlyI64((i64::MAX - self.raw()) + 1)
    }

    /// The same fraction, unsigned; it must not be negative.
    pub fn to_unsigned(&self) -> (r: FractOnlyU64)
        requires
            self.raw_of() >= 0,
        ensures
            r.raw_of() == self.raw_of(),
    {
        FractOnlyU64::new(self.raw() as u64, Self::FRACTIONAL_BITS)
    }
}

impl FractOnlyU64 {
    pub const FRACTIONAL_BITS: u8 = 63;

    pub fn zero() -> (r: Self)
        ensures
            r.raw_of() == 0,
    {
        FractOnlyU64(0)
    }

    /// One half.
    pub fn half() -> (r: Self)
        ensures
            r.raw_of() == 0x4000_0000_0000_0000,
    {
        FractOnlyU64(0x4000_0000_0000_0000)
    }

    /// One, which is outside the bounds of the type.
    pub fn one_unsafe() -> (r: Self)
        ensures
            r.raw_of() == 0x8000_0000_0000_0000,
    {
        FractOnlyU64(0x8000_0000_0000_0000)
    }

    /// `1 - self`; `self` must be a positive fraction.
    pub fn flip(&self) -> (r: Self)
        requires
            0 < self.raw_of() <= 0x8000_0000_0000_0000,
        ensures
            r.raw_of() == 0x8000_0000_0000_0000 - self.raw_of(),
            Self::raw_ok(r.raw_of()),
    {
        Self::one_unsafe().sub(self)
    }

    /// The same fraction, signed; it must be within bounds.
    pub fn to_signed(&self) -> (r: FractOnlyI64)
        requires
            self.raw_of() < 0x8000_0000_0000_0000,
        ensures
            r.raw_of() == self.raw_of(),
    {
        FractOnlyI64::new(self.raw() as i64, Self::FRACTIONAL_BITS)
    }
}

/// Flipping a fraction twice gives it back.
pub proof fn lemma_flip_involutive(x: int)
    requires
        0 < x < 0x8000_0000,
    ensures
        0 < 0x8000_0000 - x,
        0x8000_0000 - (0x8000_0000 - x) == x,
{
}

impl Log2D {
    pub const FRACTIONAL_BITS: u8 = 11;
}

impl Log2Q {
    pub const FRACTIONAL_BITS: u8 = 11;
}

/// The index of the interval of width `2^-bits` that holds a stretched
/// value, counted from `-12`.
pub open spec fn interval_index_spec(raw: int, bits: nat) -> int {
    12 * pow2(bits) + raw / (pow2((21 - bits) as nat) as int)
}

impl StretchedProbD {
    pub const FRACTIONAL_BITS: u8 = 21;

    pub const ABSOLUTE_LIMIT: i32 = 12;

    pub fn zero() -> (r: Self)
        ensures
            r.raw_of() == 0,
    {
        StretchedProbD(0)
    }

    /// The largest valid value, `12`.
    pub fn max_value() -> (r: Self)
        ensures
            r.raw_of() == 12 * 0x20_0000,
    {
        StretchedProbD(12 * 0x20_0000)
    }

    /// The smallest valid value, `-12`.
    pub fn min_value() -> (r: Self)
        ensures
            r.raw_of() == -12 * 0x20_0000,
    {
        StretchedProbD(-12 * 0x20_0000)
    }

    /// The number of intervals of width `2^-bits` between `-12` and `12`.
    pub fn intervals_count(stretched_fract_index_bits: u8) -> (r: i32)
        requires
            stretched_fract_index_bits <= 26,
        ensures
            r == 24 * pow2(stretched_fract_index_bits as nat),
    {
        proof {
            lemma_pow2_bounds(stretched_fract_index_bits as nat);
            vstd::arithmetic::power2::lemma_pow2_strictly_increases(stretched_fract_index_bits as nat, 27);
            vstd::arithmetic::power2::lemma2_to64();
        }
        let p = super::pow2_u64(stretched_fract_index_bits) as i32;
        2 * Self::ABSOLUTE_LIMIT * p
    }

    /// The number of interval boundaries: one more than the intervals.
    pub fn interval_stops_count(stretched_fract_index_bits: u8) -> (r: i32)
        requires
            stretched_fract_index_bits <= 26,
        ensures
            r == 24 * pow2(stretched_fract_index_bits as nat) + 1,
    {
        proof {
            lemma_pow2_bounds(stretched_fract_index_bits as nat);
            vstd::arithmetic::power2::lemma_pow2_strictly_increases(stretched_fract_index_bits as nat, 27);
            vstd::arithmetic::power2::lemma2_to64();
        }
        1 + Self::intervals_count(stretched_fract_index_bits)
    }

    /// The index of the interval of width `2^-fract_index_bits` that holds
    /// the value, counted from `-12`; the value must be within bounds.
    pub fn to_interval_index(&self, fract_index_bits: u8) -> (r: i32)
        requires
            fract_index_bits <= 21,
            Self::raw_ok(self.raw_of()),
        ensures
            r == interval_index_spec(self.raw_of() as int, fract_index_bits as nat),
            0 <= r <= 24 * pow2(fract_index_bits as nat),
    {
        let shift = Self::FRACTIONAL_BITS - fract_index_bits;
        let p = super::pow2_u64(shift) as i64;
        proof { lemma_pow2_bounds(shift as nat); }
        let offset = super::pow2_u64(fract_index_bits) as i64;
        proof { lemma_pow2_bounds(fract_index_bits as nat); }
        proof {
            lemma_pow2_bounds(shift as nat);
            lemma_pow2_bounds(fract_index_bits as nat);
            vstd::arithmetic::power2::lemma_pow2_adds(shift as nat, fract_index_bits as nat);
            vstd::arithmetic::power2::lemma2_to64();
            assert(pow2(21) == 0x20_0000);
        }
        // floor division of a value that may be negative, made non-negative
        // by adding 12 units first
        let lifted = (self.raw() as i64) + 12 * 0x20_0000;
        let q = (lifted as u64) / (p as u64);
        proof {
            let raw = self.raw_of() as int;
            assert(12 * 0x20_0000 == (12 * offset) * p) by (nonlinear_arith)
                requires 0x20_0000 == p * offset;
            vstd::arithmetic::div_mod::lemma_hoist_over_denominator(raw, 12 * offset as int, p as nat);
            assert(q as int == 12 * offset + raw / (p as int));
            assert(0 <= q as int <= 24 * offset) by (nonlinear_arith)
                requires q as int == lifted as int / p as int, 0 <= lifted <= 24 * 0x20_0000, 0x20_0000 == p * offset, p > 0;
        }
        (q as i64 - 12 * offset) as i32 + 12 * offset as i32
    }
}

impl StretchedProbQ {
    pub const FRACTIONAL_BITS: u8 = 40;

    pub const ABSOLUTE_LIMIT: i64 = 12;

    pub fn zero() -> (r: Self)
        ensures
            r.raw_of() == 0,
    {
        StretchedProbQ(0)
    }

    /// The largest valid value, `12`.
    pub fn max_value() -> (r: Self)
        ensures
            r.raw_of() == 12 * 0x100_0000_0000,
    {
        StretchedProbQ(12 * 0x100_0000_0000)
    }

    /// The smallest valid value, `-12`.
    pub fn min_value() -> (r: Self)
        ensures
            r.raw_of() == -12 * 0x100_0000_0000,
    {
        StretchedProbQ(-12 * 0x100_0000_0000)
    }

    /// The value limited to `[-12, 12]`.
    pub fn clamped(self) -> (r: Self)
        ensures
            r.raw_of() == super::clamp(self.raw_of() as int, -12 * 0x100_0000_0000, 12 * 0x100_0000_0000int),
    {
        if self.0 < -12 * 0x100_0000_0000 {
            Self::min_value()
        } else if self.0 > 12 * 0x100_0000_0000 {
            Self::max_value()
        } else {
            self
        }
    }
}

impl MixerWeight {
    pub const FRACTIONAL_BITS: u8 = 21;

    pub const ABSOLUTE_LIMIT: i32 = 8;

    pub fn zero() -> (r: Self)
        ensures
            r.raw_of() == 0,
    {
        MixerWeight(0)
    }

    pub fn one() -> (r: Self)
        ensures
            r.raw_of() == 0x20_0000,
    {
        MixerWeight(0x20_0000)
    }

    /// The largest allowed weight, `8`.
    pub fn max_value() -> (r: Self)
        ensures
            r.raw_of() == 8 * 0x20_0000,
    {
        MixerWeight(8 * 0x20_0000)
    }

    /// The smallest allowed weight, `-8`.
    pub fn min_value() -> (r: Self)
        ensures
            r.raw_of() == -8 * 0x20_0000,
    {
        MixerWeight(-8 * 0x20_0000)
    }

    /// The weight limited to `[-8, 8]`.
    pub fn clamped(self) -> (r: Self)
        ensures
            r.raw_of() == super::clamp(self.raw_of() as int, -8 * 0x20_0000, 8 * 0x20_0000int),
    {
        if self.0 < -8 * 0x20_0000 {
            Self::min_value()
        } else if self.0 > 8 * 0x20_0000 {
            Self::max_value()
        } else {
            self
        }
    }
}

} // verus!
