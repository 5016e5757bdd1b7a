pub mod fix_i16;
pub mod fix_i32;
pub mod fix_i64;
pub mod fix_u16;
pub mod fix_u32;
pub mod fix_u64;
pub mod types;

use vstd::prelude::*;
use vstd::arithmetic::power2::{pow2, lemma_pow2_pos, lemma_pow2_strictly_increases, lemma2_to64, lemma2_to64_rest};
use vstd::bits::{lemma_u64_shl_is_mul, lemma_u32_shl_is_mul, lemma_u64_pow2_no_overflow};

verus! {

// ---------------------------------------------------------------------------
// Arithmetic shared by the fixed-point types.
// ---------------------------------------------------------------------------

/// `v` limited to the range `[lo, hi]`.
pub open spec fn clamp(v: int, lo: int, hi: int) -> int {
    if v < lo {
        lo
    } else if v > hi {
        hi
    } else {
        v
    }
}

/// Division by `2^shift` that truncates towards zero.
pub open spec fn trunc_div_pow2(m: int, shift: nat) -> int {
    if m >= 0 {
        m / (pow2(shift) as int)
    } else {
        -((-m) / (pow2(shift) as int))
    }
}

/// Unsigned division by `2^shift` rounded to nearest (halves upwards), where
/// the rounding addend saturates at `max`.
pub open spec fn scaled_down_unsigned(raw: int, shift: nat, max: int) -> int {
    let biased = raw + pow2((shift - 1) as nat);
    (if biased > max { max } else { biased }) / (pow2(shift) as int)
}

/// Signed division by `2^shift` rounded to nearest (halves away from zero),
/// where the rounding addend saturates at the type's bounds and the result
/// never comes from the lowest value `min`.
pub open spec fn scaled_down_signed(raw: int, shift: nat, min: int, max: int) -> int {
    let half = pow2((shift - 1) as nat) as int;
    let biased = if raw > 0 {
        raw + half
    } else if raw < 0 {
        raw - half
    } else {
        raw
    };
    trunc_div_pow2(clamp(biased, min + 1, max), shift)
}

/// The raw value of an unsigned number with `from` fractional bits, brought to
/// `to` fractional bits: rounded when bits are dropped, shifted when added.
pub open spec fn rescale_unsigned(raw: int, from: nat, to: nat, max: int) -> int {
    if from > to {
        scaled_down_unsigned(raw, (from - to) as nat, max)
    } else {
        raw * pow2((to - from) as nat)
    }
}

/// Whether rescaling stays within a `bits`-wide unsigned type without a
/// shift overflow or lost high bits.
pub open spec fn rescale_unsigned_ok(raw: int, from: nat, to: nat, bits: nat) -> bool {
    if from > to {
        from - to < bits
    } else {
        to - from < bits && raw * pow2((to - from) as nat) < pow2(bits)
    }
}

/// The signed counterpart of `rescale_unsigned`.
pub open spec fn rescale_signed(raw: int, from: nat, to: nat, min: int, max: int) -> int {
    if from > to {
        scaled_down_signed(raw, (from - to) as nat, min, max)
    } else {
        raw * pow2((to - from) as nat)
    }
}

/// Whether signed rescaling avoids a shift overflow and keeps the value in
/// `[min, max]`.
pub open spec fn rescale_signed_ok(raw: int, from: nat, to: nat, bits: nat, min: int, max: int) -> bool {
    if from > to {
        from - to < bits
    } else {
        to - from < bits && min <= raw * pow2((to - from) as nat) <= max
    }
}

/// `2^d` as a `u64`.
pub fn pow2_u64(d: u8) -> (r: u64)
    requires
        d < 64,
    ensures
        r == pow2(d as nat),
        r > 0,
{
    proof {
        lemma_u64_pow2_no_overflow(d as nat);
        lemma_u64_shl_is_mul(1, d as u64);
    }
    1u64 << (d as u64)
}

/// `x * 2^d` for an unsigned 32-bit `x` whose product fits.
pub fn shl_u32(x: u32, d: u8) -> (r: u32)
    requires
        d < 32,
        x * pow2(d as nat) <= u32::MAX,
    ensures
        r == x * pow2(d as nat),
{
    proof {
        lemma_u32_shl_is_mul(x, d as u32);
    }
    x << (d as u32)
}

/// `x * 2^d` for an unsigned 64-bit `x` whose product fits.
pub fn shl_u64(x: u64, d: u8) -> (r: u64)
    requires
        d < 64,
        x * pow2(d as nat) <= u64::MAX,
    ensures
        r == x * pow2(d as nat),
{
    proof {
        lemma_u64_shl_is_mul(x, d as u64);
    }
    x << (d as u64)
}

/// Powers of two below 64 fit into the named bounds.
/// Signed rounding is off by at most half a step when the rounding addend
/// does not saturate.
pub proof fn lemma_scaled_down_signed_error(raw: int, shift: nat, min: int, max: int)
    requires
        shift >= 1,
        min + 1 <= raw - pow2((shift - 1) as nat),
        raw + pow2((shift - 1) as nat) <= max,
    ensures
        raw - pow2((shift - 1) as nat) <= scaled_down_signed(raw, shift, min, max) * pow2(shift)
            <= raw + pow2((shift - 1) as nat),
{
    lemma_pow2_bounds(shift);
    let p = pow2(shift) as int;
    let h = pow2((shift - 1) as nat) as int;
    let r = scaled_down_signed(raw, shift, min, max);
    if raw > 0 {
        let b = raw + h;
        vstd::arithmetic::div_mod::lemma_fundamental_div_mod(b, p);
        assert(r == b / p);
        assert(0 <= b % p < p) by {
            vstd::arithmetic::div_mod::lemma_mod_bound(b, p);
        }
        assert(r * p == p * (b / p)) by (nonlinear_arith)
            requires r == b / p;
        assert(p == 2 * h);
    } else if raw < 0 {
        let b = -(raw - h);
        vstd::arithmetic::div_mod::lemma_fundamental_div_mod(b, p);
        assert(r == -(b / p));
        assert(0 <= b % p < p) by {
            vstd::arithmetic::div_mod::lemma_mod_bound(b, p);
        }
        assert(r * p == -(p * (b / p))) by (nonlinear_arith)
            requires r == -(b / p);
        assert(p * (b / p) <= b);
        assert(b < p * (b / p) + p);
        assert(p == 2 * h);
        assert(-b <= r * p);
    } else {
        assert(r == 0);
    }
}

/// Unsigned rounding is off by at most half a step when the rounding addend
/// does not saturate.
pub proof fn lemma_scaled_down_unsigned_error(raw: int, shift: nat, max: int)
    requires
        shift >= 1,
        raw >= 0,
        raw + pow2((shift - 1) as nat) <= max,
    ensures
        raw - pow2((shift - 1) as nat) < scaled_down_unsigned(raw, shift, max) * pow2(shift)
            <= raw + pow2((shift - 1) as nat),
        scaled_down_unsigned(raw, shift, max) >= 0,
{
    lemma_pow2_bounds(shift);
    let p = pow2(shift) as int;
    let h = pow2((shift - 1) as nat) as int;
    let b = raw + h;
    vstd::arithmetic::div_mod::lemma_fundamental_div_mod(b, p);
    vstd::arithmetic::div_mod::lemma_mod_bound(b, p);
    let r = scaled_down_unsigned(raw, shift, max);
    assert(r == b / p);
    assert(r * p == p * (b / p)) by (nonlinear_arith)
        requires r == b / p;
    assert(b / p >= 0) by (nonlinear_arith)
        requires b >= 0, p > 0;
}

pub proof fn lemma_pow2_bounds(d: nat)
    ensures
        d < 32 ==> pow2(d) <= 0x8000_0000,
        d < 64 ==> pow2(d) <= 0x8000_0000_0000_0000,
        pow2(d) > 0,
        d >= 1 ==> pow2(d) == 2 * pow2((d - 1) as nat),
{
    lemma_pow2_pos(d);
    lemma2_to64();
    lemma2_to64_rest();
    if d < 31 {
        lemma_pow2_strictly_increases(d, 31);
    }
    if d < 63 {
        lemma_pow2_strictly_increases(d, 63);
    }
    if d >= 1 {
        vstd::arithmetic::power2::lemma_pow2_unfold(d);
    }
}

// ---------------------------------------------------------------------------
// Fixed-point number kinds, one per raw integer type.
// ---------------------------------------------------------------------------

/// Signed 32-bit fixed-point numbers: a raw `i32` scaled by `2^fract_bits()`.
pub trait FixI32: Sized + Copy {
    /// The raw integer that the number stores.
    spec fn raw_of(&self) -> i32;

    /// The number of fractional bits of the type.
    spec fn fract_bits() -> nat;

    /// Whether a raw value is a valid number of the type.
    spec fn raw_ok(raw: i32) -> bool;

    proof fn lemma_fract_bits_bound()
        ensures
            Self::fract_bits() < 32,
    ;

    fn raw(&self) -> (r: i32)
        ensures
            r == self.raw_of(),
    ;

    fn new_unchecked(raw: i32) -> (r: Self)
        ensures
            r.raw_of() == raw,
    ;

    fn fractional_bits() -> (r: u8)
        ensures
            r == Self::fract_bits(),
    ;

    fn within_bounds(&self) -> (r: bool)
        ensures
            r == Self::raw_ok(self.raw_of()),
    ;

    /// A number from its raw value; the raw value must be in bounds.
    fn new(raw: i32, fractional_bits: u8) -> (r: Self)
        requires
            fractional_bits == Self::fract_bits(),
            Self::raw_ok(raw),
        ensures
            r.raw_of() == raw,
    {
        Self::new_unchecked(raw)
    }

    /// The smallest positive step of the type.
    fn ulp() -> (r: Self)
        ensures
            r.raw_of() == 1,
    {
        Self::new_unchecked(1)
    }

    /// Exact sum; the sum must fit and be in bounds.
    fn add(&self, other: &Self) -> (r: Self)
        requires
            i32::MIN <= self.raw_of() + other.raw_of() <= i32::MAX,
            Self::raw_ok((self.raw_of() + other.raw_of()) as i32),
        ensures
            r.raw_of() == self.raw_of() + other.raw_of(),
    {
        Self::new(self.raw() + other.raw(), Self::fractional_bits())
    }

    /// Exact difference; it must fit and be in bounds.
    fn sub(&self, other: &Self) -> (r: Self)
        requires
            i32::MIN <= self.raw_of() - other.raw_of() <= i32::MAX,
            Self::raw_ok((self.raw_of() - other.raw_of()) as i32),
        ensures
            r.raw_of() == self.raw_of() - other.raw_of(),
    {
        Self::new(self.raw() - other.raw(), Self::fractional_bits())
    }

    /// The opposite number.
    fn neg(&self) -> (r: Self)
        requires
            self.raw_of() != i32::MIN,
            Self::raw_ok((-self.raw_of()) as i32),
        ensures
            r.raw_of() == -self.raw_of(),
    {
        Self::new(-self.raw(), Self::fractional_bits())
    }
}

/// Unsigned 32-bit fixed-point numbers: a raw `u32` scaled by
/// `2^fract_bits()`.
pub trait FixU32: Sized + Copy {
    /// The raw integer that the number stores.
    spec fn raw_of(&self) -> u32;

    /// The number of fractional bits of the type.
    spec fn fract_bits() -> nat;

    /// Whether a raw value is a valid number of the type.
    spec fn raw_ok(raw: u32) -> bool;

    proof fn lemma_fract_bits_bound()
        ensures
            Self::fract_bits() <= 32,
    ;

    fn raw(&self) -> (r: u32)
        ensures
            r == self.raw_of(),
    ;

    fn new_unchecked(raw: u32) -> (r: Self)
        ensures
            r.raw_of() == raw,
    ;

    fn fractional_bits() -> (r: u8)
        ensures
            r == Self::fract_bits(),
    ;

    fn within_bounds(&self) -> (r: bool)
        ensures
            r == Self::raw_ok(self.raw_of()),
    ;

    /// A number from its raw value; the raw value must be in bounds.
    fn new(raw: u32, fractional_bits: u8) -> (r: Self)
        requires
            fractional_bits == Self::fract_bits(),
            Self::raw_ok(raw),
        ensures
            r.raw_of() == raw,
    {
        Self::new_unchecked(raw)
    }

    /// The smallest positive step of the type.
    fn ulp() -> (r: Self)
        ensures
            r.raw_of() == 1,
    {
        Self::new_unchecked(1)
    }

    /// The integral part.
    fn trunc(&self) -> (r: u32)
        ensures
            r == self.raw_of() as int / pow2(Self::fract_bits()) as int,
    {
        proof {
            Self::lemma_fract_bits_bound();
            lemma_pow2_bounds(Self::fract_bits());
        }
        let p = pow2_u64(Self::fractional_bits());
        let q = (self.raw() as u64) / p;
        proof {
            assert(self.raw_of() as int / p as int <= self.raw_of()) by (nonlinear_arith)
                requires p >= 1, self.raw_of() >= 0;
        }
        q as u32
    }

    /// Exact sum; the sum must fit and be in bounds.
    fn add(&self, other: &Self) -> (r: Self)
        requires
            self.raw_of() + other.raw_of() <= u32::MAX,
            Self::raw_ok((self.raw_of() + other.raw_of()) as u32),
        ensures
            r.raw_of() == self.raw_of() + other.raw_of(),
    {
        Self::new(self.raw() + other.raw(), Self::fractional_bits())
    }

    /// Exact difference; it must not be negative and be in bounds.
    fn sub(&self, other: &Self) -> (r: Self)
        requires
            self.raw_of() >= other.raw_of(),
            Self::raw_ok((self.raw_of() - other.raw_of()) as u32),
        ensures
            r.raw_of() == self.raw_of() - other.raw_of(),
    {
        Self::new(self.raw() - other.raw(), Self::fractional_bits())
    }
}

/// Signed 64-bit fixed-point numbers.
pub trait FixI64: Sized + Copy {
    /// The raw integer that the number stores.
    spec fn raw_of(&self) -> i64;

    /// The number of fractional bits of the type.
    spec fn fract_bits() -> nat;

    /// Whether a raw value is a valid number of the type.
    spec fn raw_ok(raw: i64) -> bool;

    proof fn lemma_fract_bits_bound()
        ensures
            Self::fract_bits() < 64,
    ;

    fn raw(&self) -> (r: i64)
        ensures
            r == self.raw_of(),
    ;

    fn new_unchecked(raw: i64) -> (r: Self)
        ensures
            r.raw_of() == raw,
    ;

    fn fractional_bits() -> (r: u8)
        ensures
            r == Self::fract_bits(),
    ;

    fn within_bounds(&self) -> (r: bool)
        ensures
            r == Self::raw_ok(self.raw_of()),
    ;

    /// A number from its raw value; the raw value must be in bounds.
    fn new(raw: i64, fractional_bits: u8) -> (r: Self)
        requires
            fractional_bits == Self::fract_bits(),
            Self::raw_ok(raw),
        ensures
            r.raw_of() == raw,
    {
        Self::new_unchecked(raw)
    }

    /// The smallest positive step of the type.
    fn ulp() -> (r: Self)
        ensures
            r.raw_of() == 1,
    {
        Self::new_unchecked(1)
    }

    /// Exact sum; the sum must fit and be in bounds.
    fn add(&self, other: &Self) -> (r: Self)
        requires
            i64::MIN <= self.raw_of() + other.raw_of() <= i64::MAX,
            Self::raw_ok((self.raw_of() + other.raw_of()) as i64),
        ensures
            r.raw_of() == self.raw_of() + other.raw_of(),
    {
        Self::new(self.raw() + other.raw(), Self::fractional_bits())
    }

    /// Exact difference; it must fit and be in bounds.
    fn sub(&self, other: &Self) -> (r: Self)
        requires
            i64::MIN <= self.raw_of() - other.raw_of() <= i64::MAX,
            Self::raw_ok((self.raw_of() - other.raw_of()) as i64),
        ensures
            r.raw_of() == self.raw_of() - other.raw_of(),
    {
        Self::new(self.raw() - other.raw(), Self::fractional_bits())
    }

    /// The opposite number.
    fn neg(&self) -> (r: Self)
        requires
            self.raw_of() != i64::MIN,
            Self::raw_ok((-self.raw_of()) as i64),
        ensures
            r.raw_of() == -self.raw_of(),
    {
        Self::new(-self.raw(), Self::fractional_bits())
    }
}

/// Unsigned 64-bit fixed-point numbers.
pub trait FixU64: Sized + Copy {
    /// The raw integer that the number stores.
    spec fn raw_of(&self) -> u64;

    /// The number of fractional bits of the type.
    spec fn fract_bits() -> nat;

    /// Whether a raw value is a valid number of the type.
    spec fn raw_ok(raw: u64) -> bool;

    proof fn lemma_fract_bits_bound()
        ensures
            Self::fract_bits() <= 64,
    ;

    fn raw(&self) -> (r: u64)
        ensures
            r == self.raw_of(),
    ;

    fn new_unchecked(raw: u64) -> (r: Self)
        ensures
            r.raw_of() == raw,
    ;

    fn fractional_bits() -> (r: u8)
        ensures
            r == Self::fract_bits(),
    ;

    fn within_bounds(&self) -> (r: bool)
        ensures
            r == Self::raw_ok(self.raw_of()),
    ;

    /// A number from its raw value; the raw value must be in bounds.
    fn new(raw: u64, fractional_bits: u8) -> (r: Self)
        requires
            fractional_bits == Self::fract_bits(),
            Self::raw_ok(raw),
        ensures
            r.raw_of() == raw,
    {
        Self::new_unchecked(raw)
    }

    /// The smallest positive step of the type.
    fn ulp() -> (r: Self)
        ensures
            r.raw_of() == 1,
    {
        Self::new_unchecked(1)
    }

    /// Exact sum; the sum must fit and be in bounds.
    fn add(&self, other: &Self) -> (r: Self)
        requires
            self.raw_of() + other.raw_of() <= u64::MAX,
            Self::raw_ok((self.raw_of() + other.raw_of()) as u64),
        ensures
            r.raw_of() == self.raw_of() + other.raw_of(),
    {
        Self::new(self.raw() + other.raw(), Self::fractional_bits())
    }

    /// Exact difference; it must not be negative and be in bounds.
    fn sub(&self, other: &Self) -> (r: Self)
        requires
            self.raw_of() >= other.raw_of(),
            Self::raw_ok((self.raw_of() - other.raw_of()) as u64),
        ensures
            r.raw_of() == self.raw_of() - other.raw_of(),
    {
        Self::new(self.raw() - other.raw(), Self::fractional_bits())
    }
}

} // verus!
