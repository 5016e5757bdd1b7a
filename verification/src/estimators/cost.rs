use vstd::prelude::*;
use crate::fixed_point::{FixI32, scaled_down_unsigned};
use crate::fixed_point::fix_u16;
use crate::fixed_point::types::Log2D;
use vstd::arithmetic::power2::lemma2_to64;

verus! {

/// The decayed cost plus a new cost, saturated at `u16::MAX`.
pub open spec fn cost_next(cost: int, new_cost: int) -> int {
    let decayed = cost - scaled_down_unsigned(cost, 4, u16::MAX as int);
    if decayed + new_cost > u16::MAX {
        u16::MAX as int
    } else {
        decayed + new_cost
    }
}

/// A sixteenth of a sum, rounded to nearest (the rounding addend capped at
/// `u16::MAX`).
pub open spec fn cost_decay(x: int) -> int {
    if x + 8 > 65535 {
        65535int / 16
    } else {
        (x + 8) / 16
    }
}

/// The sum after a decay by a sixteenth and the new cost, saturated at
/// `u16::MAX`, written out in whole numbers.
pub open spec fn cost_decayed_by_sixteenth(x: int, c: int) -> int {
    let decay = cost_decay(x);
    if x - decay + c > 65535 {
        65535
    } else {
        x - decay + c
    }
}

/// The tracker decays before it adds: the result is the sum less its
/// sixteenth plus the new cost (saturated); a new cost below the decay of
/// a sum of at least 16 lowers the sum, a new cost equal to the decay keeps
/// it (the fixed point of the decaying sum), and a larger one raises it.
pub proof fn lemma_cost_decays(x: int, c: int)
    requires
        0 <= x <= 65535,
        0 < c <= 65535,
    ensures
        cost_next(x, c) == cost_decayed_by_sixteenth(x, c),
        x >= 8 && c < cost_decay(x) ==> cost_next(x, c) < x,
        c == cost_decay(x) ==> cost_next(x, c) == x,
        c > cost_decay(x) ==> cost_next(x, c) > x || cost_next(x, c) == 65535,
        cost_decay(x) <= x,
{
    lemma2_to64();
    assert(vstd::arithmetic::power2::pow2(3) == 8);
    assert(vstd::arithmetic::power2::pow2(4) == 16);
    assert(scaled_down_unsigned(x, 4, 65535) == (if x + 8 > 65535 { 65535 } else { x + 8 }) / 16);
}

/// An exponentially decaying sum of coding costs.
#[derive(Clone, Copy, Debug, PartialEq, Eq, Structural)]
pub struct CostTracker(u16);

impl CostTracker {
    pub const DECAY_SCALE: u8 = 4;

    pub const FRACTIONAL_BITS: u8 = 11;

    pub closed spec fn raw_of(&self) -> u16 {
        self.0
    }

    /// The tracker with a raw value.
    pub closed spec fn from_raw(raw: u16) -> CostTracker {
        CostTracker(raw)
    }

    pub proof fn lemma_from_raw(raw: u16)
        ensures
            Self::from_raw(raw).raw_of() == raw,
    {
    }

    /// Trackers with the same raw value are the same.
    pub proof fn lemma_raw_injective(a: CostTracker, b: CostTracker)
        requires
            a.raw_of() == b.raw_of(),
        ensures
            a == b,
    {
    }

    /// The starting cost: one bit per symbol at the decay scale.
    pub fn initial() -> (r: Self)
        ensures
            r.raw_of() == 0x8000,
    {
        CostTracker(0x8000)
    }

    pub fn new(raw_value: u16) -> (r: Self)
        ensures
            r.raw_of() == raw_value,
    {
        CostTracker(raw_value)
    }

    pub fn raw(&self) -> (r: u16)
        ensures
            r == self.raw_of(),
    {
        self.0
    }

    /// Decays the sum by 1/16 and adds a new, positive cost.
    pub fn updated(&self, new_cost: Log2D) -> (r: Self)
        requires
            0 < new_cost.raw_of() <= u16::MAX,
        ensures
            r.raw_of() == cost_next(self.raw_of() as int, new_cost.raw_of() as int),
            r.raw_of() == cost_decayed_by_sixteenth(self.raw_of() as int, new_cost.raw_of() as int),
    {
        proof {
            lemma_cost_decays(self.0 as int, new_cost.raw_of() as int);
        }
        let x = self.0;
        let scaled = fix_u16::scaled_down(x, Self::DECAY_SCALE);
        proof {
            lemma2_to64();
            assert(scaled <= x) by (nonlinear_arith)
                requires scaled == (if x + 8 > 65535 { 65535 } else { x + 8 }) / 16, x >= 0;
        }
        let decayed = x - scaled;
        let new_cost = new_cost.raw();
        let result = decayed.saturating_add(new_cost as u16);
        CostTracker(result)
    }
}

} // verus!
