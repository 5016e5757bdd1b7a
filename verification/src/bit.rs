use vstd::prelude::*;

verus! {

/// A single binary symbol.
#[derive(Clone, Copy, Debug, PartialEq, Eq, Structural)]
pub enum Bit {
    Zero,
    One,
}

impl Bit {
    /// The numeric value of the bit: 0 or 1.
    pub open spec fn value(self) -> int {
        match self {
            Bit::Zero => 0,
            Bit::One => 1,
        }
    }

    /// The bit that stands for a boolean: `true` is one.
    pub open spec fn of_bool(b: bool) -> Bit {
        if b { Bit::One } else { Bit::Zero }
    }

    /// The opposite bit.
    pub open spec fn flipped(self) -> Bit {
        match self {
            Bit::Zero => Bit::One,
            Bit::One => Bit::Zero,
        }
    }

    pub fn is_0(&self) -> (r: bool)
        ensures
            r == (*self == Bit::Zero),
    {
        *self == Bit::Zero
    }

    pub fn is_1(&self) -> (r: bool)
        ensures
            r == (*self == Bit::One),
    {
        *self == Bit::One
    }

    pub fn to_i32(&self) -> (r: i32)
        ensures
            r == self.value(),
    {
        match self {
            Bit::Zero => 0,
            Bit::One => 1,
        }
    }

    pub fn to_u32(&self) -> (r: u32)
        ensures
            r == self.value(),
    {
        match self {
            Bit::Zero => 0,
            Bit::One => 1,
        }
    }

    pub fn to_i64(&self) -> (r: i64)
        ensures
            r == self.value(),
    {
        match self {
            Bit::Zero => 0,
            Bit::One => 1,
        }
    }

    pub fn to_u64(&self) -> (r: u64)
        ensures
            r == self.value(),
    {
        match self {
            Bit::Zero => 0,
            Bit::One => 1,
        }
    }

    pub fn to_u16(&self) -> (r: u16)
        ensures
            r == self.value(),
    {
        match self {
            Bit::Zero => 0,
            Bit::One => 1,
        }
    }

    pub fn to_u8(&self) -> (r: u8)
        ensures
            r == self.value(),
    {
        match self {
            Bit::Zero => 0,
            Bit::One => 1,
        }
    }

    /// The bit for a boolean: `true` gives one, `false` gives zero.
    pub fn from_bool(value: bool) -> (r: Bit)
        ensures
            r == Bit::of_bool(value),
    {
        if value {
            Bit::One
        } else {
            Bit::Zero
        }
    }

    /// The opposite bit.
    pub fn negated(self) -> (r: Bit)
        ensures
            r == self.flipped(),
    {
        match self {
            Bit::Zero => Bit::One,
            Bit::One => Bit::Zero,
        }
    }
}

impl From<bool> for Bit {
    fn from(value: bool) -> (r: Bit) {
        if value {
            Bit::One
        } else {
            Bit::Zero
        }
    }
}

impl vstd::std_specs::convert::FromSpecImpl<bool> for Bit {
    open spec fn obeys_from_spec() -> bool {
        true
    }

    open spec fn from_spec(v: bool) -> Bit {
        Bit::of_bool(v)
    }
}

/// Negating a bit twice gives the bit back.
pub proof fn lemma_flip_involutive(b: Bit)
    ensures
        b.flipped().flipped() == b,
        b.flipped() != b,
        b.flipped().value() == 1 - b.value(),
{
}

fn check_not_operator(b: Bit) {
    let d: Bit = true.into();
    assert(d == Bit::One);
}

} // verus!
