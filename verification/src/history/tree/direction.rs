use vstd::prelude::*;
use crate::bit::Bit;

verus! {

/// The child of a binary node that a bit selects: left for 0, right for 1.
#[derive(Clone, Copy, Debug, PartialEq, Eq, Structural)]
pub enum Direction {
    Left,
    Right,
}

impl Direction {
    /// The direction that a bit selects.
    pub open spec fn of_bit(bit: Bit) -> Direction {
        match bit {
            Bit::Zero => Direction::Left,
            Bit::One => Direction::Right,
        }
    }

    /// The bit that selects this direction.
    pub open spec fn bit_spec(self) -> Bit {
        match self {
            Direction::Left => Bit::Zero,
            Direction::Right => Bit::One,
        }
    }

    /// The other direction.
    pub open spec fn opposite(self) -> Direction {
        match self {
            Direction::Left => Direction::Right,
            Direction::Right => Direction::Left,
        }
    }

    pub fn from_bit(bit: Bit) -> (r: Direction)
        ensures
            r == Direction::of_bit(bit),
    {
        match bit {
            Bit::Zero => Direction::Left,
            Bit::One => Direction::Right,
        }
    }

    pub fn from_bool(value: bool) -> (r: Direction)
        ensures
            r == (if value { Direction::Right } else { Direction::Left }),
    {
        if value {
            Direction::Right
        } else {
            Direction::Left
        }
    }

    pub fn to_bit(&self) -> (r: Bit)
        ensures
            r == self.bit_spec(),
    {
        match self {
            Direction::Left => Bit::Zero,
            Direction::Right => Bit::One,
        }
    }

    pub fn negated(&self) -> (r: Direction)
        ensures
            r == self.opposite(),
    {
        match self {
            Direction::Left => Direction::Right,
            Direction::Right => Direction::Left,
        }
    }

    /// The position of this direction's child in a pair: 0 or 1.
    pub open spec fn slot(self) -> int {
        match self {
            Direction::Left => 0,
            Direction::Right => 1,
        }
    }
}

} // verus!
