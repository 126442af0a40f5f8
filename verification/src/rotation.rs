//! The four directions an avatar can face.
use vstd::prelude::*;

verus! {

/// A direction along one of the two axes.
#[derive(Clone, Copy, Debug, PartialEq, Eq, Structural)]
pub enum Rotation {
    Left,
    Up,
    Right,
    Down,
}

impl Rotation {
    /// The place of a direction in the cycle left, up, right, down.
    pub open spec fn quarter(self) -> int {
        match self {
            Rotation::Left => 0,
            Rotation::Up => 1,
            Rotation::Right => 2,
            Rotation::Down => 3,
        }
    }

    /// The direction one quarter turn on in the cycle.
    pub fn clockwise(&self) -> (r: Rotation)
        ensures
            r.quarter() == (self.quarter() + 1) % 4,
    {
        match self {
            Rotation::Left => Rotation::Up,
            Rotation::Up => Rotation::Right,
            Rotation::Right => Rotation::Down,
            Rotation::Down => Rotation::Left,
        }
    }

    /// The direction one quarter turn back in the cycle.
    pub fn anticlockwise(&self) -> (r: Rotation)
        ensures
            r.quarter() == (self.quarter() + 3) % 4,
    {
        match self {
            Rotation::Left => Rotation::Down,
            Rotation::Up => Rotation::Left,
            Rotation::Right => Rotation::Up,
            Rotation::Down => Rotation::Right,
        }
    }

    /// The angle of a direction, in eighths of a half turn.
    pub fn angle_eighths(&self) -> (n: u8)
        ensures
            n == 2 * self.quarter(),
    {
        match self {
            Rotation::Left => 0,
            Rotation::Up => 2,
            Rotation::Right => 4,
            Rotation::Down => 6,
        }
    }
}

} // verus!
