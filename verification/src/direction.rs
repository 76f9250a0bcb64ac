use vstd::prelude::*;

verus! {

/// The direction in which a controller moves the thread count.
#[derive(Clone, Copy, Debug, PartialEq, Eq, Structural)]
pub enum Direction {
    Up,
    Down,
}

impl Direction {
    /// `+1` for `Up`, `-1` for `Down`.
    pub open spec fn sign(self) -> int {
        match self {
            Direction::Up => 1,
            Direction::Down => -1,
        }
    }

    /// The opposite direction.
    pub fn reversed(self) -> (r: Direction)
        ensures
            r.sign() == -self.sign(),
            r != self,
    {
        match self {
            Direction::Up => Direction::Down,
            Direction::Down => Direction::Up,
        }
    }

    /// The sign of the direction as an integer factor.
    pub fn factor(self) -> (r: i32)
        ensures
            r == self.sign(),
    {
        match self {
            Direction::Up => 1,
            Direction::Down => -1,
        }
    }
}

} // verus!
