//! The four compass directions of an orthogonal grid.

use vstd::prelude::*;

verus! {

/// A compass direction. The origin of a grid is its top-left corner, so
/// north points towards smaller `y` and west towards smaller `x`.
#[derive(Debug, Clone, Copy, PartialEq, Eq, Hash, Structural)]
pub enum Pole {
    N,
    S,
    E,
    W,
}

impl Pole {
    /// The direction pointing the other way.
    pub open spec fn spec_opposite(self) -> Pole {
        match self {
            Pole::N => Pole::S,
            Pole::S => Pole::N,
            Pole::E => Pole::W,
            Pole::W => Pole::E,
        }
    }

    /// The horizontal offset of one step in this direction.
    pub open spec fn spec_dir_x(self) -> int {
        match self {
            Pole::N => 0,
            Pole::S => 0,
            Pole::E => 1,
            Pole::W => -1,
        }
    }

    /// The vertical offset of one step in this direction.
    pub open spec fn spec_dir_y(self) -> int {
        match self {
            Pole::N => -1,
            Pole::S => 1,
            Pole::E => 0,
            Pole::W => 0,
        }
    }

    /// Returns the direction pointing the other way.
    #[verifier::when_used_as_spec(spec_opposite)]
    pub fn opposite(self) -> (r: Pole)
        ensures
            r == self.spec_opposite(),
    {
        match self {
            Pole::N => Pole::S,
            Pole::S => Pole::N,
            Pole::E => Pole::W,
            Pole::W => Pole::E,
        }
    }

    /// Returns the horizontal offset of one step in this direction.
    pub fn dir_x(self) -> (r: i8)
        ensures
            r == self.spec_dir_x(),
    {
        match self {
            Pole::N => 0,
            Pole::S => 0,
            Pole::E => 1,
            Pole::W => -1,
        }
    }

    /// Returns the vertical offset of one step in this direction.
    pub fn dir_y(self) -> (r: i8)
        ensures
            r == self.spec_dir_y(),
    {
        match self {
            Pole::N => -1,
            Pole::S => 1,
            Pole::E => 0,
            Pole::W => 0,
        }
    }
}

} // verus!
