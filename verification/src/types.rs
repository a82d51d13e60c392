//! Coordinate types shared by the grid, the generators and the renderers.

use crate::text::{decimal_text, push_decimal};
use vstd::prelude::*;
use vstd::std_specs::cmp::PartialEqSpecImpl;
use vstd::std_specs::convert::FromSpecImpl;

verus! {

/// The position of a cell: its column `x` and its row `y`, counted from the
/// top-left corner of the grid.
pub type Coords = (usize, usize);

/// A position that can be attached to the entity of a game world.
#[derive(Debug, Eq, Hash)]
pub struct CoordsComponent {
    pub coord: Coords,
}

impl Clone for CoordsComponent {
    fn clone(&self) -> (r: CoordsComponent)
        ensures
            r.coord == self.coord,
    {
        CoordsComponent { coord: self.coord }
    }
}

impl PartialEq for CoordsComponent {
    fn eq(&self, other: &CoordsComponent) -> (r: bool) {
        self.coord.0 == other.coord.0 && self.coord.1 == other.coord.1
    }
}

impl PartialEqSpecImpl for CoordsComponent {
    open spec fn obeys_eq_spec() -> bool {
        true
    }

    open spec fn eq_spec(&self, other: &CoordsComponent) -> bool {
        self.coord.0 == other.coord.0 && self.coord.1 == other.coord.1
    }
}

impl CoordsComponent {
    /// Creates the position of column `x` and row `y`.
    pub fn new(x: usize, y: usize) -> (r: CoordsComponent)
        ensures
            r.coord == (x, y),
    {
        CoordsComponent { coord: (x, y) }
    }

    /// Returns the column and the row.
    pub fn xy(&self) -> (r: (usize, usize))
        ensures
            r == self.coord,
    {
        (self.coord.0, self.coord.1)
    }

    /// The text of a position, such as `(3,4)`.
    pub open spec fn text(&self) -> Seq<char> {
        "("@ + decimal_text(self.coord.0 as nat) + ","@ + decimal_text(self.coord.1 as nat) + ")"@
    }

    /// Returns the text of the position.
    pub fn to_string(&self) -> (r: String)
        ensures
            r@ == self.text(),
    {
        let mut text = String::from_str("(");
        push_decimal(&mut text, self.coord.0);
        text.append(",");
        push_decimal(&mut text, self.coord.1);
        text.append(")");
        text
    }
}

impl From<Coords> for CoordsComponent {
    fn from(value: Coords) -> (r: CoordsComponent) {
        CoordsComponent { coord: value }
    }
}

impl FromSpecImpl<Coords> for CoordsComponent {
    open spec fn obeys_from_spec() -> bool {
        true
    }

    open spec fn from_spec(value: Coords) -> CoordsComponent {
        CoordsComponent { coord: value }
    }
}

impl From<CoordsComponent> for Coords {
    fn from(value: CoordsComponent) -> (r: Coords) {
        (value.coord.0, value.coord.1)
    }
}

impl FromSpecImpl<CoordsComponent> for Coords {
    open spec fn obeys_from_spec() -> bool {
        true
    }

    open spec fn from_spec(value: CoordsComponent) -> Coords {
        value.coord
    }
}

/// A marker for the position at which a path starts.
#[derive(Clone, Debug, PartialEq, Eq)]
pub struct Start;

/// A marker for the position at which a path ends.
#[derive(Clone, Debug, PartialEq, Eq)]
pub struct Goal;

} // verus!
