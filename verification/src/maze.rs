//! The finished maze: a grid that can only be read.

use crate::cell::Cell;
use crate::formatters::ascii::{narrow_text, render_narrow};
use crate::formatters::{Formatter, Saveable};
use crate::grid::{Grid, GridView};

use crate::types::Coords;
use crate::validate::validate;
use vstd::prelude::*;

verus! {

/// An orthogonal maze: every cell is a square with up to four passages. The
/// maze owns its grid and offers read access only.
pub struct OrthogonalMaze {
    grid: Grid,
}

impl View for OrthogonalMaze {
    type V = GridView;

    closed spec fn view(&self) -> GridView {
        self.grid@
    }
}

impl OrthogonalMaze {
    #[verifier::type_invariant]
    spec fn inv(&self) -> bool {
        self.grid@.wf()
    }

    /// Creates a maze of the given size in which every cell is still walled
    /// on all four sides.
    pub fn new(width: usize, height: usize) -> (r: OrthogonalMaze)
        requires
            width >= 1,
            height >= 1,
            width * height <= usize::MAX,
        ensures
            r@ == GridView::fresh(width as int, height as int),
            r@.wf(),
    {
        OrthogonalMaze { grid: Grid::new(width, height) }
    }

    /// Wraps a grid.
    pub fn from_grid(grid: Grid) -> (r: OrthogonalMaze)
        requires
            grid@.wf(),
        ensures
            r@ == grid@,
    {
        OrthogonalMaze { grid }
    }

    /// Gives read access to the grid of the maze.
    pub fn grid(&self) -> (r: &Grid)
        ensures
            r@ == self@,
            r@.wf(),
    {
        proof {
            use_type_invariant(self);
        }
        &self.grid
    }

    /// Returns the number of columns.
    pub fn width(&self) -> (r: usize)
        ensures
            r == self@.width,
    {
        self.grid.width()
    }

    /// Returns the number of rows.
    pub fn height(&self) -> (r: usize)
        ensures
            r == self@.height,
    {
        self.grid.height()
    }

    /// Returns whether every passage of `direction` is open in the cell.
    pub fn is_carved(&self, coords: Coords, direction: Cell) -> (r: bool)
        requires
            self@.in_bounds(coords.0 as int, coords.1 as int),
        ensures
            r == self@.cell(coords.0 as int, coords.1 as int).includes(direction@),
    {
        proof {
            use_type_invariant(self);
        }
        self.grid.is_carved(coords, direction)
    }

    /// Returns the cells with their positions, row by row.
    pub fn cells(&self) -> (r: Vec<(Coords, Cell)>)
        ensures
            r@.len() == self@.width * self@.height,
            forall|i: int|
                0 <= i < r@.len() ==> (#[trigger] r@[i]).0 == (
                    (i % self@.width) as usize,
                    (i / self@.width) as usize,
                ) && r@[i].1@ == self@.cells[i],
    {
        proof {
            use_type_invariant(self);
        }
        self.grid.cells()
    }

    /// Returns the maze as text, in the narrow form of the ASCII formatter.
    pub fn to_string(&self) -> (r: String)
        ensures
            r@ == narrow_text(self@),
    {
        proof {
            use_type_invariant(self);
        }
        render_narrow(&self.grid)
    }

    /// Renders the maze with the given formatter.
    pub fn format<F: Formatter<T>, T: Saveable>(&self, formatter: F) -> (r: T)
        requires
            formatter.fits(self@),
        ensures
            formatter.formats(self@, r),
    {
        proof {
            use_type_invariant(self);
        }
        formatter.format(&self.grid)
    }

    /// Returns whether the maze is valid: whether every cell can be reached
    /// from the top-left cell.
    pub fn is_valid(&self) -> (r: bool)
        ensures
            r == self@.connected(),
    {
        proof {
            use_type_invariant(self);
        }
        validate(&self.grid)
    }
}

} // verus!
