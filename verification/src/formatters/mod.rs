//! Formatters: they turn a grid into text or into an image.

pub mod ascii;
pub mod game_map;
pub mod image;
pub mod pixels;

use crate::grid::{Grid, GridView};
use vstd::prelude::*;

verus! {

/// The results of formatters. Writing a result into a file is left to the
/// program that uses the library.
pub trait Saveable {

}

/// A formatter: it turns a grid into a value of the type `T`.
pub trait Formatter<T: Saveable> {
    /// Whether the formatter can take the grid: whether the result stays
    /// within the limits of the machine.
    spec fn fits(&self, g: GridView) -> bool;

    /// Whether `out` is a rendering of the grid by this formatter.
    spec fn formats(&self, g: GridView, out: T) -> bool;

    /// Renders the grid.
    fn format(&self, grid: &Grid) -> (r: T)
        requires
            grid@.wf(),
            self.fits(grid@),
        ensures
            self.formats(grid@, r),
    ;
}

/// A text that a formatter made of a maze.
pub struct StringWrapper(pub String);

impl Saveable for StringWrapper {

}

impl StringWrapper {
    /// Returns the text.
    pub fn into_inner(self) -> (r: String)
        ensures
            r == self.0,
    {
        self.0
    }
}

} // verus!
