//! The maze generators. Each of them turns a fresh grid into a spanning tree
//! of the grid, whatever the random source hands out: every cell can be
//! reached from every other, and no passage closes a cycle.

pub mod aldous_broder;
pub mod binary_tree;
pub mod eller;
pub mod growing_tree;
pub mod growth;
pub mod hunt_and_kill;
pub mod kruskal;
pub mod prim;
pub mod recursive_backtracking;
pub mod recursive_division;
pub mod sidewinder;

use crate::grid::{Grid, GridView};
use crate::types::Coords;
use rand::rngs::StdRng;
use vstd::prelude::*;

verus! {

/// Whether a grid is as [`Grid::new`] leaves it: valid, walled everywhere and
/// untouched.
pub open spec fn is_fresh(g: GridView) -> bool {
    g.width >= 1 && g.height >= 1 && g == GridView::fresh(g.width, g.height)
}

/// A strategy that carves a maze into a fresh grid.
pub trait Algorithm {
    /// The name of the algorithm, as diagnostics show it.
    spec fn name_text(&self) -> Seq<char>;

    /// Whether the algorithm lets the caller choose the cell it starts from.
    spec fn supports_start(&self) -> bool;

    /// Returns the name of the algorithm.
    fn name(&self) -> (r: &'static str)
        ensures
            r@ == self.name_text(),
    ;

    /// Returns whether the algorithm lets the caller choose the cell it
    /// starts from.
    fn has_start_coords(&self) -> (r: bool)
        ensures
            r == self.supports_start(),
    ;

    /// Carves the maze: a spanning tree of the grid. An algorithm without
    /// support for a start cell takes no notice of `start`.
    fn generate(&mut self, grid: &mut Grid, rng: &mut StdRng, start: Option<Coords>)
        requires
            is_fresh(old(grid)@),
            match start {
                Some(c) => old(grid)@.in_bounds(c.0 as int, c.1 as int),
                None => true,
            },
        ensures
            final(grid)@.wf(),
            final(grid)@.width == old(grid)@.width,
            final(grid)@.height == old(grid)@.height,
            final(grid)@.connected(),
            final(grid)@.passage_count() == final(grid)@.width * final(grid)@.height - 1,
    ;
}

impl<A: Algorithm> Algorithm for Box<A> {
    open spec fn name_text(&self) -> Seq<char> {
        (**self).name_text()
    }

    open spec fn supports_start(&self) -> bool {
        (**self).supports_start()
    }

    fn name(&self) -> (r: &'static str) {
        (**self).name()
    }

    fn has_start_coords(&self) -> (r: bool) {
        (**self).has_start_coords()
    }

    fn generate(&mut self, grid: &mut Grid, rng: &mut StdRng, start: Option<Coords>) {
        (**self).generate(grid, rng, start)
    }
}

} // verus!
