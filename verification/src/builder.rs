//! The builder: it collects the size, the algorithm, the seed and the start
//! cell, and builds the maze.

use crate::algorithms::recursive_backtracking::RecursiveBacktracking;
use crate::algorithms::Algorithm;
use crate::errors::BuildError;
use crate::grid::Grid;
use crate::maze::OrthogonalMaze;
use crate::random::rng_for;
use crate::types::Coords;
use vstd::prelude::*;

verus! {

/// A builder that puts a maze together step by step.
pub struct OrthogonalMazeBuilder<A: Algorithm> {
    width: usize,
    height: usize,
    algorithm: A,
    seed: Option<u64>,
    start_coords: Option<Coords>,
}

impl OrthogonalMazeBuilder<RecursiveBacktracking> {
    /// Returns a builder for a maze of ten by ten cells, made by the
    /// "Recursive Backtracking" algorithm, without a seed or a start cell.
    pub fn new() -> (r: OrthogonalMazeBuilder<RecursiveBacktracking>)
        ensures
            r.spec_width() == 10,
            r.spec_height() == 10,
            r.spec_seed() is None,
            r.spec_start() is None,
    {
        OrthogonalMazeBuilder {
            width: 10,
            height: 10,
            algorithm: RecursiveBacktracking,
            seed: None,
            start_coords: None,
        }
    }
}

impl Default for OrthogonalMazeBuilder<RecursiveBacktracking> {
    fn default() -> (r: OrthogonalMazeBuilder<RecursiveBacktracking>)
        ensures
            r.spec_width() == 10,
            r.spec_height() == 10,
            r.spec_seed() is None,
            r.spec_start() is None,
    {
        OrthogonalMazeBuilder::new()
    }
}

impl<A: Algorithm> OrthogonalMazeBuilder<A> {
    /// The number of columns asked for.
    pub closed spec fn spec_width(&self) -> usize {
        self.width
    }

    /// The number of rows asked for.
    pub closed spec fn spec_height(&self) -> usize {
        self.height
    }

    /// The seed asked for.
    pub closed spec fn spec_seed(&self) -> Option<u64> {
        self.seed
    }

    /// The start cell asked for.
    pub closed spec fn spec_start(&self) -> Option<Coords> {
        self.start_coords
    }

    /// The algorithm asked for.
    pub closed spec fn spec_algorithm(&self) -> A {
        self.algorithm
    }

    /// Sets the number of columns.
    pub fn width(self, width: usize) -> (r: Self)
        ensures
            r.spec_width() == width,
            r.spec_height() == self.spec_height(),
            r.spec_seed() == self.spec_seed(),
            r.spec_start() == self.spec_start(),
            r.spec_algorithm() == self.spec_algorithm(),
    {
        let mut builder = self;
        builder.width = width;
        builder
    }

    /// Sets the number of rows.
    pub fn height(self, height: usize) -> (r: Self)
        ensures
            r.spec_width() == self.spec_width(),
            r.spec_height() == height,
            r.spec_seed() == self.spec_seed(),
            r.spec_start() == self.spec_start(),
            r.spec_algorithm() == self.spec_algorithm(),
    {
        let mut builder = self;
        builder.height = height;
        builder
    }

    /// Sets the algorithm.
    pub fn algorithm<B: Algorithm>(self, algorithm: B) -> (r: OrthogonalMazeBuilder<B>)
        ensures
            r.spec_width() == self.spec_width(),
            r.spec_height() == self.spec_height(),
            r.spec_seed() == self.spec_seed(),
            r.spec_start() == self.spec_start(),
            r.spec_algorithm() == algorithm,
    {
        OrthogonalMazeBuilder {
            width: self.width,
            height: self.height,
            algorithm,
            seed: self.seed,
            start_coords: self.start_coords,
        }
    }

    /// Sets the seed of the random source. With `None` the source is seeded by
    /// the operating system.
    pub fn seed(self, seed: Option<u64>) -> (r: Self)
        ensures
            r.spec_width() == self.spec_width(),
            r.spec_height() == self.spec_height(),
            r.spec_seed() == seed,
            r.spec_start() == self.spec_start(),
            r.spec_algorithm() == self.spec_algorithm(),
    {
        let mut builder = self;
        builder.seed = seed;
        builder
    }

    /// Sets the cell from which generation starts.
    pub fn start_coords(self, coords: Coords) -> (r: Self)
        ensures
            r.spec_width() == self.spec_width(),
            r.spec_height() == self.spec_height(),
            r.spec_seed() == self.spec_seed(),
            r.spec_start() == Some(coords),
            r.spec_algorithm() == self.spec_algorithm(),
    {
        let mut builder = self;
        builder.start_coords = Some(coords);
        builder
    }

    /// Builds the maze. A start cell for an algorithm that does not support
    /// one is refused with a [`BuildError`] that names the algorithm, before
    /// any grid is made. In every other case the result is a maze of the size
    /// asked for that is a spanning tree of its grid.
    pub fn build(self) -> (r: Result<OrthogonalMaze, BuildError>)
        requires
            self.spec_width() >= 1,
            self.spec_height() >= 1,
            self.spec_width() * self.spec_height() <= usize::MAX,
            match self.spec_start() {
                Some(c) => self.spec_algorithm().supports_start() ==> c.0 < self.spec_width()
                    && c.1 < self.spec_height(),
                None => true,
            },
        ensures
            r is Err <==> self.spec_start() is Some && !self.spec_algorithm().supports_start(),
            match r {
                Ok(maze) => maze@.wf() && maze@.width == self.spec_width() && maze@.height
                    == self.spec_height() && maze@.spanning_tree(),
                Err(e) => e.reason@ == self.spec_algorithm().name_text(),
            },
    {
        let mut builder = self;
        if builder.start_coords.is_some() && !builder.algorithm.has_start_coords() {
            return Err(BuildError::reason(builder.algorithm.name()));
        }
        let mut grid = Grid::new(builder.width, builder.height);
        let mut rng = rng_for(builder.seed);
        let start = if builder.algorithm.has_start_coords() {
            builder.start_coords
        } else {
            None
        };
        builder.algorithm.generate(&mut grid, &mut rng, start);
        Ok(OrthogonalMaze::from_grid(grid))
    }
}

} // verus!
