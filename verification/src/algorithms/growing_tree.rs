//! The "Growing Tree" algorithm.

use crate::algorithms::growth::{
    carve_to_unvisited, exhausted, growing, in_tree, lemma_grow, lemma_growing_start,
    lemma_listed_push, lemma_listed_remove, lemma_tree_complete, lemma_unvisited_bounds, listed,
    pos, random_cell, shuffled_poles,
};
use crate::algorithms::{is_fresh, Algorithm};
use crate::grid::{lemma_fresh, Grid, GridView};
use crate::paths::{lemma_reaches_self, step, towards, Pos};
use crate::random::{random_bool, random_range, random_ratio};
use crate::types::Coords;
use rand::rngs::StdRng;
use vstd::prelude::*;

verus! {

/// How the "Growing Tree" algorithm selects the cell it grows from.
#[derive(Debug, Copy, Clone, PartialEq, Eq, PartialOrd, Ord, Structural)]
pub enum Method {
    /// The cell added last, as the recursive backtracker does.
    Newest,
    /// The cell added first, which makes long straight corridors.
    Oldest,
    /// A cell picked at random, as Prim's algorithm does.
    Random,
    /// The cell in the middle of the list.
    Middle,
    /// The newest cell or a random one, with equal chances.
    Newest50Random50,
    /// The newest cell three times out of four, a random one otherwise.
    Newest75Random25,
    /// The newest cell one time out of four, a random one otherwise.
    Newest25Random75,
}

/// The "Growing Tree" algorithm: it keeps a list of cells, grows the maze from
/// a cell of the list into an unvisited neighbour, and drops a cell that has
/// none. The way a cell is selected makes it behave like other algorithms.
pub struct GrowingTree {
    method: Method,
}

/// The state of the growth: every listed cell is within reach of the root,
/// and a cell of the tree that is not exhausted is still listed.
pub open spec fn tending(g: GridView, root: Pos, cells: Seq<Coords>) -> bool {
    &&& growing(g, root)
    &&& forall|k: int|
        0 <= k < cells.len() ==> in_tree(g, root, pos(#[trigger] cells[k])) && g.reaches(
            root,
            pos(cells[k]),
        )
    &&& forall|u: Pos| #[trigger] in_tree(g, root, u) ==> exhausted(g, u) || listed(cells, u)
}

/// The list of the first cell alone fits an untouched grid.

proof fn lemma_tending_start(g: GridView, c: Coords)
    requires
        is_fresh(g),
        g.holds(pos(c)),
    ensures
        tending(g, pos(c), seq![c]),
{
    let cells = seq![c];
    lemma_growing_start(g, pos(c));
    lemma_reaches_self(g, g.whole(), pos(c));
    assert(cells[0] == c);
    assert(listed(cells, pos(c)));
}

/// A carve from a listed cell into an unvisited neighbour, which joins the

/// list, keeps the state of the growth and leaves fewer cells unvisited.

proof fn lemma_tending_grow(g: GridView, root: Pos, cells: Seq<Coords>, i: int, n: Coords)
    requires
        tending(g, root, cells),
        0 <= i < cells.len(),
        g.can_step(cells[i].0 as int, cells[i].1 as int, towards(pos(cells[i]), pos(n))),
        pos(n) == step(pos(cells[i]), towards(pos(cells[i]), pos(n))),
        !g.visited(n.0 as int, n.1 as int),
    ensures
        tending(
            g.carve(cells[i].0 as int, cells[i].1 as int, towards(pos(cells[i]), pos(n))),
            root,
            cells.push(n),
        ),
        g.carve(
            cells[i].0 as int,
            cells[i].1 as int,
            towards(pos(cells[i]), pos(n)),
        ).unvisited_count() < g.unvisited_count(),
        g.carve(
            cells[i].0 as int,
            cells[i].1 as int,
            towards(pos(cells[i]), pos(n)),
        ).unvisited_count() >= 0,
        g.carve(cells[i].0 as int, cells[i].1 as int, towards(pos(cells[i]), pos(n))).width
            == g.width,
        g.carve(cells[i].0 as int, cells[i].1 as int, towards(pos(cells[i]), pos(n))).height
            == g.height,
{
    let u = pos(cells[i]);
    let p = towards(u, pos(n));
    let h = g.carve(u.0, u.1, p);
    let t = cells.push(n);
    assert(in_tree(g, root, pos(cells[i])) && g.reaches(root, pos(cells[i])));
    lemma_grow(g, root, u, p);
    assert forall|k: int| 0 <= k < t.len() implies in_tree(h, root, pos(#[trigger] t[k]))
        && h.reaches(root, pos(t[k])) by {
        if k < cells.len() {
            assert(t[k] == cells[k]);
            assert(g.reaches(root, pos(cells[k])));
        }
    }
    assert forall|c: Pos| #[trigger] in_tree(h, root, c) implies exhausted(h, c) || listed(
        t,
        c,
    ) by {
        lemma_listed_push(cells, n, c);
        if c == pos(n) {
        } else if c == u {
            assert(listed(cells, c));
        } else {
            assert(in_tree(g, root, c));
        }
    }
}

/// An exhausted cell may leave the list.

proof fn lemma_tending_drop(g: GridView, root: Pos, cells: Seq<Coords>, i: int)
    requires
        tending(g, root, cells),
        0 <= i < cells.len(),
        exhausted(g, pos(cells[i])),
    ensures
        tending(g, root, cells.remove(i)),
{
    let t = cells.remove(i);
    assert forall|k: int| 0 <= k < t.len() implies in_tree(g, root, pos(#[trigger] t[k]))
        && g.reaches(root, pos(t[k])) by {
        if k < i {
            assert(t[k] == cells[k]);
        } else {
            assert(t[k] == cells[k + 1]);
        }
    }
    assert forall|c: Pos| #[trigger] in_tree(g, root, c) implies exhausted(g, c) || listed(
        t,
        c,
    ) by {
        if !exhausted(g, c) {
            lemma_listed_remove(cells, i, c);
        }
    }
}

impl GrowingTree {
    /// Creates the algorithm with the given way of selecting cells.
    pub fn new(method: Method) -> (r: GrowingTree)
        ensures
            r.method() == method,
    {
        GrowingTree { method }
    }

    /// The way the algorithm selects cells.
    pub closed spec fn method(&self) -> Method {
        self.method
    }

    /// Selects a place in a list of `ceil` cells. The newest cell is the last
    /// of the list, the oldest the first.
    pub fn choose_index(&self, ceil: usize, rng: &mut StdRng) -> (r: usize)
        requires
            ceil > 0,
        ensures
            r < ceil,
            self.method() == Method::Oldest ==> r == 0,
            self.method() == Method::Newest ==> r == ceil - 1,
            self.method() == Method::Middle ==> r == ceil / 2,
    {
        match self.method {
            Method::Oldest => 0,
            Method::Newest => ceil - 1,
            Method::Middle => ceil / 2,
            Method::Random => random_range(rng, 0, ceil),
            Method::Newest50Random50 => {
                let newest = random_bool(rng);
                newest_or_random(newest, ceil, rng)
            },
            Method::Newest75Random25 => {
                let newest = random_ratio(rng, 3, 4);
                newest_or_random(newest, ceil, rng)
            },
            Method::Newest25Random75 => {
                let newest = random_ratio(rng, 1, 4);
                newest_or_random(newest, ceil, rng)
            },
        }
    }
}

/// The last place of a list of `ceil` cells where `newest` is set, a place
/// picked at random otherwise.
pub fn newest_or_random(newest: bool, ceil: usize, rng: &mut StdRng) -> (r: usize)
    requires
        ceil > 0,
    ensures
        r < ceil,
        newest ==> r == ceil - 1,
{
    if newest {
        ceil - 1
    } else {
        random_range(rng, 0, ceil)
    }
}

impl Algorithm for GrowingTree {
    open spec fn name_text(&self) -> Seq<char> {
        "GrowingTree"@
    }

    open spec fn supports_start(&self) -> bool {
        false
    }

    fn name(&self) -> (r: &'static str) {
        "GrowingTree"
    }

    fn has_start_coords(&self) -> (r: bool) {
        false
    }

    /// Starts with a list of one cell, picked at random. It selects a cell of
    /// the list, carves from it into a random unvisited neighbour and adds that
    /// neighbour to the list; a selected cell without such a neighbour leaves
    /// the list. It ends when the list is empty.
    fn generate(&mut self, grid: &mut Grid, rng: &mut StdRng, start: Option<Coords>) {
        let w = grid.width();
        let h = grid.height();
        proof {
            lemma_fresh(w as int, h as int);
        }
        let first = random_cell(grid, rng);
        let ghost root = pos(first);
        let mut cells: Vec<Coords> = Vec::new();
        cells.push(first);
        proof {
            assert(cells@ =~= seq![first]);
            lemma_tending_start(grid@, first);
            lemma_unvisited_bounds(grid@);
        }
        while cells.len() > 0
            invariant
                grid@.width == w,
                grid@.height == h,
                tending(grid@, root, cells@),
                grid@.unvisited_count() >= 0,
            decreases grid@.unvisited_count(), cells.len(),
        {
            let ghost g = grid@;
            let ghost before = cells@;
            let index = self.choose_index(cells.len(), rng);
            let coords = cells[index];
            assert(in_tree(g, root, pos(before[index as int])));
            let dirs = shuffled_poles(rng);
            match carve_to_unvisited(grid, coords, &dirs) {
                Some(n) => {
                    proof {
                        lemma_tending_grow(g, root, before, index as int, n);
                    }
                    cells.push(n);
                },
                None => {
                    proof {
                        lemma_tending_drop(g, root, before, index as int);
                    }
                    cells.remove(index);
                },
            }
        }
        proof {
            assert forall|u: Pos| #[trigger] in_tree(grid@, root, u) implies exhausted(
                grid@,
                u,
            ) by {
                assert(!listed(cells@, u));
            }
            lemma_tree_complete(grid@, root);
        }
    }
}

} // verus!
