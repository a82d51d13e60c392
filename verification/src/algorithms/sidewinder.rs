//! The "Sidewinder" algorithm.

use crate::algorithms::Algorithm;
use crate::cell::Cell;
use crate::grid::{lemma_carve, lemma_fresh, Grid, GridView};
use crate::paths::{
    lemma_carve_keeps, lemma_carve_links, lemma_reaches_self, lemma_reaches_step, lemma_run_reached,
    Pos,
};
use crate::pole::Pole;
use crate::random::{random_bool, random_range};
use crate::types::Coords;
use rand::rngs::StdRng;
use vstd::prelude::*;

verus! {

/// The "Sidewinder" algorithm. It works through the grid row by row and keeps
/// in mind only the current run of cells; the top row becomes one corridor.
pub struct Sidewinder;

/// The state of a row under work: the rows above and the cells left of the
/// run are within reach of the top-left cell, and the cells of the run up to
/// `x` are joined by passages towards the east.
pub open spec fn row_state(g: GridView, y: int, run_start: int, x: int) -> bool {
    &&& forall|c: Pos|
        g.holds(c) && (c.1 < y || (c.1 == y && c.0 < run_start)) ==> #[trigger] g.reaches(
            (0, 0),
            c,
        )
    &&& forall|k: int| run_start <= k < x && k + 1 < g.width ==> #[trigger] g.open(k, y, Pole::E)
    &&& forall|k: int| x <= k < g.width ==> !#[trigger] g.open(k, y, Pole::E)
    &&& forall|k: int| run_start <= k < g.width ==> !#[trigger] g.open(k, y, Pole::N)
    &&& forall|c: Pos, p: Pole| g.holds(c) && c.1 > y ==> !#[trigger] g.open(c.0, c.1, p)
    &&& g.passage_count() == y * g.width + x - if y > 0 || x == g.width {
        1int
    } else {
        0int
    }
}

/// A carve in the row under work keeps the rows above and the cells left of

/// the run within reach of the top-left cell.

proof fn lemma_row_kept(g: GridView, y: int, run_start: int, x: int, cx: int, p: Pole)
    requires
        g.wf(),
        g.can_step(cx, y, p),
        row_state(g, y, run_start, x),
        0 <= run_start <= x < g.width,
        0 <= y < g.height,
    ensures
        forall|c: Pos|
            g.holds(c) && (c.1 < y || (c.1 == y && c.0 < run_start)) ==> #[trigger] g.carve(
                cx,
                y,
                p,
            ).reaches((0, 0), c),
{
    assert forall|c: Pos|
        g.holds(c) && (c.1 < y || (c.1 == y && c.0 < run_start)) implies #[trigger] g.carve(
        cx,
        y,
        p,
    ).reaches((0, 0), c) by {
        assert(g.reaches((0, 0), c));
        lemma_carve_keeps(g, cx, y, p, (0, 0), c);
    }
}

/// The run goes on: the cell `(x, y)` carves towards the east.
proof fn lemma_row_east(g: GridView, y: int, run_start: int, x: int)
    requires
        g.wf(),
        row_state(g, y, run_start, x),
        0 <= run_start <= x,
        x + 1 < g.width,
        0 <= y < g.height,
    ensures
        row_state(g.carve(x, y, Pole::E), y, run_start, x + 1),
{
    let h = g.carve(x, y, Pole::E);
    lemma_carve(g, x, y, Pole::E);
    crate::grid::lemma_carve_count(g, x, y, Pole::E);
    lemma_row_kept(g, y, run_start, x, x, Pole::E);
    assert(!g.open(x, y, Pole::E));
    assert forall|k: int| run_start <= k < x + 1 && k + 1 < h.width implies #[trigger] h.open(
        k,
        y,
        Pole::E,
    ) by {
        if k < x {
            assert(g.open(k, y, Pole::E));
        }
    }
    assert forall|k: int| x + 1 <= k < h.width implies !#[trigger] h.open(k, y, Pole::E) by {
        assert(!g.open(k, y, Pole::E));
    }
    assert forall|k: int| run_start <= k < h.width implies !#[trigger] h.open(k, y, Pole::N) by {
        assert(!g.open(k, y, Pole::N));
    }
    assert forall|c: Pos, p: Pole| h.holds(c) && c.1 > y implies !#[trigger] h.open(
        c.0,
        c.1,
        p,
    ) by {
        assert(!g.open(c.0, c.1, p));
    }
}

/// The last cell of the top row carves nothing.
proof fn lemma_row_top_end(g: GridView, x: int)
    requires
        g.wf(),
        row_state(g, 0, 0, x),
        x + 1 == g.width,
    ensures
        row_state(g, 0, 0, x + 1),
{
}

/// The run ends: one of its cells carves towards the north.
proof fn lemma_row_north(g: GridView, y: int, run_start: int, x: int, r: int)
    requires
        g.wf(),
        row_state(g, y, run_start, x),
        0 <= run_start <= r <= x < g.width,
        0 < y < g.height,
    ensures
        row_state(g.carve(r, y, Pole::N), y, x + 1, x + 1),
{
    let h = g.carve(r, y, Pole::N);
    lemma_carve(g, r, y, Pole::N);
    crate::grid::lemma_carve_count(g, r, y, Pole::N);
    lemma_carve_links(g, r, y, Pole::N);
    lemma_row_kept(g, y, run_start, x, r, Pole::N);
    assert(!g.open(r, y, Pole::N));
    assert(h.reaches((0, 0), (r, y - 1)));
    lemma_reaches_step(h, h.whole(), (0, 0), (r, y - 1), (r, y));
    assert forall|k: int| run_start <= k < x implies #[trigger] h.open(k, y, Pole::E) by {
        assert(g.open(k, y, Pole::E));
    }
    assert forall|c: Pos|
        h.holds(c) && (c.1 < y || (c.1 == y && c.0 < x + 1)) implies #[trigger] h.reaches(
        (0, 0),
        c,
    ) by {
        if c.1 == y && c.0 >= run_start {
            lemma_run_reached(h, (0, 0), y, run_start, x, r, c.0);
        }
    }
    assert forall|k: int| x + 1 <= k < h.width implies !#[trigger] h.open(k, y, Pole::E) by {
        assert(!g.open(k, y, Pole::E));
    }
    assert forall|k: int| x + 1 <= k < h.width implies !#[trigger] h.open(k, y, Pole::N) by {
        assert(!g.open(k, y, Pole::N));
    }
    assert forall|c: Pos, p: Pole| h.holds(c) && c.1 > y implies !#[trigger] h.open(
        c.0,
        c.1,
        p,
    ) by {
        assert(!g.open(c.0, c.1, p));
    }
}

/// A finished row hands over to the row below.
proof fn lemma_row_next(g: GridView, y: int, run_start: int)
    requires
        g.wf(),
        row_state(g, y, run_start, g.width),
        0 <= y,
        y + 1 < g.height,
        y == 0 ==> run_start == 0,
        y > 0 ==> run_start == g.width,
    ensures
        row_state(g, y + 1, 0, 0),
{
    assert(y * g.width + g.width == (y + 1) * g.width) by (nonlinear_arith);
    assert forall|c: Pos| g.holds(c) && c.1 < y + 1 implies #[trigger] g.reaches((0, 0), c) by {
        if y == 0 {
            lemma_reaches_self(g, g.whole(), (0, 0));
            lemma_run_reached(g, (0, 0), 0, 0, g.width - 1, 0, c.0);
        }
    }
    assert forall|k: int| 0 <= k < g.width implies !#[trigger] g.open(k, y + 1, Pole::E) by {
        assert(g.holds((k, y + 1)));
        assert(!g.open((k, y + 1).0, (k, y + 1).1, Pole::E));
    }
    assert forall|k: int| 0 <= k < g.width implies !#[trigger] g.open(k, y + 1, Pole::N) by {
        assert(g.holds((k, y + 1)));
        assert(!g.open((k, y + 1).0, (k, y + 1).1, Pole::N));
    }
}

/// After the last row the grid is a spanning tree.
proof fn lemma_rows_done(g: GridView, run_start: int)
    requires
        g.wf(),
        row_state(g, g.height - 1, run_start, g.width),
        g.height == 1 ==> run_start == 0,
        g.height > 1 ==> run_start == g.width,
    ensures
        g.spanning_tree(),
{
    let y = g.height - 1;
    assert(y * g.width + g.width == g.width * g.height) by (nonlinear_arith)
        requires
            y == g.height - 1,
    ;
    assert forall|c: Pos| g.holds(c) implies #[trigger] g.reaches((0, 0), c) by {
        if y == 0 {
            lemma_reaches_self(g, g.whole(), (0, 0));
            lemma_run_reached(g, (0, 0), 0, 0, g.width - 1, 0, c.0);
        }
    }
}

impl Algorithm for Sidewinder {
    open spec fn name_text(&self) -> Seq<char> {
        "Sidewinder"@
    }

    open spec fn supports_start(&self) -> bool {
        false
    }

    fn name(&self) -> (r: &'static str) {
        "Sidewinder"
    }

    fn has_start_coords(&self) -> (r: bool) {
        false
    }

    /// Per row, a coin decides for each cell whether the run goes on towards
    /// the east or ends. A run that ends carves north from one of its cells,
    /// picked at random. The top row only carves east, and becomes one
    /// corridor.
    fn generate(&mut self, grid: &mut Grid, rng: &mut StdRng, start: Option<Coords>)
        ensures
            forall|x: int|
                0 <= x < final(grid)@.width - 1 ==> #[trigger] final(grid)@.open(x, 0, Pole::E),
    {
        let w = grid.width();
        let h = grid.height();
        proof {
            lemma_fresh(w as int, h as int);
            assert(row_state(grid@, 0, 0, 0)) by {
                assert forall|c: Pos| grid@.holds(c) && (c.1 < 0 || (c.1 == 0 && c.0 < 0))
                    implies #[trigger] grid@.reaches((0, 0), c) by {}
                assert forall|k: int| 0 <= k < grid@.width implies !#[trigger] grid@.open(
                    k,
                    0,
                    Pole::E,
                ) by {
                    assert(grid@.in_bounds(k, 0));
                }
                assert forall|k: int| 0 <= k < grid@.width implies !#[trigger] grid@.open(
                    k,
                    0,
                    Pole::N,
                ) by {
                    assert(grid@.in_bounds(k, 0));
                }
            }
        }
        let mut y: usize = 0;
        while y < h
            invariant
                grid@.wf(),
                grid@.width == w,
                grid@.height == h,
                y <= h,
                y < h ==> row_state(grid@, y as int, 0, 0),
                y == h ==> grid@.spanning_tree(),
                y > 0 ==> forall|k: int| 0 <= k < w - 1 ==> #[trigger] grid@.open(k, 0, Pole::E),
            decreases h - y,
        {
            let mut run_start: usize = 0;
            let mut x: usize = 0;
            while x < w
                invariant
                    grid@.wf(),
                    grid@.width == w,
                    grid@.height == h,
                    y < h,
                    run_start <= x <= w,
                    y > 0 && x == w ==> run_start == w,
                    y == 0 ==> run_start == 0,
                    row_state(grid@, y as int, run_start as int, x as int),
                    y > 0 ==> forall|k: int| 0 <= k < w - 1 ==> #[trigger] grid@.open(k, 0, Pole::E),
                decreases w - x,
            {
                let carve_east = random_bool(rng);
                let ghost g = grid@;
                if y == 0 || (carve_east && x + 1 < w) {
                    proof {
                        if x + 1 < w {
                            lemma_row_east(g, y as int, run_start as int, x as int);
                            lemma_carve(g, x as int, y as int, Pole::E);
                        } else {
                            lemma_row_top_end(g, x as int);
                        }
                    }
                    let _ = grid.carve_passage((x, y), Cell::east());
                } else {
                    let rand_x = random_range(rng, run_start, x + 1);
                    proof {
                        lemma_row_north(g, y as int, run_start as int, x as int, rand_x as int);
                        lemma_carve(g, rand_x as int, y as int, Pole::N);
                    }
                    let _ = grid.carve_passage((rand_x, y), Cell::north());
                    run_start = x + 1;
                }
                x += 1;
            }
            proof {
                if y + 1 < h {
                    lemma_row_next(grid@, y as int, run_start as int);
                } else {
                    lemma_rows_done(grid@, run_start as int);
                }
            }
            y += 1;
        }
    }
}

} // verus!
