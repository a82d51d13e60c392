//! The Aldous-Broder algorithm.

use crate::algorithms::growth::{
    covers_compass, get_start_coords, growing, lemma_grow, lemma_growing_start,
    lemma_none_unvisited, lemma_towards_step, lemma_tree_full, pos, shuffled_poles,
};
use crate::algorithms::hunt_and_kill::HuntAndKill;
use crate::algorithms::{is_fresh, Algorithm};
use crate::cell::Cell;
use crate::grid::{lemma_carve, lemma_count_uniform, lemma_fresh, Grid, GridView};
use crate::paths::{lemma_reaches_self, step, towards, Pos};
use crate::pole::Pole;
use crate::types::Coords;
use rand::rngs::StdRng;
use vstd::prelude::*;

verus! {

/// The Aldous-Broder algorithm: an unbiased random walk that carves whenever
/// it enters a cell for the first time. It picks every spanning tree of the
/// grid with the same chance, and may take long over the last cells.
pub struct AldousBroder;

/// The number of steps after which the random walk gives over to a scan for
/// the cells that are left. No run reaches it in practice.
pub const WALK_BUDGET: u64 = 0xffff_ffff_ffff_ffff;

/// The state of the walk: `remaining` counts the cells that remain to be
/// entered. Before the first step nothing is visited, not even the cell the
/// walk stands on.
pub open spec fn wandering(g: GridView, root: Pos, cur: Pos, remaining: int) -> bool {
    &&& growing(g, root)
    &&& g.holds(cur)
    &&& g.reaches(root, cur)
    &&& if g.visited(cur.0, cur.1) {
        remaining == g.unvisited_count()
    } else {
        &&& cur == root
        &&& remaining == g.width * g.height - 1
        &&& forall|c: Pos| g.holds(c) ==> !g.visited(c.0, c.1)
    }
}

/// Before the first step the walk stands on the root of an untouched grid.

proof fn lemma_wander_start(g: GridView, root: Pos)
    requires
        is_fresh(g),
        g.holds(root),
    ensures
        wandering(g, root, root, g.width * g.height - 1),
{
    lemma_growing_start(g, root);
    lemma_reaches_self(g, g.whole(), root);
}

/// A grid without a visited cell counts every cell as unvisited.

proof fn lemma_untouched_count(g: GridView)
    requires
        g.wf(),
        forall|c: Pos| g.holds(c) ==> !g.visited(c.0, c.1),
    ensures
        g.unvisited_count() == g.width * g.height,
{
    let flags = g.visited_flags();
    assert forall|i: int| 0 <= i < flags.len() implies flags[i] == false by {
        crate::grid::lemma_cell_of_index(g.width, g.height, i);
        let c = (i % g.width, i / g.width);
        assert(g.holds(c));
        assert(!g.visited(c.0, c.1));
    }
    lemma_count_uniform(flags, false);
}

/// A step into an unvisited cell leaves one cell less to enter; a step

/// into a visited cell changes nothing but the place of the walk.

proof fn lemma_wander_step(g: GridView, root: Pos, cur: Pos, remaining: int, p: Pole)
    requires
        wandering(g, root, cur, remaining),
        g.can_step(cur.0, cur.1, p),
    ensures
        !g.visited(step(cur, p).0, step(cur, p).1) ==> remaining > 0 && wandering(
            g.carve(cur.0, cur.1, p),
            root,
            step(cur, p),
            remaining - 1,
        ) && g.carve(cur.0, cur.1, p).width == g.width && g.carve(cur.0, cur.1, p).height
            == g.height,
        g.visited(step(cur, p).0, step(cur, p).1) ==> wandering(g, root, step(cur, p), remaining),
{
    let n = step(cur, p);
    assert(g.holds(n));
    if g.visited(n.0, n.1) {
        assert(g.reaches(root, n));
        assert(g.visited(cur.0, cur.1));
    } else {
        lemma_grow(g, root, cur, p);
        lemma_carve(g, cur.0, cur.1, p);
        if !g.visited(cur.0, cur.1) {
            lemma_untouched_count(g);
        }
    }
}

/// When no cell remains to be entered, the grid is a spanning tree.

proof fn lemma_wander_end(g: GridView, root: Pos, cur: Pos)
    requires
        wandering(g, root, cur, 0),
    ensures
        g.spanning_tree(),
{
    if g.visited(cur.0, cur.1) {
        lemma_none_unvisited(g);
    } else {
        assert(g.width * g.height == 1);
        assert(g.width == 1 && g.height == 1) by (nonlinear_arith)
            requires
                g.width >= 1,
                g.height >= 1,
                g.width * g.height == 1,
        ;
    }
    lemma_tree_full(g, root);
}

/// Moves from the cell `c` to its neighbour in the first of the given
/// directions that stays in the grid, and carves the passage if that neighbour
/// has not been visited. Returns the neighbour and whether it carved. A cell
/// without neighbours stays where it is.
pub fn wander(grid: &mut Grid, c: Coords, dirs: &Vec<Pole>) -> (r: (Coords, bool))
    requires
        old(grid)@.wf(),
        old(grid)@.in_bounds(c.0 as int, c.1 as int),
        covers_compass(dirs@),
    ensures
        r.0 == c ==> !r.1 && final(grid)@ == old(grid)@ && forall|p: Pole|
            !#[trigger] old(grid)@.can_step(c.0 as int, c.1 as int, p),
        r.0 != c ==> {
            &&& old(grid)@.can_step(c.0 as int, c.1 as int, towards(pos(c), pos(r.0)))
            &&& pos(r.0) == step(pos(c), towards(pos(c), pos(r.0)))
            &&& r.1 == !old(grid)@.visited(pos(r.0).0, pos(r.0).1)
            &&& final(grid)@ == if r.1 {
                old(grid)@.carve(c.0 as int, c.1 as int, towards(pos(c), pos(r.0)))
            } else {
                old(grid)@
            }
        },
{
    let ghost g = grid@;
    let mut i: usize = 0;
    while i < 4
        invariant
            i <= 4,
            grid@ == g,
            g == old(grid)@,
            g.wf(),
            g.in_bounds(c.0 as int, c.1 as int),
            covers_compass(dirs@),
            forall|j: int| 0 <= j < i ==> !g.can_step(c.0 as int, c.1 as int, #[trigger] dirs@[j]),
        decreases 4 - i,
    {
        let p = dirs[i];
        let dir = Cell::from_pole(p);
        assert(dir@.pole() == Some(p));
        if let Ok(n) = grid.get_next_cell_coords(c, dir) {
            let mut carved = false;
            if !grid.is_cell_visited(n) {
                let _ = grid.carve_passage(c, dir);
                carved = true;
            }
            proof {
                lemma_towards_step(pos(c), p);
                assert(pos(n) == step(pos(c), p));
            }
            return (n, carved);
        }
        i += 1;
    }
    proof {
        assert forall|p: Pole| !#[trigger] g.can_step(c.0 as int, c.1 as int, p) by {
            assert(dirs@.contains(p));
            let j = choose|j: int| 0 <= j < dirs@.len() && dirs@[j] == p;
            assert(!g.can_step(c.0 as int, c.1 as int, dirs@[j]));
        }
    }
    (c, false)
}

impl Algorithm for AldousBroder {
    open spec fn name_text(&self) -> Seq<char> {
        "AldousBroder"@
    }

    open spec fn supports_start(&self) -> bool {
        true
    }

    fn name(&self) -> (r: &'static str) {
        "AldousBroder"
    }

    fn has_start_coords(&self) -> (r: bool) {
        true
    }

    /// Starts from the given cell, or from one picked at random, and moves to
    /// a random neighbour again and again; a neighbour entered for the first
    /// time is joined by a passage. The walk ends when every cell has been
    /// entered. Should it ever use up its budget of steps, the cells that are
    /// left are joined by the scan of the "Hunt & Kill" algorithm.
    fn generate(&mut self, grid: &mut Grid, rng: &mut StdRng, start: Option<Coords>) {
        let w = grid.width();
        let h = grid.height();
        proof {
            lemma_fresh(w as int, h as int);
        }
        let first = match start {
            Some(c) => c,
            None => get_start_coords(grid, rng),
        };
        let ghost root = pos(first);
        let mut x = first.0;
        let mut y = first.1;
        assert(w * h >= 1) by (nonlinear_arith)
            requires
                w >= 1,
                h >= 1,
        ;
        let mut remaining = grid.cell_count() - 1;
        let mut budget: u64 = WALK_BUDGET;
        proof {
            lemma_wander_start(grid@, root);
        }
        while remaining > 0 && budget > 0
            invariant
                grid@.width == w,
                grid@.height == h,
                wandering(grid@, root, (x as int, y as int), remaining as int),
            decreases budget,
        {
            budget = budget - 1;
            let ghost g = grid@;
            let dirs = shuffled_poles(rng);
            let (next, carved) = wander(grid, (x, y), &dirs);
            if carved {
                proof {
                    lemma_wander_step(
                        g,
                        root,
                        (x as int, y as int),
                        remaining as int,
                        towards((x as int, y as int), pos(next)),
                    );
                }
                remaining = remaining - 1;
            } else {
                proof {
                    if next != (x, y) {
                        lemma_wander_step(
                            g,
                            root,
                            (x as int, y as int),
                            remaining as int,
                            towards((x as int, y as int), pos(next)),
                        );
                    }
                }
            }
            x = next.0;
            y = next.1;
        }
        if remaining > 0 {
            let mut rest = HuntAndKill::new();
            rest.run_from(grid, rng, (x, y), Ghost(root));
        } else {
            proof {
                lemma_wander_end(grid@, root, (x as int, y as int));
            }
        }
    }
}

} // verus!
