//! The "Hunt & Kill" algorithm.

use crate::algorithms::growth::{
    carve_to_unvisited, exhausted, get_start_coords, growing, in_tree, lemma_grow,
    lemma_growing_start, lemma_tree_full, lemma_unvisited_bounds, pos, shuffled_poles,
};
use crate::algorithms::Algorithm;
use crate::cell::Cell;
use crate::grid::{lemma_fresh, Grid, GridView};
use crate::paths::{lemma_reaches_self, lemma_spread, step, towards, Pos};
use crate::pole::Pole;
use crate::types::Coords;
use rand::rngs::StdRng;
use vstd::prelude::*;

verus! {

/// Whether the cell `c` has a visited neighbour towards `p`.
pub open spec fn visited_towards(g: GridView, c: Pos, p: Pole) -> bool {
    g.can_step(c.0, c.1, p) && g.visited(step(c, p).0, step(c, p).1)
}

/// The first direction, in the order north, south, west, east, in which the
/// cell `c` has a visited neighbour.
pub open spec fn first_visited_dir(g: GridView, c: Pos) -> Option<Pole> {
    if visited_towards(g, c, Pole::N) {
        Some(Pole::N)
    } else if visited_towards(g, c, Pole::S) {
        Some(Pole::S)
    } else if visited_towards(g, c, Pole::W) {
        Some(Pole::W)
    } else if visited_towards(g, c, Pole::E) {
        Some(Pole::E)
    } else {
        None
    }
}

/// Whether the hunt may pick the cell: it is unvisited and has a visited
/// neighbour.
pub open spec fn huntable(g: GridView, c: Pos) -> bool {
    g.holds(c) && !g.visited(c.0, c.1) && first_visited_dir(g, c) is Some
}

/// Whether the cell `a` comes before `b` when the grid is read row by row.
pub open spec fn before(a: Pos, b: Pos) -> bool {
    a.1 < b.1 || (a.1 == b.1 && a.0 < b.0)
}

/// Whether every cell above the given row has been visited.
pub open spec fn rows_done(g: GridView, row: int) -> bool {
    forall|u: Pos| g.holds(u) && u.1 < row ==> #[trigger] g.visited(u.0, u.1)
}

/// Whether no cell from the row `from` on that comes before `c` can be
/// hunted.
pub open spec fn none_before(g: GridView, from: int, c: Pos) -> bool {
    forall|u: Pos| g.holds(u) && u.1 >= from && before(u, c) ==> !#[trigger] huntable(g, u)
}

/// A grid in which no unvisited cell has a visited neighbour is either
/// untouched or visited all over.
proof fn lemma_hunt_over(g: GridView, v: Pos)
    requires
        g.wf(),
        g.holds(v),
        g.visited(v.0, v.1),
        forall|u: Pos| g.holds(u) ==> !#[trigger] huntable(g, u),
    ensures
        forall|c: Pos| g.holds(c) ==> g.visited(c.0, c.1),
{
    let set = Set::<Pos>::new(|u: Pos| g.holds(u) && g.visited(u.0, u.1));
    assert(set.contains(v));
    assert forall|u: Pos, p: Pole|
        set.contains(u) && g.whole().has(u) && g.whole().has(#[trigger] step(u, p))
        implies set.contains(step(u, p)) by {
        let n = step(u, p);
        if !g.visited(n.0, n.1) {
            assert(step(n, p.spec_opposite()) == u);
            assert(visited_towards(g, n, p.spec_opposite()));
            assert(huntable(g, n));
        }
    }
    assert forall|c: Pos| g.holds(c) implies g.visited(c.0, c.1) by {
        lemma_spread(g.whole(), set, v, c);
    }
}

/// A cell without any neighbour is the only cell of its grid.
proof fn lemma_lonely_cell(g: GridView, c: Pos)
    requires
        g.wf(),
        g.holds(c),
        forall|p: Pole| !#[trigger] g.can_step(c.0, c.1, p),
    ensures
        g.width == 1,
        g.height == 1,
{
    assert(!g.can_step(c.0, c.1, Pole::N));
    assert(!g.can_step(c.0, c.1, Pole::S));
    assert(!g.can_step(c.0, c.1, Pole::W));
    assert(!g.can_step(c.0, c.1, Pole::E));
}

/// When the walk is stuck and the hunt finds nothing, the maze is complete.
proof fn lemma_hunt_complete(g: GridView, root: Pos, cur: Pos)
    requires
        growing(g, root),
        g.holds(cur),
        exhausted(g, cur),
        forall|u: Pos| g.holds(u) ==> !#[trigger] huntable(g, u),
    ensures
        g.spanning_tree(),
{
    if exists|v: Pos| g.holds(v) && g.visited(v.0, v.1) {
        let v = choose|v: Pos| g.holds(v) && g.visited(v.0, v.1);
        lemma_hunt_over(g, v);
        lemma_tree_full(g, root);
    } else {
        assert forall|p: Pole| !#[trigger] g.can_step(cur.0, cur.1, p) by {
            if g.can_step(cur.0, cur.1, p) {
                assert(g.holds(step(cur, p)));
                assert(g.visited(step(cur, p).0, step(cur, p).1));
            }
        }
        lemma_lonely_cell(g, cur);
        lemma_tree_full(g, root);
    }
}

/// Returns the first direction, in the order north, south, west, east, in
/// which the cell has a visited neighbour.
pub fn visited_neighbour(grid: &Grid, c: Coords) -> (r: Option<Pole>)
    requires
        grid@.wf(),
        grid@.in_bounds(c.0 as int, c.1 as int),
    ensures
        r == first_visited_dir(grid@, pos(c)),
{
    if looks_at_visited(grid, c, Pole::N) {
        Some(Pole::N)
    } else if looks_at_visited(grid, c, Pole::S) {
        Some(Pole::S)
    } else if looks_at_visited(grid, c, Pole::W) {
        Some(Pole::W)
    } else if looks_at_visited(grid, c, Pole::E) {
        Some(Pole::E)
    } else {
        None
    }
}

/// Returns whether the cell has a visited neighbour in the given direction.
pub fn looks_at_visited(grid: &Grid, c: Coords, p: Pole) -> (r: bool)
    requires
        grid@.wf(),
        grid@.in_bounds(c.0 as int, c.1 as int),
    ensures
        r == visited_towards(grid@, pos(c), p),
{
    let dir = Cell::from_pole(p);
    assert(dir@.pole() == Some(p));
    match grid.get_next_cell_coords(c, dir) {
        Ok(n) => grid.is_cell_visited(n),
        Err(_) => false,
    }
}

/// The "Hunt & Kill" algorithm: a random walk that carves until it is stuck,
/// and then scans the grid for an unvisited cell next to a visited one to go
/// on from. The scan skips the rows that are known to be finished.
pub struct HuntAndKill {
    hunt_start_index: usize,
}

impl HuntAndKill {
    /// Creates the algorithm; its scan starts at the top row.
    pub fn new() -> (r: HuntAndKill)
        ensures
            r.scan_from() == 0,
    {
        HuntAndKill { hunt_start_index: 0 }
    }

    /// The row at which the next scan starts.
    pub closed spec fn scan_from(&self) -> int {
        self.hunt_start_index as int
    }

    /// One step of the walk: carves from the cell into a random unvisited
    /// neighbour and returns it. Without such a neighbour nothing changes and
    /// the walk is stuck.
    pub fn walk(&self, coords: Coords, grid: &mut Grid, rng: &mut StdRng) -> (r: Option<Coords>)
        requires
            old(grid)@.wf(),
            old(grid)@.in_bounds(coords.0 as int, coords.1 as int),
        ensures
            match r {
                Some(n) => {
                    &&& old(grid)@.can_step(
                        coords.0 as int,
                        coords.1 as int,
                        towards(pos(coords), pos(n)),
                    )
                    &&& pos(n) == step(pos(coords), towards(pos(coords), pos(n)))
                    &&& !old(grid)@.visited(n.0 as int, n.1 as int)
                    &&& final(grid)@ == old(grid)@.carve(
                        coords.0 as int,
                        coords.1 as int,
                        towards(pos(coords), pos(n)),
                    )
                },
                None => final(grid)@ == old(grid)@ && exhausted(old(grid)@, pos(coords)),
            },
    {
        let dirs = shuffled_poles(rng);
        carve_to_unvisited(grid, coords, &dirs)
    }

    /// The hunt: scans the rows, from the first that may be unfinished, for the
    /// first unvisited cell that has a visited neighbour, carves from that cell
    /// to the neighbour and returns the cell. Rows found finished are skipped by
    /// later scans. When the scan finds nothing, nothing changes.
    pub fn hunt(&mut self, grid: &mut Grid) -> (r: Option<Coords>)
        requires
            old(grid)@.wf(),
            old(self).scan_from() <= old(grid)@.height,
            rows_done(old(grid)@, old(self).scan_from()),
        ensures
            old(self).scan_from() <= final(self).scan_from() <= old(grid)@.height,
            rows_done(old(grid)@, final(self).scan_from()),
            match r {
                Some(c) => {
                    &&& huntable(old(grid)@, pos(c))
                    &&& none_before(old(grid)@, old(self).scan_from(), pos(c))
                    &&& final(grid)@ == old(grid)@.carve(
                        c.0 as int,
                        c.1 as int,
                        first_visited_dir(old(grid)@, pos(c))->0,
                    )
                },
                None => {
                    &&& final(grid)@ == old(grid)@
                    &&& forall|u: Pos| old(grid)@.holds(u) ==> !#[trigger] huntable(old(grid)@, u)
                },
            },
    {
        let ghost g = grid@;
        let ghost from = self.hunt_start_index as int;
        let w = grid.width();
        let h = grid.height();
        let ghost witness: int = 0;
        let mut y: usize = self.hunt_start_index;
        while y < h
            invariant
                g == old(grid)@,
                grid@ == g,
                g.wf(),
                g.width == w,
                g.height == h,
                from == old(self).scan_from(),
                from <= self.hunt_start_index <= y <= h,
                rows_done(g, self.hunt_start_index as int),
                none_before(g, from, (0, y as int)),
                self.hunt_start_index == y || (y >= 1 && 0 <= witness < w && !g.visited(
                    witness,
                    y - 1,
                ) && from <= y - 1),
            decreases h - y,
        {
            let mut unvisited_cells_count: usize = 0;
            let ghost row_witness: int = 0;
            let mut x: usize = 0;
            while x < w
                invariant
                    g == old(grid)@,
                    grid@ == g,
                    g.wf(),
                    g.width == w,
                    g.height == h,
                    from <= y < h,
                    from == old(self).scan_from(),
                    from <= self.hunt_start_index <= y,
                    rows_done(g, self.hunt_start_index as int),
                    self.hunt_start_index == y || (y >= 1 && 0 <= witness < w && !g.visited(
                        witness,
                        y - 1,
                    ) && from <= y - 1),
                    x <= w,
                    unvisited_cells_count <= x,
                    none_before(g, from, (x as int, y as int)),
                    unvisited_cells_count == 0 ==> forall|a: int|
                        0 <= a < x ==> #[trigger] g.visited(a, y as int),
                    unvisited_cells_count > 0 ==> 0 <= row_witness < x && !g.visited(
                        row_witness,
                        y as int,
                    ),
                decreases w - x,
            {
                if !grid.is_cell_visited((x, y)) {
                    unvisited_cells_count += 1;
                    proof {
                        row_witness = x as int;
                    }
                    match visited_neighbour(grid, (x, y)) {
                        Some(p) => {
                            let _ = grid.carve_passage((x, y), Cell::from_pole(p));
                            return Some((x, y));
                        },
                        None => {},
                    }
                }
                proof {
                    assert forall|u: Pos|
                        g.holds(u) && u.1 >= from && before(u, (x + 1, y as int))
                        implies !#[trigger] huntable(g, u) by {
                        if u != (x as int, y as int) {
                            assert(before(u, (x as int, y as int)));
                        }
                    }
                }
                x += 1;
            }
            if unvisited_cells_count == 0 {
                proof {
                    if self.hunt_start_index != y {
                        let u = (witness, y - 1);
                        assert(g.holds(u) && before(u, (0, y as int)));
                        assert(step(u, Pole::S) == (witness, y as int));
                        assert(g.visited(witness, y as int));
                        assert(visited_towards(g, u, Pole::S));
                        assert(huntable(g, u));
                        assert(false);
                    }
                    assert forall|u: Pos| g.holds(u) && u.1 < y + 1 implies #[trigger] g.visited(
                        u.0,
                        u.1,
                    ) by {
                        if u.1 == y {
                            assert(g.visited(u.0, y as int));
                        }
                    }
                }
                self.hunt_start_index = y + 1;
            } else {
                proof {
                    witness = row_witness;
                }
            }
            proof {
                assert forall|u: Pos|
                    g.holds(u) && u.1 >= from && before(u, (0, y + 1)) implies !#[trigger] huntable(
                    g,
                    u,
                ) by {
                    assert(before(u, (w as int, y as int)));
                }
            }
            y += 1;
        }
        proof {
            assert forall|u: Pos| g.holds(u) implies !#[trigger] huntable(g, u) by {
                if u.1 >= from {
                    assert(before(u, (0, h as int)));
                }
            }
        }
        None
    }

    /// Walks and hunts from the cell `cur` until the hunt finds nothing.
    pub(crate) fn run_from(&mut self, grid: &mut Grid, rng: &mut StdRng, cur: Coords, Ghost(root): Ghost<
        Pos,
    >)
        requires
            growing(old(grid)@, root),
            in_tree(old(grid)@, root, pos(cur)),
            old(grid)@.reaches(root, pos(cur)),
            old(self).scan_from() <= old(grid)@.height,
            rows_done(old(grid)@, old(self).scan_from()),
        ensures
            final(grid)@.wf(),
            final(grid)@.width == old(grid)@.width,
            final(grid)@.height == old(grid)@.height,
            final(grid)@.spanning_tree(),
    {
        let mut x = cur.0;
        let mut y = cur.1;
        proof {
            lemma_unvisited_bounds(grid@);
        }
        loop
            invariant
                growing(grid@, root),
                grid@.width == old(grid)@.width,
                grid@.height == old(grid)@.height,
                in_tree(grid@, root, (x as int, y as int)),
                grid@.reaches(root, (x as int, y as int)),
                self.scan_from() <= grid@.height,
                rows_done(grid@, self.scan_from()),
                grid@.unvisited_count() >= 0,
            ensures
                grid@.wf(),
                grid@.width == old(grid)@.width,
                grid@.height == old(grid)@.height,
                grid@.spanning_tree(),
            decreases grid@.unvisited_count(),
        {
            let ghost g = grid@;
            match self.walk((x, y), grid, rng) {
                Some(n) => {
                    proof {
                        lemma_grow(
                            g,
                            root,
                            (x as int, y as int),
                            towards((x as int, y as int), pos(n)),
                        );
                    }
                    x = n.0;
                    y = n.1;
                },
                None => {
                    match self.hunt(grid) {
                        Some(c) => {
                            proof {
                                let p = first_visited_dir(g, pos(c))->0;
                                assert(visited_towards(g, pos(c), p));
                                lemma_grow(g, root, pos(c), p);
                            }
                            x = c.0;
                            y = c.1;
                        },
                        None => {
                            proof {
                                lemma_hunt_complete(g, root, (x as int, y as int));
                            }
                            break ;
                        },
                    }
                },
            }
        }
    }
}

impl Default for HuntAndKill {
    fn default() -> (r: HuntAndKill)
        ensures
            r.scan_from() == 0,
    {
        HuntAndKill::new()
    }
}

impl Algorithm for HuntAndKill {
    open spec fn name_text(&self) -> Seq<char> {
        "HuntAndKill"@
    }

    open spec fn supports_start(&self) -> bool {
        false
    }

    fn name(&self) -> (r: &'static str) {
        "HuntAndKill"
    }

    fn has_start_coords(&self) -> (r: bool) {
        false
    }

    /// Starts from a cell picked at random and alternates the two phases:
    /// the walk, until it is stuck, and the hunt, until it finds nothing.
    fn generate(&mut self, grid: &mut Grid, rng: &mut StdRng, start: Option<Coords>) {
        let w = grid.width();
        let h = grid.height();
        proof {
            lemma_fresh(w as int, h as int);
        }
        self.hunt_start_index = 0;
        let first = get_start_coords(grid, rng);
        proof {
            lemma_growing_start(grid@, pos(first));
            lemma_reaches_self(grid@, grid@.whole(), pos(first));
        }
        self.run_from(grid, rng, first, Ghost(pos(first)));
    }
}

} // verus!
