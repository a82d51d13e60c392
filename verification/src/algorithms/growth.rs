//! What the generators that grow one tree have in common: the visited cells
//! stay within reach of the cell the tree started from, and the tree is
//! finished once no visited cell has an unvisited neighbour left.

use crate::cell::Cell;
use crate::grid::{
    lemma_carve, lemma_count_bounds, lemma_count_full, lemma_index_bounds, Grid, GridView,
};
use crate::paths::{
    lemma_carve_grows, lemma_carve_keeps, lemma_connected_from, lemma_reaches_self, lemma_spread,
    step, towards, Pos,
};
use crate::random::random_range;
use crate::pole::Pole;
use crate::random::{lemma_shuffled, shuffle};
use crate::types::Coords;
use rand::rngs::StdRng;
use vstd::prelude::*;

verus! {

/// Whether every neighbour of the cell `u` has been visited.
pub open spec fn exhausted(g: GridView, u: Pos) -> bool {
    forall|p: Pole| #[trigger] g.can_step(u.0, u.1, p) ==> g.visited(step(u, p).0, step(u, p).1)
}

/// Whether the cell belongs to the tree grown from `root`: it is the root or
/// has been visited.
pub open spec fn in_tree(g: GridView, root: Pos, u: Pos) -> bool {
    g.holds(u) && (u == root || g.visited(u.0, u.1))
}

/// Whether the neighbour of `u` towards `p` is missing or has been visited.
pub open spec fn tried(g: GridView, u: Pos, p: Pole) -> bool {
    g.can_step(u.0, u.1, p) ==> g.visited(step(u, p).0, step(u, p).1)
}

/// Whether the position is one of the listed cells.
pub open spec fn listed(cells: Seq<Coords>, u: Pos) -> bool {
    exists|k: int| 0 <= k < cells.len() && (#[trigger] cells[k]).0 == u.0 && cells[k].1 == u.1
}

/// The position of a cell given by machine integers.
pub open spec fn pos(c: Coords) -> Pos {
    (c.0 as int, c.1 as int)
}

/// What a tree under growth keeps true: the grid is valid, the root is a
/// cell, and every visited cell is within reach of the root; the root is the
/// first cell to be visited, a cell that has not been visited has no passage,
/// and there is one passage less than there are visited cells.
pub open spec fn growing(g: GridView, root: Pos) -> bool {
    &&& g.wf()
    &&& g.holds(root)
    &&& g.visited_reach(root)
    &&& g.unvisited_count() < g.width * g.height ==> g.visited(root.0, root.1)
    &&& forall|c: Pos, p: Pole| g.holds(c) && #[trigger] g.open(c.0, c.1, p) ==> g.visited(c.0, c.1)
    &&& g.passage_count() == if g.unvisited_count() == g.width * g.height {
        0
    } else {
        g.width * g.height - g.unvisited_count() - 1
    }
}

/// A fresh grid is the start of a tree from any of its cells.
pub proof fn lemma_growing_start(g: GridView, root: Pos)
    requires
        crate::algorithms::is_fresh(g),
        g.holds(root),
    ensures
        growing(g, root),
        forall|c: Pos| g.holds(c) ==> !g.visited(c.0, c.1),
        g.unvisited_count() == g.width * g.height,
{
    crate::grid::lemma_fresh(g.width, g.height);
    assert(g.visited_reach(root)) by {
        assert forall|c: Pos| g.holds(c) && g.visited(c.0, c.1) implies #[trigger] g.reaches(
            root,
            c,
        ) by {}
    }
}

/// A visited cell makes the number of unvisited cells smaller than the
/// number of cells; without a visited cell the two are equal.
pub proof fn lemma_some_visited(g: GridView)
    requires
        g.wf(),
    ensures
        g.unvisited_count() == g.width * g.height <==> forall|c: Pos|
            g.holds(c) ==> !g.visited(c.0, c.1),
        0 <= g.unvisited_count() <= g.width * g.height,
{
    let flags = g.visited_flags();
    crate::grid::lemma_count_zero(flags);
    lemma_count_bounds(flags);
    if forall|c: Pos| g.holds(c) ==> !g.visited(c.0, c.1) {
        assert forall|i: int| 0 <= i < flags.len() implies !#[trigger] flags[i] by {
            crate::grid::lemma_cell_of_index(g.width, g.height, i);
            let c = (i % g.width, i / g.width);
            assert(g.holds(c));
            assert(!g.visited(c.0, c.1));
        }
    }
    if g.unvisited_count() == g.width * g.height {
        assert forall|c: Pos| g.holds(c) implies !g.visited(c.0, c.1) by {
            lemma_index_bounds(g.width, g.height, c.0, c.1);
            assert(!flags[g.index(c.0, c.1)]);
        }
    }
}

/// When every cell has been visited, no cell is counted as unvisited.
pub proof fn lemma_all_visited(g: GridView)
    requires
        g.wf(),
        forall|c: Pos| g.holds(c) ==> g.visited(c.0, c.1),
    ensures
        g.unvisited_count() == 0,
{
    let flags = g.visited_flags();
    assert forall|i: int| 0 <= i < flags.len() implies flags[i] == true by {
        crate::grid::lemma_cell_of_index(g.width, g.height, i);
        let c = (i % g.width, i / g.width);
        assert(g.holds(c));
        assert(g.visited(c.0, c.1));
    }
    crate::grid::lemma_count_uniform(flags, true);
}

/// A list with one more cell lists that cell and what it listed before.

pub proof fn lemma_listed_push(cells: Seq<Coords>, c: Coords, u: Pos)
    ensures
        listed(cells.push(c), u) <==> listed(cells, u) || pos(c) == u,
{
    let t = cells.push(c);
    if listed(cells, u) {
        let k = choose|k: int| 0 <= k < cells.len() && (#[trigger] cells[k]).0 == u.0 && cells[k].1
            == u.1;
        assert(t[k] == cells[k]);
    }
    if pos(c) == u {
        assert(t[cells.len() as int] == c);
    }
    if listed(t, u) {
        let k = choose|k: int| 0 <= k < t.len() && (#[trigger] t[k]).0 == u.0 && t[k].1 == u.1;
        if k < cells.len() {
            assert(cells[k] == t[k]);
        }
    }
}

/// A list without one of its entries still lists every other cell.

pub proof fn lemma_listed_remove(cells: Seq<Coords>, i: int, u: Pos)
    requires
        0 <= i < cells.len(),
        listed(cells, u),
    ensures
        listed(cells.remove(i), u) || pos(cells[i]) == u,
{
    let k = choose|k: int| 0 <= k < cells.len() && (#[trigger] cells[k]).0 == u.0 && cells[k].1
        == u.1;
    let t = cells.remove(i);
    if k < i {
        assert(t[k] == cells[k]);
    } else if k > i {
        assert(t[k - 1] == cells[k]);
    }
}

/// All four directions, in the order in which the generators list them.
pub open spec fn compass() -> Seq<Pole> {
    seq![Pole::N, Pole::S, Pole::W, Pole::E]
}

/// Whether the sequence lists each of the four directions.
pub open spec fn covers_compass(dirs: Seq<Pole>) -> bool {
    dirs.len() == 4 && forall|p: Pole| dirs.contains(p)
}

/// Returns the four directions in a random order.
pub fn shuffled_poles(rng: &mut StdRng) -> (r: Vec<Pole>)
    ensures
        covers_compass(r@),
{
    let mut dirs: Vec<Pole> = Vec::new();
    dirs.push(Pole::N);
    dirs.push(Pole::S);
    dirs.push(Pole::W);
    dirs.push(Pole::E);
    let ghost before = dirs@;
    proof {
        assert(before =~= compass());
        assert forall|p: Pole| before.contains(p) by {
            match p {
                Pole::N => assert(before[0] == p),
                Pole::S => assert(before[1] == p),
                Pole::W => assert(before[2] == p),
                Pole::E => assert(before[3] == p),
            }
        }
    }
    shuffle(rng, &mut dirs);
    proof {
        lemma_shuffled(before, dirs@);
    }
    dirs
}

/// A cell for which every listed direction has been tried is exhausted.
pub proof fn lemma_tried_all(g: GridView, u: Pos, dirs: Seq<Pole>)
    requires
        covers_compass(dirs),
        forall|j: int| 0 <= j < dirs.len() ==> tried(g, u, #[trigger] dirs[j]),
    ensures
        exhausted(g, u),
{
    assert forall|p: Pole| #[trigger] g.can_step(u.0, u.1, p) implies g.visited(
        step(u, p).0,
        step(u, p).1,
    ) by {
        assert(dirs.contains(p));
        let j = choose|j: int| 0 <= j < dirs.len() && dirs[j] == p;
        assert(tried(g, u, dirs[j]));
    }
}

/// The number of unvisited cells is never negative.
pub proof fn lemma_unvisited_bounds(g: GridView)
    requires
        g.wf(),
    ensures
        0 <= g.unvisited_count() <= g.width * g.height,
{
    lemma_count_bounds(g.visited_flags());
}

/// When no cell is left unvisited, every cell has been visited.
pub proof fn lemma_none_unvisited(g: GridView)
    requires
        g.wf(),
        g.unvisited_count() == 0,
    ensures
        forall|c: Pos| g.holds(c) ==> g.visited(c.0, c.1),
{
    lemma_count_full(g.visited_flags());
    assert forall|c: Pos| g.holds(c) implies g.visited(c.0, c.1) by {
        lemma_index_bounds(g.width, g.height, c.0, c.1);
        assert(g.visited_flags()[g.index(c.0, c.1)]);
    }
}

/// A tree whose cells are all exhausted holds every cell of the grid, and the
/// grid is connected.
pub proof fn lemma_tree_complete(g: GridView, root: Pos)
    requires
        growing(g, root),
        forall|u: Pos| #[trigger] in_tree(g, root, u) ==> exhausted(g, u),
    ensures
        forall|c: Pos| g.holds(c) ==> in_tree(g, root, c),
        g.spanning_tree(),
{
    let set = Set::<Pos>::new(|u: Pos| in_tree(g, root, u));
    assert(set.contains(root));
    assert forall|u: Pos, p: Pole|
        set.contains(u) && g.whole().has(u) && g.whole().has(#[trigger] step(u, p))
        implies set.contains(step(u, p)) by {
        assert(in_tree(g, root, u));
        assert(g.can_step(u.0, u.1, p));
    }
    assert forall|c: Pos| g.holds(c) implies in_tree(g, root, c) by {
        lemma_spread(g.whole(), set, root, c);
    }
    lemma_tree_full(g, root);
}

/// A tree that holds every cell is a spanning tree of the grid.
pub proof fn lemma_tree_full(g: GridView, root: Pos)
    requires
        growing(g, root),
        forall|c: Pos| g.holds(c) ==> in_tree(g, root, c),
    ensures
        g.spanning_tree(),
{
    lemma_reaches_self(g, g.whole(), root);
    assert forall|c: Pos| g.holds(c) implies #[trigger] g.reaches(root, c) by {
        assert(in_tree(g, root, c));
    }
    lemma_connected_from(g, root);
    lemma_some_visited(g);
    let other = if root == (0int, 0int) {
        (g.width - 1, g.height - 1)
    } else {
        (0int, 0int)
    };
    if other == root {
        assert(g.width == 1 && g.height == 1);
        assert(g.width * g.height == 1) by (nonlinear_arith)
            requires
                g.width == 1,
                g.height == 1,
        ;
    } else {
        assert(g.holds(other));
        assert(in_tree(g, root, other));
        assert(g.visited(other.0, other.1));
        assert(g.visited(root.0, root.1));
        assert forall|c: Pos| g.holds(c) implies g.visited(c.0, c.1) by {
            assert(in_tree(g, root, c));
        }
        lemma_all_visited(g);
    }
}

/// The effect of a carve that joins an unvisited cell to the tree: from a
/// cell of the tree into an unvisited neighbour, or from an unvisited cell to
/// a visited neighbour.
pub proof fn lemma_grow(g: GridView, root: Pos, u: Pos, p: Pole)
    requires
        growing(g, root),
        g.can_step(u.0, u.1, p),
        (in_tree(g, root, u) && !g.visited(step(u, p).0, step(u, p).1)) || (!g.visited(u.0, u.1)
            && g.visited(step(u, p).0, step(u, p).1)),
    ensures
        growing(g.carve(u.0, u.1, p), root),
        g.carve(u.0, u.1, p).width == g.width,
        g.carve(u.0, u.1, p).height == g.height,
        g.carve(u.0, u.1, p).reaches(root, u),
        g.carve(u.0, u.1, p).reaches(root, step(u, p)),
        g.carve(u.0, u.1, p).visited(u.0, u.1),
        g.carve(u.0, u.1, p).visited(step(u, p).0, step(u, p).1),
        forall|c: Pos|
            g.holds(c) ==> (#[trigger] g.carve(u.0, u.1, p).visited(c.0, c.1) <==> g.visited(
                c.0,
                c.1,
            ) || c == u || c == step(u, p)),
        forall|a: Pos, b: Pos| #[trigger] g.reaches(a, b) ==> g.carve(u.0, u.1, p).reaches(a, b),
        forall|c: Pos| #[trigger] exhausted(g, c) && g.holds(c) ==> exhausted(
            g.carve(u.0, u.1, p),
            c,
        ),
        forall|c: Pos, q: Pole| #[trigger]
            tried(g, c, q) && g.holds(c) ==> tried(g.carve(u.0, u.1, p), c, q),
        0 <= g.carve(u.0, u.1, p).unvisited_count() < g.unvisited_count(),
{
    let h = g.carve(u.0, u.1, p);
    let n = step(u, p);
    lemma_carve(g, u.0, u.1, p);
    crate::grid::lemma_carve_count(g, u.0, u.1, p);
    lemma_some_visited(g);
    lemma_some_visited(h);
    assert(g.holds(n));
    assert(g.reaches(root, u) || g.reaches(root, n)) by {
        if in_tree(g, root, u) {
            if u == root {
                lemma_reaches_self(g, g.whole(), root);
            }
        }
    }
    lemma_carve_grows(g, root, u.0, u.1, p);
    assert(!g.open(u.0, u.1, p)) by {
        if g.open(u.0, u.1, p) {
            assert(g.mirrored(u.0, u.1, p));
            assert(g.open(n.0, n.1, p.spec_opposite()));
        }
    }
    assert forall|a: Pos, b: Pos| #[trigger] g.reaches(a, b) implies h.reaches(a, b) by {
        lemma_carve_keeps(g, u.0, u.1, p, a, b);
    }
    assert forall|c: Pos| #[trigger] exhausted(g, c) && g.holds(c) implies exhausted(h, c) by {
        assert forall|q: Pole| #[trigger] h.can_step(c.0, c.1, q) implies h.visited(
            step(c, q).0,
            step(c, q).1,
        ) by {
            assert(g.can_step(c.0, c.1, q));
        }
    }
    assert forall|c: Pos, q: Pole| h.holds(c) && #[trigger] h.open(c.0, c.1, q) implies h.visited(
        c.0,
        c.1,
    ) by {
        if g.open(c.0, c.1, q) {
            assert(g.visited(c.0, c.1));
        }
    }
    if !g.visited(u.0, u.1) && !g.visited(n.0, n.1) {
        assert(u == root);
    } else {
        assert(g.visited(u.0, u.1) || g.visited(n.0, n.1));
    }
}

/// The direction of a step is the one that leads towards its end.
pub proof fn lemma_towards_step(u: Pos, p: Pole)
    ensures
        towards(u, step(u, p)) == p,
{
}

/// Picks a cell of the grid at random: first the column, then the row.
pub fn random_cell(grid: &Grid, rng: &mut StdRng) -> (r: Coords)
    requires
        grid@.wf(),
    ensures
        grid@.in_bounds(r.0 as int, r.1 as int),
{
    let x = random_range(rng, 0, grid.width());
    let y = random_range(rng, 0, grid.height());
    (x, y)
}

/// Picks the cell to start from at random: first the row, then the column.
pub fn get_start_coords(grid: &Grid, rng: &mut StdRng) -> (r: Coords)
    requires
        grid@.wf(),
    ensures
        grid@.in_bounds(r.0 as int, r.1 as int),
{
    let y = random_range(rng, 0, grid.height());
    let x = random_range(rng, 0, grid.width());
    (x, y)
}

/// Carves from the cell `c` into the first of its neighbours, in the given
/// order of directions, that has not been visited, and returns that neighbour.
/// Without such a neighbour nothing changes.
pub fn carve_to_unvisited(grid: &mut Grid, c: Coords, dirs: &Vec<Pole>) -> (r: Option<Coords>)
    requires
        old(grid)@.wf(),
        old(grid)@.in_bounds(c.0 as int, c.1 as int),
        covers_compass(dirs@),
    ensures
        match r {
            Some(n) => {
                &&& old(grid)@.can_step(c.0 as int, c.1 as int, towards(pos(c), pos(n)))
                &&& pos(n) == step(pos(c), towards(pos(c), pos(n)))
                &&& !old(grid)@.visited(n.0 as int, n.1 as int)
                &&& final(grid)@ == old(grid)@.carve(
                    c.0 as int,
                    c.1 as int,
                    towards(pos(c), pos(n)),
                )
            },
            None => final(grid)@ == old(grid)@ && exhausted(old(grid)@, pos(c)),
        },
{
    let ghost g = grid@;
    let mut i: usize = 0;
    while i < 4
        invariant
            i <= 4,
            grid@ == g,
            g == old(grid)@,
            g.wf(),
            g.in_bounds(c.0 as int, c.1 as int),
            covers_compass(dirs@),
            forall|j: int| 0 <= j < i ==> tried(g, pos(c), #[trigger] dirs@[j]),
        decreases 4 - i,
    {
        let p = dirs[i];
        let dir = Cell::from_pole(p);
        assert(dir@.pole() == Some(p));
        if let Ok(n) = grid.get_next_cell_coords(c, dir) {
            if !grid.is_cell_visited(n) {
                let _ = grid.carve_passage(c, dir);
                proof {
                    lemma_towards_step(pos(c), p);
                    assert(g.can_step(c.0 as int, c.1 as int, p));
                    assert(pos(n) == step(pos(c), p));
                    assert(grid@ == g.carve(c.0 as int, c.1 as int, p));
                }
                return Some(n);
            }
        }
        i += 1;
    }
    proof {
        lemma_tried_all(g, pos(c), dirs@);
    }
    None
}

} // verus!
