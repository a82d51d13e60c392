//! Prim's algorithm.

use crate::algorithms::growth::{
    exhausted, get_start_coords, growing, in_tree, lemma_grow, lemma_growing_start,
    lemma_tree_complete, lemma_unvisited_bounds, pos,
};
use crate::algorithms::{is_fresh, Algorithm};
use crate::cell::Cell;
use crate::grid::{lemma_carve, lemma_fresh, Grid, GridView};
use crate::paths::{lemma_carve_keeps, lemma_reaches_self, step, Pos};
use crate::pole::Pole;
use crate::random::random_range;
use crate::types::Coords;
use rand::rngs::StdRng;
use vstd::prelude::*;

verus! {

/// A candidate passage: a cell and the direction in which it would carve.
pub type Edge = (Coords, Pole);

/// Prim's algorithm in its randomized form: the maze grows from one cell, and
/// each step carves a passage picked at random among those that lead from the
/// maze to a cell outside of it.
pub struct Prim;

/// Whether the passage from `u` towards `p` is one of the candidates.
pub open spec fn edge_listed(frontier: Seq<Edge>, u: Pos, p: Pole) -> bool {
    exists|k: int| 0 <= k < frontier.len() && pos((#[trigger] frontier[k]).0) == u && frontier[k].1
        == p
}

/// Whether the candidate starts from the cell `c` and leads to an unvisited
/// cell of the grid.
pub open spec fn added_edge(g: GridView, c: Coords, e: Edge) -> bool {
    e.0 == c && g.can_step(c.0 as int, c.1 as int, e.1) && !g.visited(
        step(pos(c), e.1).0,
        step(pos(c), e.1).1,
    )
}

/// Whether a candidate is sound: it starts from a cell within reach of the
/// root and leads to a cell of the grid.
pub open spec fn edge_ok(g: GridView, root: Pos, e: Edge) -> bool {
    g.can_step(pos(e.0).0, pos(e.0).1, e.1) && g.reaches(root, pos(e.0)) && in_tree(
        g,
        root,
        pos(e.0),
    )
}

/// The state of the growth: every candidate is sound, and every passage from
/// the maze to an unvisited cell is a candidate.
pub open spec fn sprouting(g: GridView, root: Pos, frontier: Seq<Edge>) -> bool {
    &&& growing(g, root)
    &&& forall|k: int| 0 <= k < frontier.len() ==> edge_ok(g, root, #[trigger] frontier[k])
    &&& forall|u: Pos, p: Pole|
        in_tree(g, root, u) && #[trigger] g.can_step(u.0, u.1, p) ==> g.visited(
            step(u, p).0,
            step(u, p).1,
        ) || edge_listed(frontier, u, p)
}

/// A list with one more candidate lists that candidate and what it listed

/// before.

proof fn lemma_edge_listed_push(frontier: Seq<Edge>, e: Edge, u: Pos, p: Pole)
    ensures
        edge_listed(frontier.push(e), u, p) <==> edge_listed(frontier, u, p) || (pos(e.0) == u
            && e.1 == p),
{
    let t = frontier.push(e);
    if edge_listed(frontier, u, p) {
        let k = choose|k: int|
            0 <= k < frontier.len() && pos((#[trigger] frontier[k]).0) == u && frontier[k].1 == p;
        assert(t[k] == frontier[k]);
    }
    if pos(e.0) == u && e.1 == p {
        assert(t[frontier.len() as int] == e);
    }
    if edge_listed(t, u, p) {
        let k = choose|k: int| 0 <= k < t.len() && pos((#[trigger] t[k]).0) == u && t[k].1 == p;
        if k < frontier.len() {
            assert(frontier[k] == t[k]);
        }
    }
}

/// A list from which one candidate was taken, the last entry filling its

/// place, still lists every other candidate.

proof fn lemma_edge_listed_swap_remove(frontier: Seq<Edge>, i: int, u: Pos, p: Pole)
    requires
        0 <= i < frontier.len(),
        edge_listed(frontier, u, p),
    ensures
        edge_listed(frontier.update(i, frontier.last()).drop_last(), u, p) || (pos(frontier[i].0)
            == u && frontier[i].1 == p),
{
    let t = frontier.update(i, frontier.last()).drop_last();
    let k = choose|k: int|
        0 <= k < frontier.len() && pos((#[trigger] frontier[k]).0) == u && frontier[k].1 == p;
    if k == i {
    } else if k == frontier.len() - 1 {
        assert(t[i] == frontier[k]);
    } else {
        assert(t[k] == frontier[k]);
    }
}

/// A candidate that leads to a visited cell may leave the list.

proof fn lemma_sprouting_take(g: GridView, root: Pos, frontier: Seq<Edge>, i: int)
    requires
        sprouting(g, root, frontier),
        0 <= i < frontier.len(),
        g.visited(step(pos(frontier[i].0), frontier[i].1).0, step(pos(frontier[i].0), frontier[i].1).1),
    ensures
        sprouting(g, root, frontier.update(i, frontier.last()).drop_last()),
{
    let t = frontier.update(i, frontier.last()).drop_last();
    assert forall|k: int| 0 <= k < t.len() implies edge_ok(g, root, #[trigger] t[k]) by {
        if k == i {
            assert(t[k] == frontier[frontier.len() - 1]);
        } else {
            assert(t[k] == frontier[k]);
        }
    }
    assert forall|u: Pos, p: Pole|
        in_tree(g, root, u) && #[trigger] g.can_step(u.0, u.1, p) implies g.visited(
        step(u, p).0,
        step(u, p).1,
    ) || edge_listed(t, u, p) by {
        if !g.visited(step(u, p).0, step(u, p).1) {
            lemma_edge_listed_swap_remove(frontier, i, u, p);
        }
    }
}

/// The state after a candidate has been taken from the list and carved, and
/// before the passages of the new cell have been added.
pub open spec fn sprouted(g: GridView, root: Pos, frontier: Seq<Edge>, n: Pos) -> bool {
    &&& growing(g, root)
    &&& in_tree(g, root, n)
    &&& g.reaches(root, n)
    &&& forall|k: int| 0 <= k < frontier.len() ==> edge_ok(g, root, #[trigger] frontier[k])
    &&& forall|u: Pos, p: Pole|
        in_tree(g, root, u) && #[trigger] g.can_step(u.0, u.1, p) ==> g.visited(
            step(u, p).0,
            step(u, p).1,
        ) || edge_listed(frontier, u, p) || u == n
}

/// After a candidate has been carved, the candidates that are left are still

/// sound.

proof fn lemma_carved_edges(g: GridView, root: Pos, frontier: Seq<Edge>, i: int)
    requires
        sprouting(g, root, frontier),
        0 <= i < frontier.len(),
    ensures
        forall|k: int|
            0 <= k < frontier.update(i, frontier.last()).drop_last().len() ==> edge_ok(
                g.carve(pos(frontier[i].0).0, pos(frontier[i].0).1, frontier[i].1),
                root,
                #[trigger] frontier.update(i, frontier.last()).drop_last()[k],
            ),
{
    let e = frontier[i];
    let u = pos(e.0);
    let p = e.1;
    let h = g.carve(u.0, u.1, p);
    let t = frontier.update(i, frontier.last()).drop_last();
    assert(edge_ok(g, root, frontier[i]));
    lemma_carve(g, u.0, u.1, p);
    assert forall|k: int| 0 <= k < t.len() implies edge_ok(h, root, #[trigger] t[k]) by {
        let f = if k == i {
            frontier[frontier.len() - 1]
        } else {
            frontier[k]
        };
        assert(t[k] == f);
        assert(edge_ok(g, root, f));
        lemma_carve_keeps(g, u.0, u.1, p, root, pos(f.0));
    }
}

/// After a candidate has been carved, a passage from an older cell of the

/// maze to an unvisited cell is still a candidate.

proof fn lemma_carved_cover(
    g: GridView,
    root: Pos,
    frontier: Seq<Edge>,
    i: int,
    c: Pos,
    q: Pole,
)
    requires
        g.wf(),
        0 <= i < frontier.len(),
        g.can_step(pos(frontier[i].0).0, pos(frontier[i].0).1, frontier[i].1),
        in_tree(g, root, pos(frontier[i].0)),
        in_tree(g.carve(pos(frontier[i].0).0, pos(frontier[i].0).1, frontier[i].1), root, c),
        g.can_step(c.0, c.1, q),
        c != step(pos(frontier[i].0), frontier[i].1),
        in_tree(g, root, c) ==> g.visited(step(c, q).0, step(c, q).1) || edge_listed(
            frontier,
            c,
            q,
        ),
    ensures
        g.carve(pos(frontier[i].0).0, pos(frontier[i].0).1, frontier[i].1).visited(
            step(c, q).0,
            step(c, q).1,
        ) || edge_listed(frontier.update(i, frontier.last()).drop_last(), c, q),
{
    let e = frontier[i];
    let u = pos(e.0);
    let p = e.1;
    let h = g.carve(u.0, u.1, p);
    lemma_carve(g, u.0, u.1, p);
    let m = step(c, q);
    assert(g.holds(m));
    assert(g.holds(c));
    if !h.visited(m.0, m.1) {
        assert(!g.visited(m.0, m.1));
        assert(h.visited(c.0, c.1) <==> g.visited(c.0, c.1) || c == u);
        assert(in_tree(g, root, c));
        assert(edge_listed(frontier, c, q));
        lemma_edge_listed_swap_remove(frontier, i, c, q);
        if pos(frontier[i].0) == c && frontier[i].1 == q {
            assert(m == step(u, p));
            assert(h.visited(m.0, m.1));
        }
    }
}

/// Carving a candidate that leads to an unvisited cell joins that cell to

/// the maze and leaves fewer cells unvisited.

proof fn lemma_sprouting_carve(g: GridView, root: Pos, frontier: Seq<Edge>, i: int)
    requires
        sprouting(g, root, frontier),
        0 <= i < frontier.len(),
        !g.visited(
            step(pos(frontier[i].0), frontier[i].1).0,
            step(pos(frontier[i].0), frontier[i].1).1,
        ),
    ensures
        sprouted(
            g.carve(pos(frontier[i].0).0, pos(frontier[i].0).1, frontier[i].1),
            root,
            frontier.update(i, frontier.last()).drop_last(),
            step(pos(frontier[i].0), frontier[i].1),
        ),
        g.carve(pos(frontier[i].0).0, pos(frontier[i].0).1, frontier[i].1).unvisited_count()
            < g.unvisited_count(),
        g.carve(pos(frontier[i].0).0, pos(frontier[i].0).1, frontier[i].1).unvisited_count() >= 0,
        g.carve(pos(frontier[i].0).0, pos(frontier[i].0).1, frontier[i].1).width == g.width,
        g.carve(pos(frontier[i].0).0, pos(frontier[i].0).1, frontier[i].1).height == g.height,
{
    let e = frontier[i];
    let u = pos(e.0);
    let p = e.1;
    let n = step(u, p);
    let h = g.carve(u.0, u.1, p);
    let t = frontier.update(i, frontier.last()).drop_last();
    assert(edge_ok(g, root, frontier[i]));
    lemma_carve(g, u.0, u.1, p);
    lemma_grow(g, root, u, p);
    lemma_carved_edges(g, root, frontier, i);
    assert forall|c: Pos, q: Pole|
        in_tree(h, root, c) && #[trigger] h.can_step(c.0, c.1, q) implies h.visited(
        step(c, q).0,
        step(c, q).1,
    ) || edge_listed(t, c, q) || c == n by {
        if c != n {
            assert(g.can_step(c.0, c.1, q));
            lemma_carved_cover(g, root, frontier, i, c, q);
        }
    }
}

impl Prim {
    /// Creates the algorithm.
    pub fn new() -> (r: Prim) {
        Prim
    }

    /// Adds to the candidates the passages that lead from the cell to its
    /// unvisited neighbours, in the order north, south, west, east.
    pub fn add_frontier(grid: &Grid, c: Coords, frontier: &mut Vec<Edge>)
        requires
            grid@.wf(),
            grid@.in_bounds(c.0 as int, c.1 as int),
        ensures
            final(frontier)@.len() >= old(frontier)@.len(),
            final(frontier)@.subrange(0, old(frontier)@.len() as int) == old(frontier)@,
            forall|k: int|
                old(frontier)@.len() <= k < final(frontier)@.len() ==> added_edge(
                    grid@,
                    c,
                    #[trigger] final(frontier)@[k],
                ),
            forall|p: Pole| #[trigger]
                grid@.can_step(c.0 as int, c.1 as int, p) ==> grid@.visited(
                    step(pos(c), p).0,
                    step(pos(c), p).1,
                ) || edge_listed(final(frontier)@, pos(c), p),
    {
        let ghost before = frontier@;
        let mut dirs: Vec<Pole> = Vec::new();
        dirs.push(Pole::N);
        dirs.push(Pole::S);
        dirs.push(Pole::W);
        dirs.push(Pole::E);
        let mut i: usize = 0;
        while i < 4
            invariant
                i <= 4,
                dirs@ =~= seq![Pole::N, Pole::S, Pole::W, Pole::E],
                grid@.wf(),
                grid@.in_bounds(c.0 as int, c.1 as int),
                before == old(frontier)@,
                frontier@.len() >= before.len(),
                frontier@.subrange(0, before.len() as int) == before,
                forall|k: int|
                    before.len() <= k < frontier@.len() ==> added_edge(
                        grid@,
                        c,
                        #[trigger] frontier@[k],
                    ),
                forall|j: int|
                    0 <= j < i ==> (grid@.can_step(c.0 as int, c.1 as int, #[trigger] dirs@[j])
                        ==> grid@.visited(step(pos(c), dirs@[j]).0, step(pos(c), dirs@[j]).1)
                        || edge_listed(frontier@, pos(c), dirs@[j])),
            decreases 4 - i,
        {
            let p = dirs[i];
            let dir = Cell::from_pole(p);
            assert(dir@.pole() == Some(p));
            let ghost f0 = frontier@;
            if let Ok(n) = grid.get_next_cell_coords(c, dir) {
                if !grid.is_cell_visited(n) {
                    frontier.push((c, p));
                }
            }
            proof {
                assert(frontier@.subrange(0, before.len() as int) =~= before);
                assert forall|j: int|
                    0 <= j < i + 1 && grid@.can_step(c.0 as int, c.1 as int, #[trigger] dirs@[j])
                    implies grid@.visited(step(pos(c), dirs@[j]).0, step(pos(c), dirs@[j]).1)
                    || edge_listed(frontier@, pos(c), dirs@[j]) by {
                    if frontier@.len() > f0.len() {
                        lemma_edge_listed_push(f0, (c, p), pos(c), dirs@[j]);
                    }
                }
            }
            i += 1;
        }
        proof {
            assert forall|p: Pole| #[trigger]
                grid@.can_step(c.0 as int, c.1 as int, p) implies grid@.visited(
                step(pos(c), p).0,
                step(pos(c), p).1,
            ) || edge_listed(frontier@, pos(c), p) by {
                match p {
                    Pole::N => assert(dirs@[0] == p),
                    Pole::S => assert(dirs@[1] == p),
                    Pole::W => assert(dirs@[2] == p),
                    Pole::E => assert(dirs@[3] == p),
                }
            }
        }
    }
}

/// Once the passages of the new cell are candidates, every passage from

/// the maze to an unvisited cell is a candidate again.

proof fn lemma_sprouting_added(
    g: GridView,
    root: Pos,
    before: Seq<Edge>,
    after: Seq<Edge>,
    n: Coords,
)
    requires
        sprouted(g, root, before, pos(n)),
        after.len() >= before.len(),
        after.subrange(0, before.len() as int) == before,
        forall|k: int| before.len() <= k < after.len() ==> added_edge(g, n, #[trigger] after[k]),
        forall|p: Pole| #[trigger]
            g.can_step(n.0 as int, n.1 as int, p) ==> g.visited(
                step(pos(n), p).0,
                step(pos(n), p).1,
            ) || edge_listed(after, pos(n), p),
    ensures
        sprouting(g, root, after),
{
    assert forall|k: int| 0 <= k < after.len() implies edge_ok(g, root, #[trigger] after[k]) by {
        if k < before.len() {
            assert(after[k] == after.subrange(0, before.len() as int)[k]);
        }
    }
    assert forall|u: Pos, p: Pole|
        in_tree(g, root, u) && #[trigger] g.can_step(u.0, u.1, p) implies g.visited(
        step(u, p).0,
        step(u, p).1,
    ) || edge_listed(after, u, p) by {
        if u != pos(n) && !g.visited(step(u, p).0, step(u, p).1) {
            assert(edge_listed(before, u, p));
            let k = choose|k: int|
                0 <= k < before.len() && pos((#[trigger] before[k]).0) == u && before[k].1 == p;
            assert(after[k] == after.subrange(0, before.len() as int)[k]);
        }
    }
}

/// An untouched grid with the first cell as the maze, before the passages

/// of that cell are candidates.

proof fn lemma_sprouting_start(g: GridView, c: Coords, frontier: Seq<Edge>)
    requires
        is_fresh(g),
        g.holds(pos(c)),
    ensures
        sprouted(g, pos(c), Seq::empty(), pos(c)),
{
    lemma_growing_start(g, pos(c));
    lemma_reaches_self(g, g.whole(), pos(c));
}

impl Default for Prim {
    fn default() -> (r: Prim) {
        Prim::new()
    }
}

impl Algorithm for Prim {
    open spec fn name_text(&self) -> Seq<char> {
        "Prim"@
    }

    open spec fn supports_start(&self) -> bool {
        true
    }

    fn name(&self) -> (r: &'static str) {
        "Prim"
    }

    fn has_start_coords(&self) -> (r: bool) {
        true
    }

    /// Starts from the given cell, or from one picked at random, with the
    /// passages of that cell as candidates. It takes a candidate at random; if
    /// it leads to an unvisited cell, the passage is carved and the passages of
    /// the new cell become candidates. It ends when no candidate is left.
    fn generate(&mut self, grid: &mut Grid, rng: &mut StdRng, start: Option<Coords>) {
        let w = grid.width();
        let h = grid.height();
        proof {
            lemma_fresh(w as int, h as int);
        }
        let first = match start {
            Some(c) => c,
            None => get_start_coords(grid, rng),
        };
        let ghost root = pos(first);
        let mut frontier: Vec<Edge> = Vec::new();
        proof {
            lemma_sprouting_start(grid@, first, frontier@);
            lemma_unvisited_bounds(grid@);
        }
        Prim::add_frontier(grid, first, &mut frontier);
        proof {
            lemma_sprouting_added(grid@, root, Seq::empty(), frontier@, first);
        }
        while frontier.len() > 0
            invariant
                grid@.width == w,
                grid@.height == h,
                sprouting(grid@, root, frontier@),
                grid@.unvisited_count() >= 0,
            decreases grid@.unvisited_count(), frontier.len(),
        {
            let ghost g = grid@;
            let ghost before = frontier@;
            let i = random_range(rng, 0, frontier.len());
            let (c, p) = frontier.swap_remove(i);
            assert(edge_ok(g, root, before[i as int]));
            let dir = Cell::from_pole(p);
            assert(dir@.pole() == Some(p));
            if let Ok(n) = grid.get_next_cell_coords(c, dir) {
                assert(pos(n) == step(pos(c), p));
                if !grid.is_cell_visited(n) {
                    proof {
                        lemma_sprouting_carve(g, root, before, i as int);
                    }
                    let _ = grid.carve_passage(c, dir);
                    let ghost taken = frontier@;
                    Prim::add_frontier(grid, n, &mut frontier);
                    proof {
                        lemma_sprouting_added(grid@, root, taken, frontier@, n);
                    }
                } else {
                    proof {
                        lemma_sprouting_take(g, root, before, i as int);
                    }
                }
            }
        }
        proof {
            assert forall|u: Pos| #[trigger] in_tree(grid@, root, u) implies exhausted(
                grid@,
                u,
            ) by {
                assert forall|p: Pole| #[trigger] grid@.can_step(u.0, u.1, p) implies grid@.visited(
                    step(u, p).0,
                    step(u, p).1,
                ) by {
                    assert(!edge_listed(frontier@, u, p));
                }
            }
            lemma_tree_complete(grid@, root);
        }
    }
}

} // verus!
