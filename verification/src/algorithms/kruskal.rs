//! Kruskal's algorithm.

use crate::algorithms::Algorithm;
use crate::arena::{
    lemma_count_apart, lemma_count_joined, lemma_merge, lemma_merge_count, merge, same_set,
    set_count, valid_roots, ArenaTree, NodeId,
};
use crate::cell::Cell;
use crate::grid::{lemma_carve, lemma_fresh, lemma_index_bounds, Grid, GridView};
use crate::paths::{
    lemma_carve_keeps, lemma_carve_links, lemma_reaches_self, lemma_reaches_step, lemma_reaches_sym,
    lemma_reaches_trans, step, Pos,
};
use crate::pole::Pole;
use crate::random::{lemma_shuffled, shuffle};
use crate::types::Coords;
use rand::rngs::StdRng;
use vstd::prelude::*;

verus! {

/// A wall between two cells: the column and the row of a cell, and the
/// direction of its neighbour.
pub type Edge = (usize, usize, Pole);

/// Kruskal's algorithm in its randomized form: it takes the walls between
/// cells in a random order and opens each wall whose two sides are not yet
/// joined. A disjoint-set forest tells which cells are joined.
pub struct Kruskal;

/// The wall of the cell `(x, y)` towards `p`.
pub open spec fn edge_at(x: int, y: int, p: Pole) -> Edge {
    (x as usize, y as usize, p)
}

/// The walls that the cell `(x, y)` contributes: the one to the north and the
/// one to the west, where the grid has them.
pub open spec fn cell_edges(x: int, y: int) -> Seq<Edge> {
    (if y > 0 {
        seq![(x as usize, y as usize, Pole::N)]
    } else {
        Seq::<Edge>::empty()
    }) + (if x > 0 {
        seq![(x as usize, y as usize, Pole::W)]
    } else {
        Seq::<Edge>::empty()
    })
}

/// The walls of the first `x` cells of row `y`.
pub open spec fn row_edges(x: int, y: int) -> Seq<Edge>
    decreases x,
{
    if x <= 0 {
        Seq::<Edge>::empty()
    } else {
        row_edges(x - 1, y) + cell_edges(x - 1, y)
    }
}

/// The walls of the first `y` rows of a grid of the given width: each wall
/// between two cells once, row by row.
pub open spec fn grid_edges(width: int, y: int) -> Seq<Edge>
    decreases y,
{
    if y <= 0 {
        Seq::<Edge>::empty()
    } else {
        grid_edges(width, y - 1) + row_edges(width, y - 1)
    }
}

/// Whether the wall lies between two cells of the grid.
pub open spec fn edge_fits(g: GridView, e: Edge) -> bool {
    g.can_step(e.0 as int, e.1 as int, e.2) && (e.2 == Pole::N || e.2 == Pole::W)
}

/// What the walls of a row hold: only walls of the grid, and the northern

/// and the western wall of each of its first `x` cells that has one.

proof fn lemma_row_edges(g: GridView, x: int, y: int)
    requires
        g.wf(),
        0 <= x <= g.width,
        0 <= y < g.height,
        g.width <= usize::MAX,
        g.height <= usize::MAX,
    ensures
        forall|k: int| 0 <= k < row_edges(x, y).len() ==> edge_fits(g, #[trigger] row_edges(x, y)[k]),
        forall|a: int| 0 <= a < x && y > 0 ==> row_edges(x, y).contains(
            #[trigger] edge_at(a, y, Pole::N),
        ),
        forall|a: int| 0 < a < x ==> row_edges(x, y).contains(
            #[trigger] edge_at(a, y, Pole::W),
        ),
    decreases x,
{
    if x > 0 {
        lemma_row_edges(g, x - 1, y);
        let prev = row_edges(x - 1, y);
        let here = cell_edges(x - 1, y);
        let all = row_edges(x, y);
        assert(all == prev + here);
        assert forall|k: int| 0 <= k < all.len() implies edge_fits(g, #[trigger] all[k]) by {
            if k < prev.len() {
                assert(all[k] == prev[k]);
            } else {
                assert(all[k] == here[k - prev.len()]);
            }
        }
        assert forall|a: int| 0 <= a < x && y > 0 implies all.contains(
            #[trigger] edge_at(a, y, Pole::N),
        ) by {
            let e = edge_at(a, y, Pole::N);
            if a < x - 1 {
                assert(prev.contains(e));
                let k = choose|k: int| 0 <= k < prev.len() && prev[k] == e;
                assert(all[k] == e);
            } else {
                assert(here[0] == e);
                assert(all[prev.len() as int] == e);
            }
        }
        assert forall|a: int| 0 < a < x implies all.contains(
            #[trigger] edge_at(a, y, Pole::W),
        ) by {
            let e = edge_at(a, y, Pole::W);
            if a < x - 1 {
                assert(prev.contains(e));
                let k = choose|k: int| 0 <= k < prev.len() && prev[k] == e;
                assert(all[k] == e);
            } else {
                assert(here[here.len() - 1] == e);
                assert(all[all.len() - 1] == e);
            }
        }
    }
}

/// What the list of walls holds: only walls of the grid, and the northern and
/// the western wall of every cell that has one.
pub proof fn lemma_grid_edges(g: GridView, y: int)
    requires
        g.wf(),
        0 <= y <= g.height,
        g.width <= usize::MAX,
        g.height <= usize::MAX,
    ensures
        forall|k: int|
            0 <= k < grid_edges(g.width, y).len() ==> edge_fits(
                g,
                #[trigger] grid_edges(g.width, y)[k],
            ),
        forall|a: int, b: int|
            0 <= a < g.width && 0 < b < y ==> grid_edges(g.width, y).contains(
                #[trigger] edge_at(a, b, Pole::N),
            ),
        forall|a: int, b: int|
            0 < a < g.width && 0 <= b < y ==> grid_edges(g.width, y).contains(
                #[trigger] edge_at(a, b, Pole::W),
            ),
    decreases y,
{
    if y > 0 {
        lemma_grid_edges(g, y - 1);
        lemma_row_edges(g, g.width, y - 1);
        let prev = grid_edges(g.width, y - 1);
        let here = row_edges(g.width, y - 1);
        let all = grid_edges(g.width, y);
        assert(all == prev + here);
        assert forall|k: int| 0 <= k < all.len() implies edge_fits(g, #[trigger] all[k]) by {
            if k < prev.len() {
                assert(all[k] == prev[k]);
            } else {
                assert(all[k] == here[k - prev.len()]);
            }
        }
        assert forall|a: int, b: int| 0 <= a < g.width && 0 < b < y implies all.contains(
            #[trigger] edge_at(a, b, Pole::N),
        ) by {
            let e = edge_at(a, b, Pole::N);
            if b < y - 1 {
                assert(prev.contains(e));
                let k = choose|k: int| 0 <= k < prev.len() && prev[k] == e;
                assert(all[k] == e);
            } else {
                assert(here.contains(e));
                let k = choose|k: int| 0 <= k < here.len() && here[k] == e;
                assert(all[prev.len() + k] == e);
            }
        }
        assert forall|a: int, b: int| 0 < a < g.width && 0 <= b < y implies all.contains(
            #[trigger] edge_at(a, b, Pole::W),
        ) by {
            let e = edge_at(a, b, Pole::W);
            if b < y - 1 {
                assert(prev.contains(e));
                let k = choose|k: int| 0 <= k < prev.len() && prev[k] == e;
                assert(all[k] == e);
            } else {
                assert(here.contains(e));
                let k = choose|k: int| 0 <= k < here.len() && here[k] == e;
                assert(all[prev.len() + k] == e);
            }
        }
    }
}

/// Whether the forest has joined the two sides of the wall.
pub open spec fn edge_joined(g: GridView, roots: Seq<int>, e: Edge) -> bool {
    same_set(
        roots,
        g.index(e.0 as int, e.1 as int),
        g.index(step((e.0 as int, e.1 as int), e.2).0, step((e.0 as int, e.1 as int), e.2).1),
    )
}

/// Whether cells that the forest holds in one set can reach each other.
pub open spec fn sets_reach(g: GridView, roots: Seq<int>) -> bool {
    forall|a: Pos, b: Pos|
        g.holds(a) && g.holds(b) && #[trigger] same_set(
            roots,
            g.index(a.0, a.1),
            g.index(b.0, b.1),
        ) ==> g.reaches(a, b)
}

/// Whether the forest holds the two ends of every passage in one set, and
/// counts one set less for each passage.
pub open spec fn sets_count(g: GridView, roots: Seq<int>) -> bool {
    &&& forall|c: Pos, p: Pole|
        g.holds(c) && #[trigger] g.open(c.0, c.1, p) ==> same_set(
            roots,
            g.index(c.0, c.1),
            g.index(step(c, p).0, step(c, p).1),
        )
    &&& g.passage_count() == roots.len() - set_count(roots)
}

/// Opening a wall between two sets adds one passage and leaves one set

/// less, and the two ends of every passage stay in one set.

proof fn lemma_join_count(g: GridView, roots: Seq<int>, e: Edge)
    requires
        g.wf(),
        roots.len() == g.width * g.height,
        valid_roots(roots),
        sets_count(g, roots),
        edge_fits(g, e),
        !edge_joined(g, roots, e),
    ensures
        sets_count(
            g.carve(e.0 as int, e.1 as int, e.2),
            merge(
                roots,
                g.index(e.0 as int, e.1 as int),
                g.index(step((e.0 as int, e.1 as int), e.2).0, step((e.0 as int, e.1 as int), e.2).1),
            ),
        ),
{
    let c = (e.0 as int, e.1 as int);
    let n = step(c, e.2);
    let i = g.index(c.0, c.1);
    let j = g.index(n.0, n.1);
    let h = g.carve(c.0, c.1, e.2);
    let after = merge(roots, i, j);
    lemma_index_bounds(g.width, g.height, c.0, c.1);
    lemma_index_bounds(g.width, g.height, n.0, n.1);
    lemma_merge(roots, i, j);
    lemma_merge_count(roots, i, j);
    lemma_carve(g, c.0, c.1, e.2);
    crate::grid::lemma_carve_count(g, c.0, c.1, e.2);
    assert(!g.open(c.0, c.1, e.2));
    assert forall|d: Pos, q: Pole| h.holds(d) && #[trigger] h.open(d.0, d.1, q) implies same_set(
        after,
        h.index(d.0, d.1),
        h.index(step(d, q).0, step(d, q).1),
    ) by {
        if g.open(d.0, d.1, q) {
            assert(same_set(roots, g.index(d.0, d.1), g.index(step(d, q).0, step(d, q).1)));
        } else if d == c {
            assert(same_set(after, i, j));
        } else {
            assert(d == n && q == e.2.spec_opposite());
            assert(step(d, q) == c);
            assert(same_set(after, i, j));
        }
    }
}

/// When the forest has joined all cells, it has one set.
proof fn lemma_all_in_one(g: GridView, roots: Seq<int>)
    requires
        g.wf(),
        roots.len() == g.width * g.height,
        valid_roots(roots),
        sets_reach(g, roots),
        forall|a: Pos|
            g.holds(a) && a.1 > 0 ==> #[trigger] same_set(
                roots,
                g.index(a.0, a.1),
                g.index(a.0, a.1 - 1),
            ),
        forall|a: Pos|
            g.holds(a) && a.0 > 0 ==> #[trigger] same_set(
                roots,
                g.index(a.0, a.1),
                g.index(a.0 - 1, a.1),
            ),
    ensures
        set_count(roots) == 1,
{
    lemma_index_bounds(g.width, g.height, 0, 0);
    assert forall|i: int| 0 <= i < roots.len() implies #[trigger] roots[i] == roots[0] by {
        crate::grid::lemma_cell_of_index(g.width, g.height, i);
        lemma_same_as_origin(g, roots, (i % g.width, i / g.width));
    }
    lemma_count_joined(roots);
}

/// When every cell shares a set with its northern and its western

/// neighbour, every cell shares a set with the top-left cell.

proof fn lemma_same_as_origin(g: GridView, roots: Seq<int>, c: Pos)
    requires
        g.wf(),
        g.holds(c),
        roots.len() == g.width * g.height,
        forall|a: Pos|
            g.holds(a) && a.1 > 0 ==> #[trigger] same_set(
                roots,
                g.index(a.0, a.1),
                g.index(a.0, a.1 - 1),
            ),
        forall|a: Pos|
            g.holds(a) && a.0 > 0 ==> #[trigger] same_set(
                roots,
                g.index(a.0, a.1),
                g.index(a.0 - 1, a.1),
            ),
    ensures
        roots[g.index(c.0, c.1)] == roots[0],
    decreases c.0 + c.1,
{
    if c.1 > 0 {
        lemma_same_as_origin(g, roots, (c.0, c.1 - 1));
        assert(same_set(roots, g.index(c.0, c.1), g.index(c.0, c.1 - 1)));
    } else if c.0 > 0 {
        lemma_same_as_origin(g, roots, (c.0 - 1, c.1));
        assert(same_set(roots, g.index(c.0, c.1), g.index(c.0 - 1, c.1)));
    }
}

/// After a wall between two sets has been opened and the sets have been

/// merged, cells of one set still reach each other.

proof fn lemma_join(g: GridView, roots: Seq<int>, e: Edge)
    requires
        g.wf(),
        roots.len() == g.width * g.height,
        valid_roots(roots),
        sets_reach(g, roots),
        edge_fits(g, e),
    ensures
        sets_reach(
            g.carve(e.0 as int, e.1 as int, e.2),
            merge(
                roots,
                g.index(e.0 as int, e.1 as int),
                g.index(step((e.0 as int, e.1 as int), e.2).0, step((e.0 as int, e.1 as int), e.2).1),
            ),
        ),
{
    let c = (e.0 as int, e.1 as int);
    let n = step(c, e.2);
    let i = g.index(c.0, c.1);
    let j = g.index(n.0, n.1);
    let h = g.carve(c.0, c.1, e.2);
    let after = merge(roots, i, j);
    lemma_index_bounds(g.width, g.height, c.0, c.1);
    lemma_index_bounds(g.width, g.height, n.0, n.1);
    lemma_merge(roots, i, j);
    lemma_carve_links(g, c.0, c.1, e.2);
    lemma_reaches_self(g, g.whole(), c);
    lemma_reaches_self(g, g.whole(), n);
    assert forall|a: Pos, b: Pos|
        h.holds(a) && h.holds(b) && #[trigger] same_set(
            after,
            h.index(a.0, a.1),
            h.index(b.0, b.1),
        ) implies h.reaches(a, b) by {
        let ia = g.index(a.0, a.1);
        let ib = g.index(b.0, b.1);
        lemma_index_bounds(g.width, g.height, a.0, a.1);
        lemma_index_bounds(g.width, g.height, b.0, b.1);
        if same_set(roots, ia, ib) {
            assert(g.reaches(a, b));
            lemma_carve_keeps(g, c.0, c.1, e.2, a, b);
        } else if same_set(roots, ia, i) && same_set(roots, j, ib) {
            assert(g.reaches(a, c));
            assert(g.reaches(n, b));
            lemma_carve_keeps(g, c.0, c.1, e.2, a, c);
            lemma_carve_keeps(g, c.0, c.1, e.2, n, b);
            lemma_reaches_step(h, h.whole(), a, c, n);
            lemma_reaches_trans(h, h.whole(), a, n, b);
        } else {
            assert(same_set(roots, ia, j) && same_set(roots, i, ib));
            assert(g.reaches(a, n));
            assert(g.reaches(c, b));
            lemma_carve_keeps(g, c.0, c.1, e.2, a, n);
            lemma_carve_keeps(g, c.0, c.1, e.2, c, b);
            lemma_reaches_step(h, h.whole(), a, n, c);
            lemma_reaches_trans(h, h.whole(), a, c, b);
        }
    }
}

/// When the two sides of every northern and western wall can reach each
/// other, the grid is connected.
proof fn lemma_all_joined(g: GridView, c: Pos)
    requires
        g.wf(),
        g.holds(c),
        forall|a: Pos|
            g.holds(a) && a.1 > 0 ==> #[trigger] g.reaches(a, step(a, Pole::N)),
        forall|a: Pos|
            g.holds(a) && a.0 > 0 ==> #[trigger] g.reaches(a, step(a, Pole::W)),
    ensures
        g.reaches((0, 0), c),
    decreases c.0 + c.1,
{
    if c == (0int, 0int) {
        lemma_reaches_self(g, g.whole(), c);
    } else {
        let p = if c.1 > 0 {
            Pole::N
        } else {
            Pole::W
        };
        let n = step(c, p);
        assert(g.reaches(c, n));
        lemma_reaches_sym(g, g.whole(), c, n);
        lemma_all_joined(g, n);
        lemma_reaches_trans(g, g.whole(), (0, 0), n, c);
    }
}

/// Returns a forest with one node for each cell of the grid.
pub fn populate_arena(grid: &Grid) -> (r: ArenaTree)
    requires
        grid@.wf(),
    ensures
        r.wf(),
        r@.len() == grid@.width * grid@.height,
        forall|i: int| 0 <= i < r@.len() ==> #[trigger] r@[i] == i,
{
    let mut arena = ArenaTree::new();
    let n = grid.cell_count();
    let mut i: usize = 0;
    while i < n
        invariant
            i <= n,
            arena.wf(),
            arena@.len() == i,
            forall|k: int| 0 <= k < i ==> #[trigger] arena@[k] == k,
        decreases n - i,
    {
        arena.new_node();
        i += 1;
    }
    arena
}

/// Returns the walls between the cells of the grid, each once: for every cell,
/// row by row, its northern and its western wall.
pub fn populate_edges(grid: &Grid) -> (r: Vec<Edge>)
    requires
        grid@.wf(),
    ensures
        r@ == grid_edges(grid@.width, grid@.height),
{
    let mut edges: Vec<Edge> = Vec::new();
    let w = grid.width();
    let h = grid.height();
    let mut y: usize = 0;
    while y < h
        invariant
            y <= h,
            w == grid@.width,
            edges@ == grid_edges(w as int, y as int),
        decreases h - y,
    {
        let ghost start = edges@;
        let mut x: usize = 0;
        while x < w
            invariant
                x <= w,
                y < h,
                edges@ == start + row_edges(x as int, y as int),
            decreases w - x,
        {
            let ghost before = edges@;
            if y > 0 {
                edges.push((x, y, Pole::N));
            }
            if x > 0 {
                edges.push((x, y, Pole::W));
            }
            proof {
                assert(edges@ =~= before + cell_edges(x as int, y as int));
                assert(start + row_edges(x as int, y as int) + cell_edges(x as int, y as int)
                    =~= start + row_edges(x + 1, y as int));
            }
            x += 1;
        }
        y += 1;
    }
    edges
}

impl Algorithm for Kruskal {
    open spec fn name_text(&self) -> Seq<char> {
        "Kruskal"@
    }

    open spec fn supports_start(&self) -> bool {
        false
    }

    fn name(&self) -> (r: &'static str) {
        "Kruskal"
    }

    fn has_start_coords(&self) -> (r: bool) {
        false
    }

    /// Puts every cell in a set of its own and lists the walls between cells
    /// in a random order. Then it takes the walls one by one from the end of
    /// the list; a wall between two different sets is opened and the sets are
    /// merged.
    fn generate(&mut self, grid: &mut Grid, rng: &mut StdRng, start: Option<Coords>) {
        let w = grid.width();
        let h = grid.height();
        proof {
            lemma_fresh(w as int, h as int);
        }
        let mut arena = populate_arena(grid);
        let mut edges = populate_edges(grid);
        let ghost listed = edges@;
        shuffle(rng, &mut edges);
        let ghost order = edges@;
        proof {
            lemma_shuffled(listed, order);
            lemma_grid_edges(grid@, h as int);
            arena.lemma_view_valid();
            assert forall|k: int| 0 <= k < order.len() implies edge_fits(
                grid@,
                #[trigger] order[k],
            ) by {
                assert(order.contains(order[k]));
                assert(listed.contains(order[k]));
            }
            assert(sets_count(grid@, arena@)) by {
                lemma_count_apart(arena@);
            }
            assert(sets_reach(grid@, arena@)) by {
                assert forall|a: Pos, b: Pos|
                    grid@.holds(a) && grid@.holds(b) && #[trigger] same_set(
                        arena@,
                        grid@.index(a.0, a.1),
                        grid@.index(b.0, b.1),
                    ) implies grid@.reaches(a, b) by {
                    lemma_index_bounds(w as int, h as int, a.0, a.1);
                    lemma_index_bounds(w as int, h as int, b.0, b.1);
                    crate::grid::lemma_index_injective(w as int, a.0, a.1, b.0, b.1);
                    lemma_reaches_self(grid@, grid@.whole(), a);
                }
            }
        }
        while edges.len() > 0
            invariant
                grid@.wf(),
                grid@.width == w,
                grid@.height == h,
                arena.wf(),
                arena@.len() == w * h,
                edges@.len() <= order.len(),
                edges@ == order.subrange(0, edges@.len() as int),
                forall|k: int| 0 <= k < order.len() ==> edge_fits(grid@, #[trigger] order[k]),
                forall|k: int|
                    edges@.len() <= k < order.len() ==> edge_joined(
                        grid@,
                        arena@,
                        #[trigger] order[k],
                    ),
                sets_reach(grid@, arena@),
                sets_count(grid@, arena@),
            decreases edges.len(),
        {
            let ghost g = grid@;
            let ghost roots = arena@;
            let ghost left = edges@.len();
            let (x, y, p) = edges.pop().unwrap();
            assert((x, y, p) == order[left - 1]);
            assert(edge_fits(g, order[left - 1]));
            let dir = Cell::from_pole(p);
            assert(dir@.pole() == Some(p));
            if let Ok(next) = grid.get_next_cell_coords((x, y), dir) {
                let node1 = NodeId(grid.index_of((x, y)));
                let node2 = NodeId(grid.index_of(next));
                proof {
                    arena.lemma_view_valid();
                    lemma_merge(roots, node1.0 as int, node2.0 as int);
                }
                if !arena.connected(node1, node2) {
                    arena.connect(node1, node2);
                    proof {
                        lemma_join(g, roots, (x, y, p));
                        lemma_join_count(g, roots, (x, y, p));
                        lemma_carve(g, x as int, y as int, p);
                    }
                    let _ = grid.carve_passage((x, y), dir);
                    proof {
                        assert forall|k: int| left - 1 <= k < order.len() implies edge_joined(
                            grid@,
                            arena@,
                            #[trigger] order[k],
                        ) by {
                            if k >= left {
                                assert(edge_joined(g, roots, order[k]));
                            }
                        }
                    }
                }
            }
            proof {
                assert(edges@ =~= order.subrange(0, left - 1));
            }
        }
        proof {
            let g = grid@;
            assert forall|a: Pos| g.holds(a) && a.1 > 0 implies #[trigger] g.reaches(
                a,
                step(a, Pole::N),
            ) by {
                let e = edge_at(a.0, a.1, Pole::N);
                assert(listed.contains(e));
                assert(order.contains(e));
                let k = choose|k: int| 0 <= k < order.len() && order[k] == e;
                assert(edge_joined(g, arena@, order[k]));
            }
            assert forall|a: Pos| g.holds(a) && a.0 > 0 implies #[trigger] g.reaches(
                a,
                step(a, Pole::W),
            ) by {
                let e = edge_at(a.0, a.1, Pole::W);
                assert(listed.contains(e));
                assert(order.contains(e));
                let k = choose|k: int| 0 <= k < order.len() && order[k] == e;
                assert(edge_joined(g, arena@, order[k]));
            }
            assert forall|c: Pos| g.holds(c) implies #[trigger] g.reaches((0, 0), c) by {
                lemma_all_joined(g, c);
            }
            arena.lemma_view_valid();
            assert forall|a: Pos| g.holds(a) && a.1 > 0 implies #[trigger] same_set(
                arena@,
                g.index(a.0, a.1),
                g.index(a.0, a.1 - 1),
            ) by {
                let e = edge_at(a.0, a.1, Pole::N);
                assert(listed.contains(e));
                assert(order.contains(e));
                let k = choose|k: int| 0 <= k < order.len() && order[k] == e;
                assert(edge_joined(g, arena@, order[k]));
            }
            assert forall|a: Pos| g.holds(a) && a.0 > 0 implies #[trigger] same_set(
                arena@,
                g.index(a.0, a.1),
                g.index(a.0 - 1, a.1),
            ) by {
                let e = edge_at(a.0, a.1, Pole::W);
                assert(listed.contains(e));
                assert(order.contains(e));
                let k = choose|k: int| 0 <= k < order.len() && order[k] == e;
                assert(edge_joined(g, arena@, order[k]));
            }
            lemma_all_in_one(g, arena@);
        }
    }
}

} // verus!
