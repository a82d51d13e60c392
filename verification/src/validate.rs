//! The validator: a depth-first traversal that decides whether a grid is a
//! single connected maze.

use crate::cell::{Cell, CellView};
use crate::grid::{
    count_true, lemma_cell_of_index, lemma_count_bounds, lemma_count_full, lemma_count_uniform,
    lemma_count_update, lemma_index_bounds, lemma_index_injective, Grid, GridView,
};
use crate::paths::{lemma_closed_set, lemma_reaches_self, lemma_reaches_step, step, Pos};
use crate::pole::Pole;
use crate::types::Coords;
use vstd::prelude::*;

verus! {

/// Whether the cell `u` is one of the entries of the work list.
pub open spec fn stacked(stack: Seq<Coords>, u: Pos) -> bool {
    exists|k: int| 0 <= k < stack.len() && (#[trigger] stack[k]).0 == u.0 && stack[k].1 == u.1
}

/// A work list with one more entry holds that entry and what it held before.

proof fn lemma_stacked_push(stack: Seq<Coords>, c: Coords, u: Pos)
    ensures
        stacked(stack.push(c), u) <==> stacked(stack, u) || (c.0 == u.0 && c.1 == u.1),
{
    let t = stack.push(c);
    if stacked(stack, u) {
        let k = choose|k: int| 0 <= k < stack.len() && (#[trigger] stack[k]).0 == u.0 && stack[k].1
            == u.1;
        assert(t[k] == stack[k]);
    }
    if c.0 == u.0 && c.1 == u.1 {
        assert(t[stack.len() as int] == c);
    }
    if stacked(t, u) {
        let k = choose|k: int| 0 <= k < t.len() && (#[trigger] t[k]).0 == u.0 && t[k].1 == u.1;
        if k < stack.len() {
            assert(stack[k] == t[k]);
        }
    }
}

/// Without its last entry a work list still holds every other cell.

proof fn lemma_stacked_pop(stack: Seq<Coords>, u: Pos)
    requires
        stack.len() > 0,
        stacked(stack, u),
    ensures
        stacked(stack.drop_last(), u) || (stack.last().0 == u.0 && stack.last().1 == u.1),
{
    let k = choose|k: int| 0 <= k < stack.len() && (#[trigger] stack[k]).0 == u.0 && stack[k].1
        == u.1;
    if k < stack.len() - 1 {
        assert(stack.drop_last()[k] == stack[k]);
    }
}

/// Whether the cell is recorded as seen.
pub open spec fn seen_at(g: GridView, seen: Seq<bool>, u: Pos) -> bool {
    seen[g.index(u.0, u.1)]
}

/// The directions in the order in which the traversal looks at them.
pub open spec fn all_poles() -> Set<Pole> {
    Set::<Pole>::empty().insert(Pole::N).insert(Pole::S).insert(Pole::W).insert(Pole::E)
}

/// The state of a traversal from the top-left cell: what has been seen can
/// be reached, and a seen cell with a passage to an unseen one is still on the
/// work list, or is the cell `cur` with that passage among `todo`.
pub open spec fn traversal(
    g: GridView,
    seen: Seq<bool>,
    stack: Seq<Coords>,
    count: int,
    cur: Pos,
    todo: Set<Pole>,
) -> bool {
    &&& seen.len() == g.width * g.height
    &&& count == count_true(seen)
    &&& seen_at(g, seen, (0, 0))
    &&& forall|k: int|
        0 <= k < stack.len() ==> g.in_bounds((#[trigger] stack[k]).0 as int, stack[k].1 as int)
            && seen_at(g, seen, (stack[k].0 as int, stack[k].1 as int))
    &&& forall|u: Pos| g.holds(u) && #[trigger] seen_at(g, seen, u) ==> g.reaches((0, 0), u)
    &&& forall|u: Pos, p: Pole|
        g.holds(u) && seen_at(g, seen, u) && #[trigger] g.open(u.0, u.1, p) ==> seen_at(
            g,
            seen,
            step(u, p),
        ) || stacked(stack, u) || (u == cur && todo.contains(p))
}

/// The traversal starts with the top-left cell seen and on the work list.

proof fn lemma_traversal_start(g: GridView, seen: Seq<bool>)
    requires
        g.wf(),
        seen.len() == g.width * g.height,
        forall|k: int| 0 <= k < seen.len() ==> !#[trigger] seen[k],
    ensures
        0 <= g.index(0, 0) < seen.len(),
        traversal(
            g,
            seen.update(g.index(0, 0), true),
            seq![(0usize, 0usize)],
            1,
            (0, 0),
            Set::empty(),
        ),
{
    let s = seen.update(g.index(0, 0), true);
    let stack = seq![(0usize, 0usize)];
    lemma_index_bounds(g.width, g.height, 0, 0);
    lemma_count_uniform(seen, false);
    lemma_count_update(seen, g.index(0, 0), true);
    lemma_reaches_self(g, g.whole(), (0, 0));
    assert forall|u: Pos| g.holds(u) && #[trigger] seen_at(g, s, u) implies u == (0int, 0int) by {
        lemma_index_bounds(g.width, g.height, u.0, u.1);
        lemma_index_injective(g.width, u.0, u.1, 0, 0);
    }
    assert(stack[0] == (0usize, 0usize));
    assert(stacked(stack, (0, 0)));
}

/// The cell taken from the work list has been seen; all of its passages

/// are still to be looked at.

proof fn lemma_traversal_pop(g: GridView, seen: Seq<bool>, stack: Seq<Coords>, count: int)
    requires
        traversal(g, seen, stack, count, (0, 0), Set::empty()),
        stack.len() > 0,
    ensures
        g.in_bounds(stack.last().0 as int, stack.last().1 as int),
        seen_at(g, seen, (stack.last().0 as int, stack.last().1 as int)),
        traversal(
            g,
            seen,
            stack.drop_last(),
            count,
            (stack.last().0 as int, stack.last().1 as int),
            all_poles(),
        ),
        0 <= count <= g.width * g.height,
{
    let cur = (stack.last().0 as int, stack.last().1 as int);
    let rest = stack.drop_last();
    lemma_count_bounds(seen);
    assert(stack[stack.len() - 1] == stack.last());
    assert forall|k: int| 0 <= k < rest.len() implies g.in_bounds(
        (#[trigger] rest[k]).0 as int,
        rest[k].1 as int,
    ) && seen_at(g, seen, (rest[k].0 as int, rest[k].1 as int)) by {
        assert(rest[k] == stack[k]);
    }
    assert forall|u: Pos, p: Pole|
        g.holds(u) && seen_at(g, seen, u) && #[trigger] g.open(u.0, u.1, p) implies seen_at(
        g,
        seen,
        step(u, p),
    ) || stacked(rest, u) || (u == cur && all_poles().contains(p)) by {
        if stacked(stack, u) {
            lemma_stacked_pop(stack, u);
        }
        match p {
            Pole::N => {},
            Pole::S => {},
            Pole::E => {},
            Pole::W => {},
        }
    }
}

/// A passage that is closed or leads to a seen cell has been looked at.

proof fn lemma_traversal_skip(
    g: GridView,
    seen: Seq<bool>,
    stack: Seq<Coords>,
    count: int,
    cur: Pos,
    todo: Set<Pole>,
    p: Pole,
)
    requires
        traversal(g, seen, stack, count, cur, todo),
        g.open(cur.0, cur.1, p) ==> seen_at(g, seen, step(cur, p)),
    ensures
        traversal(g, seen, stack, count, cur, todo.remove(p)),
{
}

/// A passage that leads to an unseen cell makes that cell seen and puts it

/// on the work list.

proof fn lemma_traversal_found(
    g: GridView,
    seen: Seq<bool>,
    stack: Seq<Coords>,
    count: int,
    cur: Pos,
    todo: Set<Pole>,
    p: Pole,
    next: Coords,
)
    requires
        g.wf(),
        traversal(g, seen, stack, count, cur, todo),
        g.holds(cur),
        seen_at(g, seen, cur),
        g.open(cur.0, cur.1, p),
        next.0 == step(cur, p).0,
        next.1 == step(cur, p).1,
        !seen_at(g, seen, step(cur, p)),
    ensures
        0 <= g.index(next.0 as int, next.1 as int) < seen.len(),
        count + 1 <= g.width * g.height,
        traversal(
            g,
            seen.update(g.index(next.0 as int, next.1 as int), true),
            stack.push(next),
            count + 1,
            cur,
            todo.remove(p),
        ),
{
    let n = step(cur, p);
    let j = g.index(n.0, n.1);
    let s = seen.update(j, true);
    let t = stack.push(next);
    assert(g.mirrored(cur.0, cur.1, p));
    lemma_index_bounds(g.width, g.height, n.0, n.1);
    lemma_count_update(seen, j, true);
    lemma_count_bounds(s);
    assert(g.linked_by(cur, n, p));
    lemma_reaches_step(g, g.whole(), (0, 0), cur, n);
    assert forall|u: Pos| g.holds(u) implies (#[trigger] seen_at(g, s, u) <==> seen_at(g, seen, u)
        || u == n) by {
        lemma_index_bounds(g.width, g.height, u.0, u.1);
        if g.index(u.0, u.1) == j {
            lemma_index_injective(g.width, u.0, u.1, n.0, n.1);
        }
    }
    assert forall|k: int| 0 <= k < t.len() implies g.in_bounds(
        (#[trigger] t[k]).0 as int,
        t[k].1 as int,
    ) && seen_at(g, s, (t[k].0 as int, t[k].1 as int)) by {
        if k < stack.len() {
            assert(t[k] == stack[k]);
            assert(seen_at(g, seen, (stack[k].0 as int, stack[k].1 as int)));
        }
    }
    assert forall|u: Pos, q: Pole|
        g.holds(u) && seen_at(g, s, u) && #[trigger] g.open(u.0, u.1, q) implies seen_at(
        g,
        s,
        step(u, q),
    ) || stacked(t, u) || (u == cur && todo.remove(p).contains(q)) by {
        lemma_stacked_push(stack, next, u);
        assert(g.mirrored(u.0, u.1, q));
        assert(g.holds(step(u, q)));
        if u != n {
            assert(seen_at(g, seen, u));
        }
    }
    assert forall|u: Pos| g.holds(u) && #[trigger] seen_at(g, s, u) implies g.reaches(
        (0, 0),
        u,
    ) by {
        if u != n {
            assert(seen_at(g, seen, u));
        }
    }
    assert(seen_at(g, s, (0, 0)));
}

/// When all passages of a cell have been looked at, the cell is done.

proof fn lemma_traversal_next_cell(
    g: GridView,
    seen: Seq<bool>,
    stack: Seq<Coords>,
    count: int,
    cur: Pos,
    todo: Set<Pole>,
)
    requires
        traversal(g, seen, stack, count, cur, todo),
        forall|p: Pole| !todo.contains(p),
    ensures
        traversal(g, seen, stack, count, (0, 0), Set::empty()),
{
}

/// With an empty work list the seen cells are those within reach, so all

/// cells have been seen exactly when the grid is connected.

proof fn lemma_traversal_end(g: GridView, seen: Seq<bool>, count: int)
    requires
        g.wf(),
        traversal(g, seen, Seq::empty(), count, (0, 0), Set::empty()),
    ensures
        count == g.width * g.height <==> g.connected(),
{
    let stack = Seq::<Coords>::empty();
    let set = Set::<Pos>::new(|u: Pos| g.holds(u) && seen_at(g, seen, u));
    assert(set.contains((0, 0)));
    assert forall|u: Pos, v: Pos|
        set.contains(u) && #[trigger] g.linked(u, v) && g.whole().has(v) implies set.contains(
        v,
    ) by {
        let p = if g.linked_by(u, v, Pole::N) {
            Pole::N
        } else if g.linked_by(u, v, Pole::S) {
            Pole::S
        } else if g.linked_by(u, v, Pole::E) {
            Pole::E
        } else {
            Pole::W
        };
        assert(g.open(u.0, u.1, p));
        assert(!stacked(stack, u));
    }
    if count == g.width * g.height {
        lemma_count_full(seen);
        assert forall|c: Pos| g.holds(c) implies #[trigger] g.reaches((0, 0), c) by {
            lemma_index_bounds(g.width, g.height, c.0, c.1);
            assert(seen_at(g, seen, c));
        }
    }
    if g.connected() {
        assert forall|k: int| 0 <= k < seen.len() implies seen[k] == true by {
            let x = k % g.width;
            let y = k / g.width;
            lemma_cell_of_index(g.width, g.height, k);
            assert(g.reaches((0, 0), (x, y)));
            lemma_closed_set(g, g.whole(), set, (0, 0), (x, y));
            assert(seen_at(g, seen, (x, y)));
        }
        lemma_count_uniform(seen, true);
    }
}

/// Looks from `c` in one direction. Where a passage leads to a cell that has
/// not been seen, the cell is recorded and put on the work list.
fn probe(
    grid: &Grid,
    c: Coords,
    direction: Cell,
    seen: &mut Vec<bool>,
    stack: &mut Vec<Coords>,
    count: &mut usize,
    Ghost(todo): Ghost<Set<Pole>>,
)
    requires
        grid@.wf(),
        grid@.in_bounds(c.0 as int, c.1 as int),
        direction@.pole() is Some,
        seen_at(grid@, old(seen)@, (c.0 as int, c.1 as int)),
        traversal(
            grid@,
            old(seen)@,
            old(stack)@,
            *old(count) as int,
            (c.0 as int, c.1 as int),
            todo,
        ),
    ensures
        traversal(
            grid@,
            final(seen)@,
            final(stack)@,
            *final(count) as int,
            (c.0 as int, c.1 as int),
            todo.remove(direction@.pole()->0),
        ),
        seen_at(grid@, final(seen)@, (c.0 as int, c.1 as int)),
        *final(count) >= *old(count),
        *final(count) == *old(count) ==> final(stack)@ == old(stack)@,
{
    let ghost g = grid@;
    let ghost p = direction@.pole()->0;
    let ghost cur = (c.0 as int, c.1 as int);
    assert(direction@ == CellView::only(p));
    let limit = seen.len();
    let mut fresh: Option<(Coords, usize)> = None;
    if let Ok(next) = grid.get_next_cell_coords(c, direction) {
        if grid.is_carved(c, direction) {
            let j = grid.index_of(next);
            if !seen[j] {
                fresh = Some((next, j));
            }
        }
    }
    match fresh {
        Some((next, j)) => {
            proof {
                lemma_traversal_found(g, seen@, stack@, *count as int, cur, todo, p, next);
                assert(*count + 1 <= limit);
            }
            seen[j] = true;
            *count = *count + 1;
            stack.push(next);
            proof {
                lemma_index_bounds(g.width, g.height, cur.0, cur.1);
            }
        },
        None => {
            proof {
                assert(g.open(cur.0, cur.1, p) ==> g.mirrored(cur.0, cur.1, p));
                lemma_traversal_skip(g, seen@, stack@, *count as int, cur, todo, p);
            }
        },
    }
}

/// Decides whether the grid is a single connected maze, that is, whether every
/// cell can be reached from the top-left cell through open passages. The
/// traversal follows passages only; it does not consult the visited flags that
/// generation leaves behind.
pub fn validate(grid: &Grid) -> (r: bool)
    requires
        grid@.wf(),
    ensures
        r == grid@.connected(),
{
    let ghost g = grid@;
    let origin = grid.index_of((0, 0));
    let total = grid.cell_count();
    let mut seen: Vec<bool> = Vec::new();
    let mut i: usize = 0;
    while i < total
        invariant
            i <= total,
            seen.len() == i,
            forall|k: int| 0 <= k < i ==> !#[trigger] seen[k],
        decreases total - i,
    {
        seen.push(false);
        i += 1;
    }
    proof {
        lemma_traversal_start(g, seen@);
    }
    seen[origin] = true;
    let mut count: usize = 1;
    let mut stack: Vec<Coords> = Vec::new();
    stack.push((0, 0));
    assert(stack@ =~= seq![(0usize, 0usize)]);
    while stack.len() > 0
        invariant
            g == grid@,
            g.wf(),
            total == g.width * g.height,
            traversal(g, seen@, stack@, count as int, (0, 0), Set::<Pole>::empty()),
            count <= total,
        decreases total - count, stack.len(),
    {
        proof {
            lemma_traversal_pop(g, seen@, stack@, count as int);
        }
        let c = stack.pop().unwrap();
        let ghost all = all_poles();
        probe(grid, c, Cell::north(), &mut seen, &mut stack, &mut count, Ghost(all));
        probe(
            grid,
            c,
            Cell::south(),
            &mut seen,
            &mut stack,
            &mut count,
            Ghost(all.remove(Pole::N)),
        );
        probe(
            grid,
            c,
            Cell::west(),
            &mut seen,
            &mut stack,
            &mut count,
            Ghost(all.remove(Pole::N).remove(Pole::S)),
        );
        probe(
            grid,
            c,
            Cell::east(),
            &mut seen,
            &mut stack,
            &mut count,
            Ghost(all.remove(Pole::N).remove(Pole::S).remove(Pole::W)),
        );
        proof {
            let rest = all.remove(Pole::N).remove(Pole::S).remove(Pole::W).remove(Pole::E);
            assert forall|p: Pole| !rest.contains(p) by {
                match p {
                    Pole::N => {},
                    Pole::S => {},
                    Pole::E => {},
                    Pole::W => {},
                }
            }
            lemma_traversal_next_cell(
                g,
                seen@,
                stack@,
                count as int,
                (c.0 as int, c.1 as int),
                rest,
            );
            lemma_count_bounds(seen@);
        }
    }
    proof {
        assert(stack@ =~= Seq::<Coords>::empty());
        lemma_traversal_end(g, seen@, count as int);
    }
    count == total
}

} // verus!
