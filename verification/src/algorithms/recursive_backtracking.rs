//! The "Recursive Backtracking" algorithm.

use crate::algorithms::growth::{
    covers_compass, exhausted, growing, in_tree, lemma_grow, lemma_growing_start, lemma_listed_push,
    lemma_tree_complete, lemma_tried_all, lemma_unvisited_bounds, listed, pos, shuffled_poles,
    tried,
};
use crate::algorithms::{is_fresh, Algorithm};
use crate::cell::Cell;
use crate::grid::{lemma_fresh, Grid, GridView};
use crate::paths::{lemma_reaches_self, step, Pos};
use crate::pole::Pole;
use crate::types::Coords;
use rand::rngs::StdRng;
use vstd::prelude::*;

verus! {

/// The "Recursive Backtracking" algorithm: a depth-first search that carves
/// into a random unvisited neighbour and backs up when there is none. It
/// makes long winding passages with many dead ends.
pub struct RecursiveBacktracking;

/// One cell on the way from the start to the current cell, with the random
/// order of its directions and how many of them have been looked at.
pub struct Frame {
    pub cell: Coords,
    pub dirs: Vec<Pole>,
    pub next: usize,
}

/// The cells of the frames, bottom first.
pub open spec fn frame_cells(frames: Seq<Frame>) -> Seq<Coords> {
    frames.map_values(|f: Frame| f.cell)
}

/// Whether a frame fits the grid: its cell is within reach of the root, and
/// each direction already looked at leads nowhere new.
pub open spec fn frame_ok(g: GridView, root: Pos, f: Frame) -> bool {
    &&& in_tree(g, root, pos(f.cell))
    &&& g.reaches(root, pos(f.cell))
    &&& covers_compass(f.dirs@)
    &&& f.next <= 4
    &&& forall|j: int| 0 <= j < f.next ==> tried(g, pos(f.cell), #[trigger] f.dirs@[j])
}

/// The state of the search: every frame fits, and a cell of the tree that is
/// not exhausted is still on the way.
pub open spec fn searching(g: GridView, root: Pos, frames: Seq<Frame>) -> bool {
    &&& growing(g, root)
    &&& forall|k: int| 0 <= k < frames.len() ==> frame_ok(g, root, #[trigger] frames[k])
    &&& forall|u: Pos| #[trigger]
        in_tree(g, root, u) ==> exhausted(g, u) || listed(frame_cells(frames), u)
}

/// What is left to do in the topmost frame.
pub open spec fn top_rest(frames: Seq<Frame>) -> int {
    if frames.len() > 0 {
        4 - frames.last().next
    } else {
        0
    }
}

/// The frame of the top-left cell alone fits an untouched grid.

proof fn lemma_search_start(g: GridView, f: Frame)
    requires
        is_fresh(g),
        f.cell == (0usize, 0usize),
        f.next == 0,
        covers_compass(f.dirs@),
    ensures
        searching(g, (0, 0), seq![f]),
{
    let root = (0int, 0int);
    let frames = seq![f];
    lemma_growing_start(g, root);
    lemma_reaches_self(g, g.whole(), root);
    assert(frames[0] == f);
    assert(frame_cells(frames)[0] == f.cell);
    assert(listed(frame_cells(frames), root));
}

/// A frame whose directions have all been looked at may be dropped: its

/// cell is exhausted.

proof fn lemma_search_pop(g: GridView, root: Pos, frames: Seq<Frame>)
    requires
        searching(g, root, frames),
        frames.len() > 0,
        frames.last().next >= 4,
    ensures
        searching(g, root, frames.drop_last()),
{
    let rest = frames.drop_last();
    let f = frames.last();
    assert(frame_ok(g, root, frames[frames.len() - 1]));
    lemma_tried_all(g, pos(f.cell), f.dirs@);
    assert forall|k: int| 0 <= k < rest.len() implies frame_ok(g, root, #[trigger] rest[k]) by {
        assert(rest[k] == frames[k]);
    }
    assert forall|u: Pos| #[trigger] in_tree(g, root, u) implies exhausted(g, u) || listed(
        frame_cells(rest),
        u,
    ) by {
        if !exhausted(g, u) {
            let cells = frame_cells(frames);
            assert(listed(cells, u));
            let k = choose|k: int|
                0 <= k < cells.len() && (#[trigger] cells[k]).0 == u.0 && cells[k].1 == u.1;
            assert(k < rest.len());
            assert(frame_cells(rest)[k] == cells[k]);
        }
    }
}

/// A direction that leads out of the grid or to a visited cell has been

/// looked at.

proof fn lemma_search_skip(g: GridView, root: Pos, frames: Seq<Frame>, f: Frame)
    requires
        searching(g, root, frames),
        frames.len() > 0,
        frames.last().next < 4,
        f.cell == frames.last().cell,
        f.dirs == frames.last().dirs,
        f.next == frames.last().next + 1,
        tried(g, pos(f.cell), f.dirs@[f.next - 1]),
    ensures
        searching(g, root, frames.drop_last().push(f)),
{
    let t = frames.drop_last().push(f);
    assert(frame_ok(g, root, frames[frames.len() - 1]));
    assert forall|k: int| 0 <= k < t.len() implies frame_ok(g, root, #[trigger] t[k]) by {
        if k < t.len() - 1 {
            assert(t[k] == frames[k]);
        }
    }
    assert(frame_cells(t) =~= frame_cells(frames));
}

/// A carve into an unvisited neighbour, which gets a frame of its own,

/// keeps the state of the search and leaves fewer cells unvisited.

proof fn lemma_search_carve(
    g: GridView,
    root: Pos,
    frames: Seq<Frame>,
    f: Frame,
    fresh: Frame,
    p: Pole,
)
    requires
        searching(g, root, frames),
        frames.len() > 0,
        frames.last().next < 4,
        f.cell == frames.last().cell,
        f.dirs == frames.last().dirs,
        f.next == frames.last().next + 1,
        p == f.dirs@[f.next - 1],
        g.can_step(f.cell.0 as int, f.cell.1 as int, p),
        !g.visited(step(pos(f.cell), p).0, step(pos(f.cell), p).1),
        pos(fresh.cell) == step(pos(f.cell), p),
        fresh.next == 0,
        covers_compass(fresh.dirs@),
    ensures
        searching(
            g.carve(f.cell.0 as int, f.cell.1 as int, p),
            root,
            frames.drop_last().push(f).push(fresh),
        ),
        g.carve(f.cell.0 as int, f.cell.1 as int, p).unvisited_count() < g.unvisited_count(),
        g.carve(f.cell.0 as int, f.cell.1 as int, p).unvisited_count() >= 0,
{
    let u = pos(f.cell);
    let n = step(u, p);
    let h = g.carve(u.0, u.1, p);
    let t = frames.drop_last().push(f).push(fresh);
    assert(frame_ok(g, root, frames[frames.len() - 1]));
    lemma_grow(g, root, u, p);
    assert forall|k: int| 0 <= k < t.len() implies frame_ok(h, root, #[trigger] t[k]) by {
        if k < frames.len() - 1 {
            assert(t[k] == frames[k]);
            let fk = frames[k];
            assert(frame_ok(g, root, fk));
            assert(g.reaches(root, pos(fk.cell)));
            assert forall|j: int| 0 <= j < fk.next implies tried(
                h,
                pos(fk.cell),
                #[trigger] fk.dirs@[j],
            ) by {
                assert(tried(g, pos(fk.cell), fk.dirs@[j]));
            }
        } else if k == frames.len() - 1 {
            assert(t[k] == f);
            let last = frames.last();
            assert forall|j: int| 0 <= j < f.next implies tried(
                h,
                pos(f.cell),
                #[trigger] f.dirs@[j],
            ) by {
                if j < last.next {
                    assert(tried(g, pos(last.cell), last.dirs@[j]));
                }
            }
        } else {
            assert(t[k] == fresh);
        }
    }
    let cells = frame_cells(t);
    assert(cells =~= frame_cells(frames).push(fresh.cell));
    assert forall|c: Pos| #[trigger] in_tree(h, root, c) implies exhausted(h, c) || listed(
        cells,
        c,
    ) by {
        lemma_listed_push(frame_cells(frames), fresh.cell, c);
        if c == n {
        } else if c == u {
            assert(frame_cells(frames)[frames.len() - 1] == f.cell);
            assert(listed(frame_cells(frames), c));
        } else {
            assert(in_tree(g, root, c));
        }
    }
}

impl Algorithm for RecursiveBacktracking {
    open spec fn name_text(&self) -> Seq<char> {
        "RecursiveBacktracking"@
    }

    open spec fn supports_start(&self) -> bool {
        false
    }

    fn name(&self) -> (r: &'static str) {
        "RecursiveBacktracking"
    }

    fn has_start_coords(&self) -> (r: bool) {
        false
    }

    /// Starts in the top-left cell. From the current cell it looks at the
    /// directions in a random order, carves into the first neighbour that has
    /// not been visited and goes on from there; with no such neighbour it backs
    /// up. The way back is kept on a work list, so no deep call stack is
    /// needed.
    fn generate(&mut self, grid: &mut Grid, rng: &mut StdRng, start: Option<Coords>) {
        let ghost root = (0int, 0int);
        let w = grid.width();
        let h = grid.height();
        proof {
            lemma_fresh(w as int, h as int);
        }
        let mut frames: Vec<Frame> = Vec::new();
        let first = Frame { cell: (0, 0), dirs: shuffled_poles(rng), next: 0 };
        proof {
            lemma_search_start(grid@, first);
            lemma_unvisited_bounds(grid@);
        }
        frames.push(first);
        assert(frames@ =~= seq![first]);
        while frames.len() > 0
            invariant
                grid@.width == w,
                grid@.height == h,
                searching(grid@, root, frames@),
                grid@.unvisited_count() >= 0,
            decreases grid@.unvisited_count(), frames.len(), top_rest(frames@),
        {
            let ghost g = grid@;
            let ghost before = frames@;
            let mut frame = frames.pop().unwrap();
            assert(frame == before.last());
            assert(frames@ == before.drop_last());
            assert(frame_ok(g, root, before[before.len() - 1]));
            if frame.next >= 4 {
                proof {
                    lemma_search_pop(g, root, before);
                }
                continue ;
            }
            let p = frame.dirs[frame.next];
            frame.next = frame.next + 1;
            let c = frame.cell;
            let dir = Cell::from_pole(p);
            assert(dir@.pole() == Some(p));
            let mut found: Option<Coords> = None;
            if let Ok(n) = grid.get_next_cell_coords(c, dir) {
                if !grid.is_cell_visited(n) {
                    let _ = grid.carve_passage(c, dir);
                    found = Some(n);
                }
            }
            frames.push(frame);
            match found {
                Some(n) => {
                    let fresh = Frame { cell: n, dirs: shuffled_poles(rng), next: 0 };
                    proof {
                        lemma_search_carve(g, root, before, frame, fresh, p);
                    }
                    frames.push(fresh);
                },
                None => {
                    proof {
                        lemma_search_skip(g, root, before, frame);
                    }
                },
            }
        }
        proof {
            assert(frames@ =~= Seq::<Frame>::empty());
            assert forall|u: Pos| #[trigger] in_tree(grid@, root, u) implies exhausted(
                grid@,
                u,
            ) by {
                assert(!listed(frame_cells(frames@), u));
            }
            lemma_tree_complete(grid@, root);
        }
    }
}

} // verus!
