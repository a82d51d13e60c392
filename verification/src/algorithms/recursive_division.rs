//! The "Recursive Division" algorithm.

use crate::algorithms::Algorithm;
use crate::cell::Cell;
use crate::grid::{
    lemma_drain, lemma_drain_count, lemma_fresh, lemma_wall, lemma_wall_count, Grid, GridView,
};
use crate::paths::{
    distance, keeps_links, lemma_reaches_mono, lemma_reaches_self, lemma_reaches_step,
    lemma_reaches_sym, lemma_reaches_trans, step, towards, Pos, Rect,
};
use crate::pole::Pole;
use crate::random::{random_bool, random_range};
use crate::types::Coords;
use rand::rngs::StdRng;
use vstd::prelude::*;

verus! {

/// The way a region is cut in two.
#[derive(Debug, Copy, Clone, PartialEq, Eq, Structural)]
pub enum Orientation {
    /// A wall from west to east.
    Horizontal,
    /// A wall from north to south.
    Vertical,
}

/// The "Recursive Division" algorithm, the one generator that adds walls: it
/// starts from a grid without inner walls, cuts it in two with a wall that
/// has one gap, and does the same with both halves.
pub struct RecursiveDivision;

/// Whether every passage between two cells of the region is open.
pub open spec fn open_inside(g: GridView, r: Rect) -> bool {
    forall|c: Pos, p: Pole| r.has(c) && r.has(step(c, p)) ==> #[trigger] g.open(c.0, c.1, p)
}

/// Whether `h` differs from `g` at most in passages between two cells of the
/// region, and has no passage that `g` lacks.
pub open spec fn changed_inside(g: GridView, h: GridView, r: Rect) -> bool {
    &&& h.width == g.width
    &&& h.height == g.height
    &&& h.statuses == g.statuses
    &&& forall|c: Pos, p: Pole|
        g.holds(c) ==> (#[trigger] h.open(c.0, c.1, p) ==> g.open(c.0, c.1, p)) && (!(r.has(c)
            && r.has(step(c, p))) ==> h.open(c.0, c.1, p) == g.open(c.0, c.1, p))
}

/// Whether the passage from `c` towards `p` crosses a wall that runs behind
/// the line `at` from `lo` to `hi` and has its gap at `gap`.
pub open spec fn crosses(
    o: Orientation,
    at: int,
    gap: int,
    lo: int,
    hi: int,
    c: Pos,
    p: Pole,
) -> bool {
    match o {
        Orientation::Horizontal => lo <= c.0 < hi && c.0 != gap && ((c.1 == at && p == Pole::S)
            || (c.1 == at + 1 && p == Pole::N)),
        Orientation::Vertical => lo <= c.1 < hi && c.1 != gap && ((c.0 == at && p == Pole::E)
            || (c.0 == at + 1 && p == Pole::W)),
    }
}

/// Whether the passage that the wall crosses at the place `k` of its line is
/// open.
pub open spec fn line_open(g: GridView, o: Orientation, at: int, k: int) -> bool {
    match o {
        Orientation::Horizontal => g.open(k, at, Pole::S),
        Orientation::Vertical => g.open(at, k, Pole::E),
    }
}

/// The number of passages that the wall closes between the places `lo` and
/// `hi` of its line: the open ones, but for the gap.
pub open spec fn walls_put(g: GridView, o: Orientation, at: int, gap: int, lo: int, hi: int) -> int
    decreases hi - lo,
{
    if hi <= lo {
        0
    } else {
        walls_put(g, o, at, gap, lo, hi - 1) + if hi - 1 != gap && line_open(g, o, at, hi - 1) {
            1int
        } else {
            0int
        }
    }
}

/// A wall across open passages closes each of them but the one in its gap.
pub proof fn lemma_walls_put(g: GridView, o: Orientation, at: int, gap: int, lo: int, hi: int)
    requires
        lo <= hi,
        forall|k: int| lo <= k < hi ==> #[trigger] line_open(g, o, at, k),
    ensures
        walls_put(g, o, at, gap, lo, hi) == hi - lo - if lo <= gap < hi {
            1int
        } else {
            0int
        },
    decreases hi - lo,
{
    if hi > lo {
        lemma_walls_put(g, o, at, gap, lo, hi - 1);
        assert(line_open(g, o, at, hi - 1));
    }
}

/// Whether `h` is `g` with that wall put up.
pub open spec fn walled(
    g: GridView,
    h: GridView,
    o: Orientation,
    at: int,
    gap: int,
    lo: int,
    hi: int,
) -> bool {
    &&& h.wf()
    &&& h.width == g.width
    &&& h.height == g.height
    &&& h.statuses == g.statuses
    &&& forall|c: Pos, p: Pole|
        g.holds(c) ==> (#[trigger] h.open(c.0, c.1, p) <==> g.open(c.0, c.1, p) && !crosses(
            o,
            at,
            gap,
            lo,
            hi,
            c,
            p,
        ))
}

/// In a region without inner walls any two cells reach each other.
pub proof fn lemma_open_region(g: GridView, r: Rect, a: Pos, b: Pos)
    requires
        g.wf(),
        r.within(g.whole()),
        open_inside(g, r),
        r.has(a),
        r.has(b),
    ensures
        g.reaches_in(r, a, b),
    decreases distance(a, b),
{
    if a == b {
        lemma_reaches_self(g, r, a);
    } else {
        let q = towards(b, a);
        let m = step(b, q);
        assert(r.has(m));
        lemma_open_region(g, r, a, m);
        assert(step(m, q.spec_opposite()) == b);
        assert(g.open(m.0, m.1, q.spec_opposite()));
        assert(g.linked_by(m, b, q.spec_opposite()));
        lemma_reaches_step(g, r, a, m, b);
    }
}

/// Two connected halves with an open passage between them make a connected
/// region.
pub proof fn lemma_halves(g: GridView, r: Rect, top: Rect, bottom: Rect, u: Pos, p: Pole)
    requires
        g.wf(),
        r.within(g.whole()),
        top.within(r),
        bottom.within(r),
        forall|c: Pos| r.has(c) ==> top.has(c) || bottom.has(c),
        g.connected_in(top),
        g.connected_in(bottom),
        top.has(u),
        bottom.has(step(u, p)),
        g.open(u.0, u.1, p),
    ensures
        g.connected_in(r),
{
    let v = step(u, p);
    assert(g.linked_by(u, v, p));
    assert forall|a: Pos, b: Pos|
        g.holds(a) && r.has(a) && g.holds(b) && r.has(b) implies #[trigger] g.reaches_in(
        r,
        a,
        b,
    ) by {
        if top.has(a) && top.has(b) {
            assert(g.reaches_in(top, a, b));
            lemma_reaches_mono(g, g, top, r, a, b);
        } else if bottom.has(a) && bottom.has(b) {
            assert(g.reaches_in(bottom, a, b));
            lemma_reaches_mono(g, g, bottom, r, a, b);
        } else if top.has(a) {
            assert(g.reaches_in(top, a, u));
            assert(g.reaches_in(bottom, v, b));
            lemma_reaches_mono(g, g, top, r, a, u);
            lemma_reaches_mono(g, g, bottom, r, v, b);
            lemma_reaches_step(g, r, a, u, v);
            lemma_reaches_trans(g, r, a, v, b);
        } else {
            assert(g.reaches_in(top, b, u));
            assert(g.reaches_in(bottom, v, a));
            lemma_reaches_mono(g, g, top, r, b, u);
            lemma_reaches_mono(g, g, bottom, r, v, a);
            lemma_reaches_step(g, r, b, u, v);
            lemma_reaches_trans(g, r, b, v, a);
            lemma_reaches_sym(g, r, b, a);
        }
    }
}

/// A region that is connected stays connected when the grid changes only
/// elsewhere.
pub proof fn lemma_region_kept(g: GridView, h: GridView, r: Rect, other: Rect)
    requires
        g.wf(),
        r.within(g.whole()),
        g.connected_in(r),
        changed_inside(g, h, other),
        forall|c: Pos| !(r.has(c) && other.has(c)),
    ensures
        h.connected_in(r),
{
    assert(keeps_links(g, h, r));
    assert forall|a: Pos, b: Pos|
        h.holds(a) && r.has(a) && h.holds(b) && r.has(b) implies #[trigger] h.reaches_in(
        r,
        a,
        b,
    ) by {
        assert(g.reaches_in(r, a, b));
        lemma_reaches_mono(g, h, r, r, a, b);
    }
}

/// Decides which way a region of the given size is cut: across its longer
/// side, and at random when it is square.
pub fn choose_orientation(width: usize, height: usize, rng: &mut StdRng) -> (r: Orientation)
    ensures
        width < height ==> r == Orientation::Horizontal,
        height < width ==> r == Orientation::Vertical,
{
    if width < height {
        return Orientation::Horizontal;
    }
    if height < width {
        return Orientation::Vertical;
    }
    if !random_bool(rng) {
        Orientation::Horizontal
    } else {
        Orientation::Vertical
    }
}

/// Puts up a wall with one gap. A horizontal wall runs below the row `at`
/// from the column `lo` to the column `hi`; a vertical wall runs east of the
/// column `at` from the row `lo` to the row `hi`.
pub fn build_wall(grid: &mut Grid, o: Orientation, at: usize, gap: usize, lo: usize, hi: usize)
    requires
        old(grid)@.wf(),
        lo <= hi,
        match o {
            Orientation::Horizontal => hi < old(grid)@.width && at + 1 < old(grid)@.height,
            Orientation::Vertical => hi < old(grid)@.height && at + 1 < old(grid)@.width,
        },
    ensures
        walled(old(grid)@, final(grid)@, o, at as int, gap as int, lo as int, hi + 1),
        final(grid)@.passage_count() == old(grid)@.passage_count() - walls_put(
            old(grid)@,
            o,
            at as int,
            gap as int,
            lo as int,
            hi + 1,
        ),
{
    let ghost g = grid@;
    let width = grid.width();
    let height = grid.height();
    let mut k: usize = lo;
    while k <= hi
        invariant
            g == old(grid)@,
            g.wf(),
            lo <= k <= hi + 1,
            hi < usize::MAX,
            match o {
                Orientation::Horizontal => hi < g.width && at + 1 < g.height,
                Orientation::Vertical => hi < g.height && at + 1 < g.width,
            },
            walled(g, grid@, o, at as int, gap as int, lo as int, k as int),
            grid@.passage_count() == g.passage_count() - walls_put(
                g,
                o,
                at as int,
                gap as int,
                lo as int,
                k as int,
            ),
        decreases hi + 1 - k,
    {
        if k != gap {
            let ghost before = grid@;
            match o {
                Orientation::Horizontal => {
                    proof {
                        lemma_wall(before, k as int, at as int, Pole::S);
                        lemma_wall_count(before, k as int, at as int, Pole::S);
                        assert(before.open(k as int, at as int, Pole::S) == g.open(
                            k as int,
                            at as int,
                            Pole::S,
                        )) by {
                            let c = (k as int, at as int);
                            assert(before.open(c.0, c.1, Pole::S) == g.open(c.0, c.1, Pole::S));
                        }
                    }
                    let _ = grid.add_wall((k, at), Cell::south());
                    assert(grid@ == before.wall(k as int, at as int, Pole::S));
                },
                Orientation::Vertical => {
                    proof {
                        lemma_wall(before, at as int, k as int, Pole::E);
                        lemma_wall_count(before, at as int, k as int, Pole::E);
                        assert(before.open(at as int, k as int, Pole::E) == g.open(
                            at as int,
                            k as int,
                            Pole::E,
                        )) by {
                            let c = (at as int, k as int);
                            assert(before.open(c.0, c.1, Pole::E) == g.open(c.0, c.1, Pole::E));
                        }
                    }
                    let _ = grid.add_wall((at, k), Cell::east());
                    assert(grid@ == before.wall(at as int, k as int, Pole::E));
                },
            }
        }
        k += 1;
    }
}

impl RecursiveDivision {
    /// Divides the region between the cells `(x, y)` and `(ax, ay)`. A region
    /// less than two cells wide or high stays as it is. Any other is cut in two
    /// by a wall with one gap, both placed at random, and the two halves are
    /// divided in turn.
    pub fn divide(grid: &mut Grid, rng: &mut StdRng, x: usize, y: usize, ax: usize, ay: usize)
        requires
            old(grid)@.wf(),
            x <= ax < old(grid)@.width,
            y <= ay < old(grid)@.height,
            open_inside(
                old(grid)@,
                Rect { x0: x as int, y0: y as int, x1: ax as int, y1: ay as int },
            ),
        ensures
            final(grid)@.wf(),
            changed_inside(
                old(grid)@,
                final(grid)@,
                Rect { x0: x as int, y0: y as int, x1: ax as int, y1: ay as int },
            ),
            final(grid)@.connected_in(
                Rect { x0: x as int, y0: y as int, x1: ax as int, y1: ay as int },
            ),
            final(grid)@.passage_count() == old(grid)@.passage_count() - (ax - x) * (ay - y),
        decreases (ax - x) + (ay - y),
    {
        let ghost g = grid@;
        let ghost r = Rect { x0: x as int, y0: y as int, x1: ax as int, y1: ay as int };
        let width = grid.width();
        let height = grid.height();
        let w = ax - x + 1;
        let h = ay - y + 1;
        if w < 2 || h < 2 {
            proof {
                assert forall|a: Pos, b: Pos|
                    g.holds(a) && r.has(a) && g.holds(b) && r.has(b) implies #[trigger] g.reaches_in(
                    r,
                    a,
                    b,
                ) by {
                    lemma_open_region(g, r, a, b);
                }
                assert((ax - x) * (ay - y) == 0) by (nonlinear_arith)
                    requires
                        ax - x == 0 || ay - y == 0,
                ;
            }
            return ;
        }
        let orientation = choose_orientation(w, h, rng);
        let px = random_range(rng, x, ax);
        let py = random_range(rng, y, ay);
        match orientation {
            Orientation::Horizontal => {
                let ghost top = Rect { x0: x as int, y0: y as int, x1: ax as int, y1: py as int };
                let ghost bottom = Rect { x0: x as int, y0: py + 1, x1: ax as int, y1: ay as int };
                proof {
                    assert forall|k: int| x <= k < ax + 1 implies #[trigger] line_open(
                        g,
                        orientation,
                        py as int,
                        k,
                    ) by {
                        let c = (k, py as int);
                        assert(r.has(c) && r.has(step(c, Pole::S)));
                        assert(g.open(c.0, c.1, Pole::S));
                    }
                    lemma_walls_put(g, orientation, py as int, px as int, x as int, ax + 1);
                    assert((ax - x) + (ax - x) * (py - y) + (ax - x) * (ay - (py + 1)) == (ax - x)
                        * (ay - y)) by (nonlinear_arith);
                }
                build_wall(grid, orientation, py, px, x, ax);
                let ghost g1 = grid@;
                assert(open_inside(g1, top));
                assert(open_inside(g1, bottom));
                assert(changed_inside(g, g1, r));
                RecursiveDivision::divide(grid, rng, x, y, ax, py);
                let ghost g2 = grid@;
                assert(open_inside(g2, bottom));
                RecursiveDivision::divide(grid, rng, x, py + 1, ax, ay);
                proof {
                    let g3 = grid@;
                    lemma_region_kept(g2, g3, top, bottom);
                    let u = (px as int, py as int);
                    assert(r.has(u) && r.has(step(u, Pole::S)));
                    assert(g.open(u.0, u.1, Pole::S));
                    assert(g1.open(u.0, u.1, Pole::S));
                    assert(g2.open(u.0, u.1, Pole::S));
                    assert(g3.open(u.0, u.1, Pole::S));
                    lemma_halves(g3, r, top, bottom, (px as int, py as int), Pole::S);
                    assert(changed_inside(g, g3, r));
                }
            },
            Orientation::Vertical => {
                let ghost left = Rect { x0: x as int, y0: y as int, x1: px as int, y1: ay as int };
                let ghost right = Rect { x0: px + 1, y0: y as int, x1: ax as int, y1: ay as int };
                proof {
                    assert forall|k: int| y <= k < ay + 1 implies #[trigger] line_open(
                        g,
                        orientation,
                        px as int,
                        k,
                    ) by {
                        let c = (px as int, k);
                        assert(r.has(c) && r.has(step(c, Pole::E)));
                        assert(g.open(c.0, c.1, Pole::E));
                    }
                    lemma_walls_put(g, orientation, px as int, py as int, y as int, ay + 1);
                    assert((ay - y) + (px - x) * (ay - y) + (ax - (px + 1)) * (ay - y) == (ax - x)
                        * (ay - y)) by (nonlinear_arith);
                }
                build_wall(grid, orientation, px, py, y, ay);
                let ghost g1 = grid@;
                assert(open_inside(g1, left));
                assert(open_inside(g1, right));
                assert(changed_inside(g, g1, r));
                RecursiveDivision::divide(grid, rng, x, y, px, ay);
                let ghost g2 = grid@;
                assert(open_inside(g2, right));
                RecursiveDivision::divide(grid, rng, px + 1, y, ax, ay);
                proof {
                    let g3 = grid@;
                    lemma_region_kept(g2, g3, left, right);
                    let u = (px as int, py as int);
                    assert(r.has(u) && r.has(step(u, Pole::E)));
                    assert(g.open(u.0, u.1, Pole::E));
                    assert(g1.open(u.0, u.1, Pole::E));
                    assert(g2.open(u.0, u.1, Pole::E));
                    assert(g3.open(u.0, u.1, Pole::E));
                    lemma_halves(g3, r, left, right, (px as int, py as int), Pole::E);
                    assert(changed_inside(g, g3, r));
                }
            },
        }
    }
}

impl Algorithm for RecursiveDivision {
    open spec fn name_text(&self) -> Seq<char> {
        "RecursiveDivision"@
    }

    open spec fn supports_start(&self) -> bool {
        false
    }

    fn name(&self) -> (r: &'static str) {
        "RecursiveDivision"
    }

    fn has_start_coords(&self) -> (r: bool) {
        false
    }

    /// Opens every passage between two cells of the grid and divides the
    /// whole grid.
    fn generate(&mut self, grid: &mut Grid, rng: &mut StdRng, start: Option<Coords>) {
        let w = grid.width();
        let h = grid.height();
        proof {
            lemma_fresh(w as int, h as int);
            lemma_drain(grid@);
            lemma_drain_count(grid@);
            assert(2 * w * h - w - h - (w - 1) * (h - 1) == w * h - 1) by (nonlinear_arith);
        }
        grid.drain();
        RecursiveDivision::divide(grid, rng, 0, 0, w - 1, h - 1);
        proof {
            let g = grid@;
            assert(g.whole() == Rect { x0: 0, y0: 0, x1: w - 1, y1: h - 1 });
            assert forall|c: Pos| g.holds(c) implies #[trigger] g.reaches((0, 0), c) by {
                assert(g.reaches_in(g.whole(), (0, 0), c));
            }
        }
    }
}

} // verus!
