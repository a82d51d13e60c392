//! The "Binary Tree" algorithm.

use crate::algorithms::Algorithm;
use crate::cell::{Cell, CellView};
use crate::grid::{lemma_carve, lemma_fresh, Grid, GridView};
use crate::paths::{
    lemma_connected_from, lemma_linked_symmetric, lemma_reaches_self, lemma_reaches_step, step, Pos,
};
use crate::pole::Pole;
use crate::random::random_range;
use crate::types::Coords;
use rand::rngs::StdRng;
use vstd::prelude::*;

verus! {

/// The two sides of the maze towards which the "Binary Tree" algorithm carves.
/// Each of the two sides ends up spanned by one corridor.
#[derive(Debug, Copy, Clone, PartialEq, Eq, PartialOrd, Ord, Structural)]
pub enum Bias {
    /// Corridors along the northern and the western side.
    NorthWest,
    /// Corridors along the northern and the eastern side.
    NorthEast,
    /// Corridors along the southern and the western side.
    SouthWest,
    /// Corridors along the southern and the eastern side.
    SouthEast,
}

impl Bias {
    /// The vertical direction of the bias.
    pub open spec fn vertical(self) -> Pole {
        match self {
            Bias::NorthWest | Bias::NorthEast => Pole::N,
            Bias::SouthWest | Bias::SouthEast => Pole::S,
        }
    }

    /// The horizontal direction of the bias.
    pub open spec fn horizontal(self) -> Pole {
        match self {
            Bias::NorthWest | Bias::SouthWest => Pole::W,
            Bias::NorthEast | Bias::SouthEast => Pole::E,
        }
    }

    /// The directions in which the cell `(x, y)` of a grid may carve: the
    /// vertical one first, each only where it does not leave the grid.
    pub open spec fn dirs(self, g: GridView, x: int, y: int) -> Seq<Pole> {
        (if g.can_step(x, y, self.vertical()) {
            seq![self.vertical()]
        } else {
            Seq::<Pole>::empty()
        }) + (if g.can_step(x, y, self.horizontal()) {
            seq![self.horizontal()]
        } else {
            Seq::<Pole>::empty()
        })
    }

    /// How many steps separate the cell `c` from the corner of the bias.
    pub open spec fn potential(self, g: GridView, c: Pos) -> int {
        (match self.vertical() {
            Pole::N => c.1,
            _ => g.height - 1 - c.1,
        }) + (match self.horizontal() {
            Pole::W => c.0,
            _ => g.width - 1 - c.0,
        })
    }

    /// The corner of the bias.
    pub open spec fn corner(self, g: GridView) -> Pos {
        (
            match self.horizontal() {
                Pole::W => 0,
                _ => g.width - 1,
            },
            match self.vertical() {
                Pole::N => 0,
                _ => g.height - 1,
            },
        )
    }

    /// Whether the cell `c` has no passage in the directions of the bias.
    pub open spec fn closed_towards(self, g: GridView, c: Pos) -> bool {
        !g.open(c.0, c.1, self.vertical()) && !g.open(c.0, c.1, self.horizontal())
    }

    /// Whether the cell `c` comes before the cell `(x, y)` when the grid is
    /// read row by row.
    pub open spec fn done(c: Pos, x: int, y: int) -> bool {
        c.1 < y || (c.1 == y && c.0 < x)
    }

    /// The state of the work when the cells before `(x, y)` have carved: each
    /// of them but the corner has added one passage, and no other cell has a
    /// passage towards the bias yet.
    pub open spec fn progress(self, g: GridView, x: int, y: int) -> bool {
        &&& forall|d: Pos| g.holds(d) && Self::done(d, x, y) ==> #[trigger] self.settled(g, d)
        &&& forall|d: Pos|
            g.holds(d) && !Self::done(d, x, y) ==> #[trigger] self.closed_towards(g, d)
        &&& g.passage_count() == y * g.width + x - if Self::done(self.corner(g), x, y) {
            1int
        } else {
            0int
        }
    }

    /// Whether the cell `c` has a passage in one of its directions, or has no
    /// direction at all.
    pub open spec fn settled(self, g: GridView, c: Pos) -> bool {
        ||| (g.can_step(c.0, c.1, self.vertical()) && g.open(c.0, c.1, self.vertical()))
        ||| (g.can_step(c.0, c.1, self.horizontal()) && g.open(c.0, c.1, self.horizontal()))
        ||| (!g.can_step(c.0, c.1, self.vertical()) && !g.can_step(c.0, c.1, self.horizontal()))
    }
}

/// When every cell has carved towards the bias, the corner reaches every cell.
proof fn lemma_settled_reaches(bias: Bias, g: GridView, c: Pos)
    requires
        g.wf(),
        g.holds(c),
        forall|d: Pos| g.holds(d) ==> #[trigger] bias.settled(g, d),
    ensures
        g.reaches(bias.corner(g), c),
    decreases bias.potential(g, c),
{
    if bias.potential(g, c) == 0 {
        assert(c == bias.corner(g));
        lemma_reaches_self(g, g.whole(), c);
    } else {
        assert(bias.settled(g, c));
        let p = if g.can_step(c.0, c.1, bias.vertical()) && g.open(c.0, c.1, bias.vertical()) {
            bias.vertical()
        } else {
            bias.horizontal()
        };
        let n = step(c, p);
        assert(g.can_step(c.0, c.1, p) && g.open(c.0, c.1, p));
        assert(g.linked_by(c, n, p));
        lemma_linked_symmetric(g, c, n);
        lemma_settled_reaches(bias, g, n);
        lemma_reaches_step(g, g.whole(), bias.corner(g), n, c);
    }
}

/// A cell that carves towards the bias adds one passage and is settled.

proof fn lemma_progress_carve(bias: Bias, g: GridView, x: int, y: int, p: Pole)
    requires
        g.wf(),
        g.in_bounds(x, y),
        bias.progress(g, x, y),
        g.can_step(x, y, p),
        p == bias.vertical() || p == bias.horizontal(),
    ensures
        bias.progress(g.carve(x, y, p), x + 1, y),
{
    let h = g.carve(x, y, p);
    lemma_carve(g, x, y, p);
    crate::grid::lemma_carve_count(g, x, y, p);
    assert(bias.closed_towards(g, (x, y)));
    assert forall|d: Pos| h.holds(d) && Bias::done(d, x + 1, y) implies #[trigger] bias.settled(
        h,
        d,
    ) by {
        if d == (x, y) {
            assert(h.open(x, y, p));
        } else {
            assert(bias.settled(g, d));
        }
    }
    assert forall|d: Pos| h.holds(d) && !Bias::done(d, x + 1, y) implies #[trigger] bias.closed_towards(
        h,
        d,
    ) by {
        assert(bias.closed_towards(g, d));
    }
}

/// The one cell without a direction is the corner of the bias.

proof fn lemma_progress_skip(bias: Bias, g: GridView, x: int, y: int)
    requires
        g.wf(),
        g.in_bounds(x, y),
        bias.progress(g, x, y),
        !g.can_step(x, y, bias.vertical()),
        !g.can_step(x, y, bias.horizontal()),
    ensures
        bias.progress(g, x + 1, y),
{
    assert((x, y) == bias.corner(g));
    assert forall|d: Pos| g.holds(d) && Bias::done(d, x + 1, y) implies #[trigger] bias.settled(
        g,
        d,
    ) by {
        if d != (x, y) {
            assert(bias.settled(g, d));
        }
    }
    assert forall|d: Pos| g.holds(d) && !Bias::done(d, x + 1, y) implies #[trigger] bias.closed_towards(
        g,
        d,
    ) by {
        assert(bias.closed_towards(g, d));
    }
}

/// The "Binary Tree" algorithm: every cell carves one passage towards one of
/// the two sides of the bias. It keeps no state and looks at one cell at a
/// time.
pub struct BinaryTree {
    bias: Bias,
}

impl BinaryTree {
    /// Creates the algorithm with the given bias.
    pub fn new(bias: Bias) -> (r: BinaryTree)
        ensures
            r.bias() == bias,
    {
        BinaryTree { bias }
    }

    /// The bias of the algorithm.
    pub closed spec fn bias(&self) -> Bias {
        self.bias
    }

    /// Returns the directions in which a cell may carve: the vertical one of
    /// the bias first, each only where it does not leave the grid.
    pub fn populate_dirs(&self, coords: Coords, grid: &Grid) -> (r: Vec<Cell>)
        requires
            grid@.wf(),
            grid@.in_bounds(coords.0 as int, coords.1 as int),
        ensures
            r@.len() == self.bias().dirs(grid@, coords.0 as int, coords.1 as int).len(),
            forall|i: int|
                0 <= i < r@.len() ==> (#[trigger] r@[i])@ == CellView::only(
                    self.bias().dirs(grid@, coords.0 as int, coords.1 as int)[i],
                ),
    {
        let mut dirs: Vec<Cell> = Vec::new();
        let (x, y) = coords;
        let w = grid.width();
        let h = grid.height();
        match self.bias {
            Bias::NorthWest => {
                if y > 0 {
                    dirs.push(Cell::north());
                }
                if x > 0 {
                    dirs.push(Cell::west());
                }
            },
            Bias::NorthEast => {
                if y > 0 {
                    dirs.push(Cell::north());
                }
                if x + 1 < w {
                    dirs.push(Cell::east());
                }
            },
            Bias::SouthWest => {
                if y + 1 < h {
                    dirs.push(Cell::south());
                }
                if x > 0 {
                    dirs.push(Cell::west());
                }
            },
            Bias::SouthEast => {
                if y + 1 < h {
                    dirs.push(Cell::south());
                }
                if x + 1 < w {
                    dirs.push(Cell::east());
                }
            },
        }
        dirs
    }
}

impl Algorithm for BinaryTree {
    open spec fn name_text(&self) -> Seq<char> {
        "BinaryTree"@
    }

    open spec fn supports_start(&self) -> bool {
        false
    }

    fn name(&self) -> (r: &'static str) {
        "BinaryTree"
    }

    fn has_start_coords(&self) -> (r: bool) {
        false
    }

    /// Visits the cells row by row. Each cell picks one of its directions at
    /// random and carves there, so that afterwards every cell but the corner of
    /// the bias has a passage towards the bias.
    fn generate(&mut self, grid: &mut Grid, rng: &mut StdRng, start: Option<Coords>)
        ensures
            final(self).bias() == old(self).bias(),
            forall|c: Pos|
                final(grid)@.holds(c) ==> #[trigger] old(self).bias().settled(final(grid)@, c),
    {
        let ghost bias = self.bias;
        let w = grid.width();
        let h = grid.height();
        proof {
            lemma_fresh(w as int, h as int);
            assert(bias.progress(grid@, 0, 0)) by {
                assert forall|d: Pos| grid@.holds(d) implies #[trigger] bias.closed_towards(
                    grid@,
                    d,
                ) by {}
            }
        }
        let mut y: usize = 0;
        while y < h
            invariant
                self.bias == bias,
                grid@.wf(),
                grid@.width == w,
                grid@.height == h,
                y <= h,
                bias.progress(grid@, 0, y as int),
            decreases h - y,
        {
            let mut x: usize = 0;
            while x < w
                invariant
                    self.bias == bias,
                    grid@.wf(),
                    grid@.width == w,
                    grid@.height == h,
                    y < h,
                    x <= w,
                    bias.progress(grid@, x as int, y as int),
                decreases w - x,
            {
                let dirs = self.populate_dirs((x, y), grid);
                let ghost g = grid@;
                let ghost spec_dirs = bias.dirs(g, x as int, y as int);
                if dirs.len() > 0 {
                    let i = random_range(rng, 0, dirs.len());
                    let dir = dirs[i];
                    let ghost p = spec_dirs[i as int];
                    proof {
                        assert(dir@ == CellView::only(p));
                        assert(dir@.pole() == Some(p));
                        assert(g.can_step(x as int, y as int, p));
                        lemma_carve(g, x as int, y as int, p);
                        lemma_progress_carve(bias, g, x as int, y as int, p);
                    }
                    let _ = grid.carve_passage((x, y), dir);
                } else {
                    proof {
                        lemma_progress_skip(bias, g, x as int, y as int);
                    }
                }
                x += 1;
            }
            proof {
                let g = grid@;
                assert(y * w + w == (y + 1) * w) by (nonlinear_arith);
                assert forall|d: Pos| g.holds(d) implies Bias::done(d, w as int, y as int)
                    == Bias::done(d, 0, y + 1) by {}
                assert(g.holds(bias.corner(g)));
                assert(bias.progress(g, 0, y + 1));
            }
            y += 1;
        }
        proof {
            let g = grid@;
            assert forall|c: Pos| g.holds(c) implies #[trigger] g.reaches(bias.corner(g), c) by {
                lemma_settled_reaches(bias, g, c);
            }
            lemma_connected_from(g, bias.corner(g));
            assert(g.holds(bias.corner(g)));
            assert(h * w == w * h) by (nonlinear_arith);
        }
    }
}

} // verus!
