//! The grid: a dense, row-major rectangle of cells that only ever changes
//! through symmetric carve and wall operations.

use crate::cell::{Cell, CellStatus, CellView};
use crate::errors::{boundary_reason, TransitError};
use crate::pole::Pole;
use crate::types::Coords;
use vstd::prelude::*;

verus! {

/// The mathematical content of a [`Grid`].
pub struct GridView {
    pub width: int,
    pub height: int,
    /// The passages of each cell, row by row.
    pub cells: Seq<CellView>,
    /// The flags of each cell, row by row.
    pub statuses: Seq<CellStatus>,
}

/// The number of `true` entries of a sequence of flags.
pub open spec fn count_true(s: Seq<bool>) -> int
    decreases s.len(),
{
    if s.len() == 0 {
        0
    } else {
        count_true(s.drop_last()) + if s.last() {
            1int
        } else {
            0int
        }
    }
}

/// A count lies between zero and the length.
pub proof fn lemma_count_bounds(s: Seq<bool>)
    ensures
        0 <= count_true(s) <= s.len(),
    decreases s.len(),
{
    if s.len() > 0 {
        lemma_count_bounds(s.drop_last());
    }
}

/// When every entry is counted, every entry is set.
pub proof fn lemma_count_full(s: Seq<bool>)
    requires
        count_true(s) == s.len(),
    ensures
        forall|i: int| 0 <= i < s.len() ==> s[i],
    decreases s.len(),
{
    if s.len() > 0 {
        lemma_count_bounds(s.drop_last());
        lemma_count_full(s.drop_last());
        assert forall|i: int| 0 <= i < s.len() implies s[i] by {
            if i < s.len() - 1 {
                assert(s.drop_last()[i] == s[i]);
            }
        }
    }
}

/// A count of zero leaves no entry set; one entry set makes the count
/// positive.
pub proof fn lemma_count_zero(s: Seq<bool>)
    ensures
        count_true(s) == 0 <==> forall|i: int| 0 <= i < s.len() ==> !#[trigger] s[i],
    decreases s.len(),
{
    if s.len() > 0 {
        lemma_count_zero(s.drop_last());
        lemma_count_bounds(s.drop_last());
        if count_true(s) == 0 {
            assert forall|i: int| 0 <= i < s.len() implies !#[trigger] s[i] by {
                if i < s.len() - 1 {
                    assert(s.drop_last()[i] == s[i]);
                }
            }
        }
        if forall|i: int| 0 <= i < s.len() ==> !#[trigger] s[i] {
            assert forall|i: int| 0 <= i < s.drop_last().len() implies !#[trigger] s.drop_last()[i] by {
                assert(s.drop_last()[i] == s[i]);
            }
        }
    }
}

/// When every entry is set, every entry is counted; when none is, the count is zero.
pub proof fn lemma_count_uniform(s: Seq<bool>, b: bool)
    requires
        forall|i: int| 0 <= i < s.len() ==> s[i] == b,
    ensures
        count_true(s) == if b {
            s.len() as int
        } else {
            0
        },
    decreases s.len(),
{
    if s.len() > 0 {
        assert forall|i: int| 0 <= i < s.drop_last().len() implies s.drop_last()[i] == b by {
            assert(s.drop_last()[i] == s[i]);
        }
        lemma_count_uniform(s.drop_last(), b);
    }
}

/// Changing one entry changes the count by that entry alone.
pub proof fn lemma_count_update(s: Seq<bool>, i: int, b: bool)
    requires
        0 <= i < s.len(),
    ensures
        count_true(s.update(i, b)) == count_true(s) - (if s[i] {
            1int
        } else {
            0int
        }) + (if b {
            1int
        } else {
            0int
        }),
    decreases s.len(),
{
    let t = s.update(i, b);
    if i == s.len() - 1 {
        assert(t.drop_last() =~= s.drop_last());
    } else {
        assert(t.drop_last() =~= s.drop_last().update(i, b));
        lemma_count_update(s.drop_last(), i, b);
    }
}

/// What a cell adds to the number of passages: each passage is counted at
/// its northern or western end, that is, as the southern or eastern passage
/// of a cell.
pub open spec fn south_east(c: CellView) -> int {
    (if c.south {
        1int
    } else {
        0int
    }) + (if c.east {
        1int
    } else {
        0int
    })
}

/// The number of southern and eastern passages of the cells.
pub open spec fn count_passages(cells: Seq<CellView>) -> int
    decreases cells.len(),
{
    if cells.len() == 0 {
        0
    } else {
        count_passages(cells.drop_last()) + south_east(cells.last())
    }
}

/// Changing one cell changes the number of passages by that cell alone.
pub proof fn lemma_passages_update(cells: Seq<CellView>, i: int, c: CellView)
    requires
        0 <= i < cells.len(),
    ensures
        count_passages(cells.update(i, c)) == count_passages(cells) - south_east(cells[i])
            + south_east(c),
    decreases cells.len(),
{
    let t = cells.update(i, c);
    if i == cells.len() - 1 {
        assert(t.drop_last() =~= cells.drop_last());
    } else {
        assert(t.drop_last() =~= cells.drop_last().update(i, c));
        lemma_passages_update(cells.drop_last(), i, c);
    }
}

/// Cells without southern and eastern passages add nothing to the number.
pub proof fn lemma_passages_none(cells: Seq<CellView>)
    requires
        forall|i: int| 0 <= i < cells.len() ==> south_east(#[trigger] cells[i]) == 0,
    ensures
        count_passages(cells) == 0,
    decreases cells.len(),
{
    if cells.len() > 0 {
        assert forall|i: int| 0 <= i < cells.drop_last().len() implies south_east(
            #[trigger] cells.drop_last()[i],
        ) == 0 by {
            assert(cells.drop_last()[i] == cells[i]);
        }
        lemma_passages_none(cells.drop_last());
    }
}

/// A cell of a `width` by `height` grid has its index within `width * height`.
pub proof fn lemma_index_bounds(width: int, height: int, x: int, y: int)
    requires
        0 <= x < width,
        0 <= y < height,
    ensures
        0 <= y * width + x < width * height,
{
    assert(0 <= y * width && y * width + width <= height * width) by (nonlinear_arith)
        requires
            0 <= y < height,
            0 < width,
    ;
    assert(height * width == width * height) by (nonlinear_arith);
}

/// Two cells of a grid with the same index are the same cell.
pub proof fn lemma_index_injective(width: int, x1: int, y1: int, x2: int, y2: int)
    requires
        0 <= x1 < width,
        0 <= x2 < width,
        y1 * width + x1 == y2 * width + x2,
    ensures
        x1 == x2,
        y1 == y2,
{
    assert(y1 == y2) by (nonlinear_arith)
        requires
            0 <= x1 < width,
            0 <= x2 < width,
            y1 * width + x1 == y2 * width + x2,
    ;
}

/// Every index below `width * height` is the index of a cell of the grid.
pub proof fn lemma_cell_of_index(width: int, height: int, k: int)
    requires
        width >= 1,
        0 <= k < width * height,
    ensures
        0 <= k % width < width,
        0 <= k / width < height,
        (k / width) * width + k % width == k,
{
    vstd::arithmetic::div_mod::lemma_fundamental_div_mod(k, width);
    vstd::arithmetic::div_mod::lemma_mod_bound(k, width);
    let q = k / width;
    assert(width * q == q * width) by (nonlinear_arith);
    assert(0 <= q < height) by (nonlinear_arith)
        requires
            width >= 1,
            0 <= k < width * height,
            k == q * width + k % width,
            0 <= k % width < width,
    ;
}

impl GridView {
    /// Whether `(x, y)` names a cell of the grid.
    pub open spec fn in_bounds(self, x: int, y: int) -> bool {
        0 <= x < self.width && 0 <= y < self.height
    }

    /// The place of cell `(x, y)` in row-major order.
    pub open spec fn index(self, x: int, y: int) -> int {
        y * self.width + x
    }

    /// The passages of cell `(x, y)`.
    pub open spec fn cell(self, x: int, y: int) -> CellView {
        self.cells[self.index(x, y)]
    }

    /// Whether cell `(x, y)` has an open passage towards `p`.
    pub open spec fn open(self, x: int, y: int, p: Pole) -> bool {
        self.cell(x, y).has(p)
    }

    /// Whether a carve has touched cell `(x, y)`.
    pub open spec fn visited(self, x: int, y: int) -> bool {
        self.statuses[self.index(x, y)].visited
    }

    /// Whether the scratch flag of cell `(x, y)` is set.
    pub open spec fn marked(self, x: int, y: int) -> bool {
        self.statuses[self.index(x, y)].marked
    }

    /// Whether `(x, y)` is a cell that has a neighbour towards `p`.
    pub open spec fn can_step(self, x: int, y: int, p: Pole) -> bool {
        self.in_bounds(x, y) && self.in_bounds(x + p.spec_dir_x(), y + p.spec_dir_y())
    }

    /// The visited flags, row by row.
    pub open spec fn visited_flags(self) -> Seq<bool> {
        self.statuses.map_values(|s: CellStatus| s.visited)
    }

    /// The scratch flags, row by row.
    pub open spec fn marked_flags(self) -> Seq<bool> {
        self.statuses.map_values(|s: CellStatus| s.marked)
    }

    /// The number of cells that no carve has touched.
    pub open spec fn unvisited_count(self) -> int {
        self.statuses.len() - count_true(self.visited_flags())
    }

    /// The number of passages between cells. In a valid grid every passage is
    /// the southern or the eastern passage of exactly one cell.
    pub open spec fn passage_count(self) -> int {
        count_passages(self.cells)
    }

    /// Whether the grid is a spanning tree: connected, and with one passage
    /// less than it has cells, so that no passage closes a cycle.
    pub open spec fn spanning_tree(self) -> bool {
        self.connected() && self.passage_count() == self.width * self.height - 1
    }

    /// The number of cells whose scratch flag is not set.
    pub open spec fn unmarked_count(self) -> int {
        self.statuses.len() - count_true(self.marked_flags())
    }

    /// The validity of a grid: it has at least one cell, stores one entry per
    /// cell, and every passage is open from both sides. The last part implies
    /// that no passage leads out of the grid.
    pub open spec fn wf(self) -> bool {
        &&& self.width >= 1
        &&& self.height >= 1
        &&& self.cells.len() == self.width * self.height
        &&& self.statuses.len() == self.width * self.height
        &&& forall|x: int, y: int, p: Pole|
            self.in_bounds(x, y) && #[trigger] self.open(x, y, p) ==> self.mirrored(x, y, p)
    }

    /// Whether cell `(x, y)` has a neighbour towards `p` whose passage back
    /// is open.
    pub open spec fn mirrored(self, x: int, y: int, p: Pole) -> bool {
        self.in_bounds(x + p.spec_dir_x(), y + p.spec_dir_y()) && self.cell(
            x + p.spec_dir_x(),
            y + p.spec_dir_y(),
        ).has(p.spec_opposite())
    }

    /// The grid of the given size in which every cell is walled on all four
    /// sides and untouched.
    pub open spec fn fresh(width: int, height: int) -> GridView {
        GridView {
            width,
            height,
            cells: Seq::new((width * height) as nat, |i: int| CellView::blocked()),
            statuses: Seq::new(
                (width * height) as nat,
                |i: int| CellStatus { visited: false, marked: false },
            ),
        }
    }

    /// The passages of cell `(x, y)` when every passage between two cells of
    /// the grid is open.
    pub open spec fn edge_cell(self, x: int, y: int) -> CellView {
        CellView {
            north: y > 0,
            south: y < self.height - 1,
            west: x > 0,
            east: x < self.width - 1,
        }
    }

    /// The grid after a reset that opens every passage between two cells of
    /// the grid. The outer walls stand, and the flags stay as they are.
    pub open spec fn drain(self) -> GridView {
        GridView {
            width: self.width,
            height: self.height,
            cells: Seq::new(
                self.cells.len(),
                |i: int| self.edge_cell(i % self.width, i / self.width),
            ),
            statuses: self.statuses,
        }
    }

    /// The grid after the passage from `(x, y)` towards `p` has been opened
    /// from both sides and both cells have been recorded as visited.
    pub open spec fn carve(self, x: int, y: int, p: Pole) -> GridView {
        let i = self.index(x, y);
        let j = self.index(x + p.spec_dir_x(), y + p.spec_dir_y());
        GridView {
            width: self.width,
            height: self.height,
            cells: self.cells.update(i, self.cells[i].union(CellView::only(p))).update(
                j,
                self.cells.update(i, self.cells[i].union(CellView::only(p)))[j].union(
                    CellView::only(p.spec_opposite()),
                ),
            ),
            statuses: self.statuses.update(
                i,
                CellStatus { visited: true, marked: self.statuses[i].marked },
            ).update(
                j,
                CellStatus {
                    visited: true,
                    marked: self.statuses.update(
                        i,
                        CellStatus { visited: true, marked: self.statuses[i].marked },
                    )[j].marked,
                },
            ),
        }
    }

    /// The grid after the passage from `(x, y)` towards `p` has been closed
    /// from both sides.
    pub open spec fn wall(self, x: int, y: int, p: Pole) -> GridView {
        let i = self.index(x, y);
        let j = self.index(x + p.spec_dir_x(), y + p.spec_dir_y());
        GridView {
            width: self.width,
            height: self.height,
            cells: self.cells.update(i, self.cells[i].difference(CellView::only(p))).update(
                j,
                self.cells.update(i, self.cells[i].difference(CellView::only(p)))[j].difference(
                    CellView::only(p.spec_opposite()),
                ),
            ),
            statuses: self.statuses,
        }
    }

    /// The grid after cell `(x, y)` has been recorded as visited.
    pub open spec fn visit(self, x: int, y: int) -> GridView {
        let i = self.index(x, y);
        GridView {
            width: self.width,
            height: self.height,
            cells: self.cells,
            statuses: self.statuses.update(
                i,
                CellStatus { visited: true, marked: self.statuses[i].marked },
            ),
        }
    }

    /// The grid after the scratch flag of cell `(x, y)` has been set.
    pub open spec fn mark(self, x: int, y: int) -> GridView {
        let i = self.index(x, y);
        GridView {
            width: self.width,
            height: self.height,
            cells: self.cells,
            statuses: self.statuses.update(
                i,
                CellStatus { visited: self.statuses[i].visited, marked: true },
            ),
        }
    }

    /// Whether the two grids have the same size and the same passages.
    pub open spec fn same_passages(self, other: GridView) -> bool {
        self.width == other.width && self.height == other.height && self.cells == other.cells
    }

    /// What a move from `(x, y)` in the direction `d` leads to: the neighbour,
    /// or `None` where the move would leave the grid. A `d` that is not a single
    /// direction stands for no move at all.
    pub open spec fn next(self, x: int, y: int, d: CellView) -> Option<(int, int)> {
        match d.pole() {
            Some(p) => if self.can_step(x, y, p) {
                Some((x + p.spec_dir_x(), y + p.spec_dir_y()))
            } else {
                None
            },
            None => Some((x, y)),
        }
    }

    /// Whether a move from `(x, y)` in the direction `d` would leave the grid:
    /// towards the north from the first row, towards the south from the last
    /// row, towards the west from the first column, or towards the east from
    /// the last column.
    pub open spec fn leaves(self, x: int, y: int, d: CellView) -> bool {
        match d.pole() {
            Some(Pole::N) => y == 0,
            Some(Pole::S) => y == self.height - 1,
            Some(Pole::W) => x == 0,
            Some(Pole::E) => x == self.width - 1,
            None => false,
        }
    }

    /// The grid after a carve from `(x, y)` in the direction `d`. A `d` that is
    /// not a single direction opens nothing, but the cell still counts as
    /// visited.
    pub open spec fn carve_towards(self, x: int, y: int, d: CellView) -> GridView {
        match d.pole() {
            Some(p) => if self.can_step(x, y, p) {
                self.carve(x, y, p)
            } else {
                self
            },
            None => self.visit(x, y),
        }
    }

    /// The grid after a wall has been put up at `(x, y)` in the direction `d`.
    pub open spec fn wall_towards(self, x: int, y: int, d: CellView) -> GridView {
        match d.pole() {
            Some(p) => if self.can_step(x, y, p) {
                self.wall(x, y, p)
            } else {
                self
            },
            None => self,
        }
    }
}

/// A fresh grid is valid, has no passage and no visited or marked cell.
pub proof fn lemma_fresh(width: int, height: int)
    requires
        width >= 1,
        height >= 1,
    ensures
        GridView::fresh(width, height).wf(),
        GridView::fresh(width, height).unvisited_count() == width * height,
        GridView::fresh(width, height).unmarked_count() == width * height,
        GridView::fresh(width, height).passage_count() == 0,
        forall|x: int, y: int, p: Pole|
            GridView::fresh(width, height).in_bounds(x, y) ==> !#[trigger] GridView::fresh(
                width,
                height,
            ).open(x, y, p),
        forall|x: int, y: int|
            GridView::fresh(width, height).in_bounds(x, y) ==> !#[trigger] GridView::fresh(
                width,
                height,
            ).visited(x, y),
        forall|x: int, y: int|
            GridView::fresh(width, height).in_bounds(x, y) ==> !#[trigger] GridView::fresh(
                width,
                height,
            ).marked(x, y),
{
    let g = GridView::fresh(width, height);
    assert(width * height >= 1) by (nonlinear_arith)
        requires
            width >= 1,
            height >= 1,
    ;
    assert forall|x: int, y: int| g.in_bounds(x, y) implies 0 <= g.index(x, y) < width
        * height by {
        lemma_index_bounds(width, height, x, y);
    }
    lemma_count_uniform(g.visited_flags(), false);
    lemma_count_uniform(g.marked_flags(), false);
    lemma_passages_none(g.cells);
}

/// The number of passages of the first `n` cells of a grid, read row by
/// row, in which every passage between two cells is open: the eastern
/// passages, and the southern passages of all rows but the last.
pub open spec fn drained_passages(width: int, height: int, n: int) -> int {
    let y = n / width;
    let x = n % width;
    y * (width - 1) + x + if y < height - 1 {
        y * width + x
    } else {
        (height - 1) * width
    }
}

/// The first `n` cells of a drained grid have the passages that the formula

/// gives.

proof fn lemma_drained_prefix(g: GridView, n: int)
    requires
        g.wf(),
        0 <= n <= g.width * g.height,
    ensures
        count_passages(g.drain().cells.subrange(0, n)) == drained_passages(g.width, g.height, n),
    decreases n,
{
    let cells = g.drain().cells;
    let w = g.width;
    let h = g.height;
    if n == 0 {
        vstd::arithmetic::div_mod::lemma_fundamental_div_mod_converse(0, w, 0, 0);
        assert(0 * (w - 1) == 0 && 0 * w == 0 && (h - 1) * w >= 0) by (nonlinear_arith)
            requires
                h >= 1,
                w >= 1,
        ;
    } else {
        lemma_drained_prefix(g, n - 1);
        let k = n - 1;
        let y = k / w;
        let x = k % w;
        lemma_cell_of_index(w, h, k);
        assert(cells.subrange(0, n).drop_last() =~= cells.subrange(0, k));
        assert(cells.subrange(0, n).last() == cells[k]);
        assert(cells[k] == g.edge_cell(x, y));
        assert((y + 1) * (w - 1) == y * (w - 1) + (w - 1) && (y + 1) * w == y * w + w)
            by (nonlinear_arith);
        if x + 1 < w {
            vstd::arithmetic::div_mod::lemma_fundamental_div_mod_converse(n, w, y, x + 1);
        } else {
            vstd::arithmetic::div_mod::lemma_fundamental_div_mod_converse(n, w, y + 1, 0);
            if y + 1 == h - 1 {
                assert((y + 1) * w == (h - 1) * w);
            }
            if y == h - 1 {
                assert(y * w == (h - 1) * w);
            }
        }
    }
}

/// A grid in which every passage between two cells is open has two
/// passages for each cell, less those that the borders take.
pub proof fn lemma_drain_count(g: GridView)
    requires
        g.wf(),
    ensures
        g.drain().passage_count() == 2 * g.width * g.height - g.width - g.height,
{
    let w = g.width;
    let h = g.height;
    let n = w * h;
    lemma_drained_prefix(g, n);
    assert(g.drain().cells.subrange(0, n) =~= g.drain().cells);
    assert(n == h * w + 0) by (nonlinear_arith)
        requires
            n == w * h,
    ;
    vstd::arithmetic::div_mod::lemma_fundamental_div_mod_converse(n, w, h, 0);
    assert(h * (w - 1) + (h - 1) * w == 2 * w * h - w - h) by (nonlinear_arith);
}

/// A drained grid is valid, and a passage of it is open exactly where the
/// grid has a neighbour.
pub proof fn lemma_drain(g: GridView)
    requires
        g.wf(),
    ensures
        g.drain().wf(),
        g.drain().width == g.width,
        g.drain().height == g.height,
        g.drain().statuses == g.statuses,
        forall|x: int, y: int, p: Pole|
            g.in_bounds(x, y) ==> (#[trigger] g.drain().open(x, y, p) <==> g.can_step(x, y, p)),
{
    let h = g.drain();
    assert forall|x: int, y: int| g.in_bounds(x, y) implies #[trigger] h.cell(x, y) == g.edge_cell(
        x,
        y,
    ) by {
        lemma_index_bounds(g.width, g.height, x, y);
        vstd::arithmetic::div_mod::lemma_fundamental_div_mod_converse(
            g.index(x, y),
            g.width,
            y,
            x,
        );
    }
    assert forall|x: int, y: int, p: Pole| g.in_bounds(x, y) implies (#[trigger] h.open(x, y, p)
        <==> g.can_step(x, y, p)) by {
        assert(h.cell(x, y) == g.edge_cell(x, y));
    }
    assert forall|x: int, y: int, p: Pole| h.in_bounds(x, y) && #[trigger] h.open(x, y, p) implies
        h.mirrored(x, y, p) by {
        assert(g.can_step(x, y, p));
        assert(h.cell(x + p.spec_dir_x(), y + p.spec_dir_y()) == g.edge_cell(
            x + p.spec_dir_x(),
            y + p.spec_dir_y(),
        ));
    }
}

/// The effect of a carve, cell by cell.
pub proof fn lemma_carve(g: GridView, x: int, y: int, p: Pole)
    requires
        g.wf(),
        g.can_step(x, y, p),
    ensures
        g.carve(x, y, p).wf(),
        g.carve(x, y, p).width == g.width,
        g.carve(x, y, p).height == g.height,
        forall|a: int, b: int, q: Pole|
            g.in_bounds(a, b) ==> (#[trigger] g.carve(x, y, p).open(a, b, q) <==> g.open(a, b, q)
                || (a == x && b == y && q == p) || (a == x + p.spec_dir_x() && b == y
                + p.spec_dir_y() && q == p.spec_opposite())),
        forall|a: int, b: int|
            g.in_bounds(a, b) ==> (#[trigger] g.carve(x, y, p).visited(a, b) <==> g.visited(a, b)
                || (a == x && b == y) || (a == x + p.spec_dir_x() && b == y + p.spec_dir_y())),
        forall|a: int, b: int|
            g.in_bounds(a, b) ==> #[trigger] g.carve(x, y, p).marked(a, b) == g.marked(a, b),
        g.carve(x, y, p).unvisited_count() == g.unvisited_count() - (if g.visited(x, y) {
            0int
        } else {
            1int
        }) - (if g.visited(x + p.spec_dir_x(), y + p.spec_dir_y()) {
            0int
        } else {
            1int
        }),
        g.carve(x, y, p).unmarked_count() == g.unmarked_count(),
{
    let nx = x + p.spec_dir_x();
    let ny = y + p.spec_dir_y();
    let i = g.index(x, y);
    let j = g.index(nx, ny);
    let h = g.carve(x, y, p);
    lemma_index_bounds(g.width, g.height, x, y);
    lemma_index_bounds(g.width, g.height, nx, ny);
    assert(i != j) by {
        if i == j {
            lemma_index_injective(g.width, x, y, nx, ny);
        }
    }
    assert forall|a: int, b: int| g.in_bounds(a, b) implies (0 <= g.index(a, b) < g.width
        * g.height && (g.index(a, b) == i <==> a == x && b == y) && (g.index(a, b) == j <==> a
        == nx && b == ny)) by {
        lemma_index_bounds(g.width, g.height, a, b);
        if g.index(a, b) == i {
            lemma_index_injective(g.width, a, b, x, y);
        }
        if g.index(a, b) == j {
            lemma_index_injective(g.width, a, b, nx, ny);
        }
    }
    assert forall|a: int, b: int, q: Pole| g.in_bounds(a, b) implies (#[trigger] h.open(a, b, q)
        <==> g.open(a, b, q) || (a == x && b == y && q == p) || (a == nx && b == ny && q
        == p.spec_opposite())) by {
        assert(0 <= g.index(a, b) < g.width * g.height);
    }
    assert forall|a: int, b: int| g.in_bounds(a, b) implies (#[trigger] h.visited(a, b)
        <==> g.visited(a, b) || (a == x && b == y) || (a == nx && b == ny)) by {
        assert(0 <= g.index(a, b) < g.width * g.height);
    }
    assert forall|a: int, b: int| g.in_bounds(a, b) implies #[trigger] h.marked(a, b) == g.marked(
        a,
        b,
    ) by {
        assert(0 <= g.index(a, b) < g.width * g.height);
    }
    assert forall|a: int, b: int, q: Pole| h.in_bounds(a, b) && #[trigger] h.open(a, b, q) implies
        h.mirrored(a, b, q) by {
        if g.open(a, b, q) {
            assert(g.in_bounds(a + q.spec_dir_x(), b + q.spec_dir_y()));
            assert(g.open(a + q.spec_dir_x(), b + q.spec_dir_y(), q.spec_opposite()));
        }
    }
    let s0 = g.statuses;
    let st1 = CellStatus { visited: true, marked: s0[i].marked };
    let s1 = s0.update(i, st1);
    let st2 = CellStatus { visited: true, marked: s1[j].marked };
    let s2 = s1.update(j, st2);
    assert(h.statuses == s2);
    let v0 = g.visited_flags();
    assert(h.visited_flags() =~= v0.update(i, true).update(j, true));
    lemma_count_update(v0, i, true);
    lemma_count_update(v0.update(i, true), j, true);
    assert(h.marked_flags() =~= g.marked_flags());
}

/// A carve that succeeds leaves the passage open from both sides: out of
/// the cell towards `p`, and out of the neighbour towards the cell.
pub proof fn lemma_carve_symmetric(g: GridView, x: int, y: int, d: CellView, p: Pole)
    requires
        g.wf(),
        g.in_bounds(x, y),
        d == CellView::only(p),
        g.next(x, y, d) is Some,
    ensures
        g.carve_towards(x, y, d).open(x, y, p),
        g.carve_towards(x, y, d).open(x + p.spec_dir_x(), y + p.spec_dir_y(), p.spec_opposite()),
        g.next(x, y, d) == Some((x + p.spec_dir_x(), y + p.spec_dir_y())),
{
    assert(d.pole() == Some(p));
    lemma_carve(g, x, y, p);
}

/// A carve towards the outside is refused and leaves the grid as it was:
/// towards the north from the first row, towards the south from the last row,
/// towards the west from the first column, towards the east from the last
/// column.
pub proof fn lemma_boundary_rejects(g: GridView, x: int, y: int, d: CellView, p: Pole)
    requires
        g.wf(),
        g.in_bounds(x, y),
        d == CellView::only(p),
        g.leaves(x, y, d),
    ensures
        g.next(x, y, d) is None,
        g.carve_towards(x, y, d) == g,
        g.wall_towards(x, y, d) == g,
{
    assert(d.pole() == Some(p));
}

/// A move is refused exactly where it would leave the grid.
pub proof fn lemma_next_refused(g: GridView, x: int, y: int, d: CellView)
    requires
        g.wf(),
        g.in_bounds(x, y),
    ensures
        g.next(x, y, d) is None <==> g.leaves(x, y, d),
{
}

/// The two ends of a passage agree on whether it is open.
pub proof fn lemma_two_sided(g: GridView, x: int, y: int, p: Pole)
    requires
        g.wf(),
        g.can_step(x, y, p),
    ensures
        g.open(x, y, p) == g.open(x + p.spec_dir_x(), y + p.spec_dir_y(), p.spec_opposite()),
        g.index(x, y) != g.index(x + p.spec_dir_x(), y + p.spec_dir_y()),
        0 <= g.index(x, y) < g.cells.len(),
        0 <= g.index(x + p.spec_dir_x(), y + p.spec_dir_y()) < g.cells.len(),
{
    let nx = x + p.spec_dir_x();
    let ny = y + p.spec_dir_y();
    lemma_index_bounds(g.width, g.height, x, y);
    lemma_index_bounds(g.width, g.height, nx, ny);
    if g.index(x, y) == g.index(nx, ny) {
        lemma_index_injective(g.width, x, y, nx, ny);
    }
    if g.open(x, y, p) {
        assert(g.mirrored(x, y, p));
    }
    if g.open(nx, ny, p.spec_opposite()) {
        assert(g.mirrored(nx, ny, p.spec_opposite()));
        assert(nx + p.spec_opposite().spec_dir_x() == x);
        assert(ny + p.spec_opposite().spec_dir_y() == y);
    }
}

/// A carve adds one passage, unless the passage was open before.
pub proof fn lemma_carve_count(g: GridView, x: int, y: int, p: Pole)
    requires
        g.wf(),
        g.can_step(x, y, p),
    ensures
        g.carve(x, y, p).passage_count() == g.passage_count() + if g.open(x, y, p) {
            0int
        } else {
            1int
        },
{
    let i = g.index(x, y);
    let j = g.index(x + p.spec_dir_x(), y + p.spec_dir_y());
    lemma_two_sided(g, x, y, p);
    let c1 = g.cells.update(i, g.cells[i].union(CellView::only(p)));
    lemma_passages_update(g.cells, i, g.cells[i].union(CellView::only(p)));
    lemma_passages_update(c1, j, c1[j].union(CellView::only(p.spec_opposite())));
    assert(c1[j] == g.cells[j]);
    assert(g.open(x, y, p) == g.cells[i].has(p));
    assert(g.open(x + p.spec_dir_x(), y + p.spec_dir_y(), p.spec_opposite()) == g.cells[j].has(
        p.spec_opposite(),
    ));
}

/// A wall takes one passage away, unless the passage was closed before.
pub proof fn lemma_wall_count(g: GridView, x: int, y: int, p: Pole)
    requires
        g.wf(),
        g.can_step(x, y, p),
    ensures
        g.wall(x, y, p).passage_count() == g.passage_count() - if g.open(x, y, p) {
            1int
        } else {
            0int
        },
{
    let i = g.index(x, y);
    let j = g.index(x + p.spec_dir_x(), y + p.spec_dir_y());
    lemma_two_sided(g, x, y, p);
    let c1 = g.cells.update(i, g.cells[i].difference(CellView::only(p)));
    lemma_passages_update(g.cells, i, g.cells[i].difference(CellView::only(p)));
    lemma_passages_update(c1, j, c1[j].difference(CellView::only(p.spec_opposite())));
    assert(c1[j] == g.cells[j]);
    assert(g.open(x, y, p) == g.cells[i].has(p));
    assert(g.open(x + p.spec_dir_x(), y + p.spec_dir_y(), p.spec_opposite()) == g.cells[j].has(
        p.spec_opposite(),
    ));
}

/// The effect of putting up a wall, cell by cell.
pub proof fn lemma_wall(g: GridView, x: int, y: int, p: Pole)
    requires
        g.wf(),
        g.can_step(x, y, p),
    ensures
        g.wall(x, y, p).wf(),
        g.wall(x, y, p).width == g.width,
        g.wall(x, y, p).height == g.height,
        g.wall(x, y, p).statuses == g.statuses,
        forall|a: int, b: int, q: Pole|
            g.in_bounds(a, b) ==> (#[trigger] g.wall(x, y, p).open(a, b, q) <==> g.open(a, b, q)
                && !(a == x && b == y && q == p) && !(a == x + p.spec_dir_x() && b == y
                + p.spec_dir_y() && q == p.spec_opposite())),
{
    let nx = x + p.spec_dir_x();
    let ny = y + p.spec_dir_y();
    let i = g.index(x, y);
    let j = g.index(nx, ny);
    let h = g.wall(x, y, p);
    lemma_index_bounds(g.width, g.height, x, y);
    lemma_index_bounds(g.width, g.height, nx, ny);
    assert(i != j) by {
        if i == j {
            lemma_index_injective(g.width, x, y, nx, ny);
        }
    }
    assert forall|a: int, b: int| g.in_bounds(a, b) implies (0 <= g.index(a, b) < g.width
        * g.height && (g.index(a, b) == i <==> a == x && b == y) && (g.index(a, b) == j <==> a
        == nx && b == ny)) by {
        lemma_index_bounds(g.width, g.height, a, b);
        if g.index(a, b) == i {
            lemma_index_injective(g.width, a, b, x, y);
        }
        if g.index(a, b) == j {
            lemma_index_injective(g.width, a, b, nx, ny);
        }
    }
    assert forall|a: int, b: int, q: Pole| g.in_bounds(a, b) implies (#[trigger] h.open(a, b, q)
        <==> g.open(a, b, q) && !(a == x && b == y && q == p) && !(a == nx && b == ny && q
        == p.spec_opposite())) by {
        assert(0 <= g.index(a, b) < g.width * g.height);
    }
    assert forall|a: int, b: int, q: Pole| h.in_bounds(a, b) && #[trigger] h.open(a, b, q) implies
        h.mirrored(a, b, q) by {
        assert(g.open(a, b, q));
        assert(g.in_bounds(a + q.spec_dir_x(), b + q.spec_dir_y()));
        assert(g.open(a + q.spec_dir_x(), b + q.spec_dir_y(), q.spec_opposite()));
    }
}

/// The effect of recording a visit, cell by cell.
pub proof fn lemma_visit(g: GridView, x: int, y: int)
    requires
        g.wf(),
        g.in_bounds(x, y),
    ensures
        g.visit(x, y).wf(),
        g.visit(x, y).same_passages(g),
        forall|a: int, b: int|
            g.in_bounds(a, b) ==> (#[trigger] g.visit(x, y).visited(a, b) <==> g.visited(a, b)
                || (a == x && b == y)),
        forall|a: int, b: int|
            g.in_bounds(a, b) ==> #[trigger] g.visit(x, y).marked(a, b) == g.marked(a, b),
        g.visit(x, y).unvisited_count() == g.unvisited_count() - (if g.visited(x, y) {
            0int
        } else {
            1int
        }),
        g.visit(x, y).unmarked_count() == g.unmarked_count(),
{
    let i = g.index(x, y);
    let h = g.visit(x, y);
    lemma_index_bounds(g.width, g.height, x, y);
    assert forall|a: int, b: int| g.in_bounds(a, b) implies (0 <= g.index(a, b) < g.width
        * g.height && (g.index(a, b) == i <==> a == x && b == y)) by {
        lemma_index_bounds(g.width, g.height, a, b);
        if g.index(a, b) == i {
            lemma_index_injective(g.width, a, b, x, y);
        }
    }
    assert forall|a: int, b: int| g.in_bounds(a, b) implies (#[trigger] h.visited(a, b)
        <==> g.visited(a, b) || (a == x && b == y)) by {
        assert(0 <= g.index(a, b) < g.width * g.height);
    }
    assert forall|a: int, b: int| g.in_bounds(a, b) implies #[trigger] h.marked(a, b) == g.marked(
        a,
        b,
    ) by {
        assert(0 <= g.index(a, b) < g.width * g.height);
    }
    assert forall|a: int, b: int, q: Pole| h.in_bounds(a, b) && #[trigger] h.open(a, b, q) implies
        h.mirrored(a, b, q) by {
        assert(g.open(a, b, q));
    }
    assert(h.visited_flags() =~= g.visited_flags().update(i, true));
    lemma_count_update(g.visited_flags(), i, true);
    assert(h.marked_flags() =~= g.marked_flags());
}

/// The effect of setting a scratch flag, cell by cell.
pub proof fn lemma_mark(g: GridView, x: int, y: int)
    requires
        g.wf(),
        g.in_bounds(x, y),
    ensures
        g.mark(x, y).wf(),
        g.mark(x, y).same_passages(g),
        forall|a: int, b: int|
            g.in_bounds(a, b) ==> (#[trigger] g.mark(x, y).marked(a, b) <==> g.marked(a, b) || (a
                == x && b == y)),
        forall|a: int, b: int|
            g.in_bounds(a, b) ==> #[trigger] g.mark(x, y).visited(a, b) == g.visited(a, b),
        g.mark(x, y).unmarked_count() == g.unmarked_count() - (if g.marked(x, y) {
            0int
        } else {
            1int
        }),
        g.mark(x, y).unvisited_count() == g.unvisited_count(),
{
    let i = g.index(x, y);
    let h = g.mark(x, y);
    lemma_index_bounds(g.width, g.height, x, y);
    assert forall|a: int, b: int| g.in_bounds(a, b) implies (0 <= g.index(a, b) < g.width
        * g.height && (g.index(a, b) == i <==> a == x && b == y)) by {
        lemma_index_bounds(g.width, g.height, a, b);
        if g.index(a, b) == i {
            lemma_index_injective(g.width, a, b, x, y);
        }
    }
    assert forall|a: int, b: int| g.in_bounds(a, b) implies (#[trigger] h.marked(a, b)
        <==> g.marked(a, b) || (a == x && b == y)) by {
        assert(0 <= g.index(a, b) < g.width * g.height);
    }
    assert forall|a: int, b: int| g.in_bounds(a, b) implies #[trigger] h.visited(a, b)
        == g.visited(a, b) by {
        assert(0 <= g.index(a, b) < g.width * g.height);
    }
    assert forall|a: int, b: int, q: Pole| h.in_bounds(a, b) && #[trigger] h.open(a, b, q) implies
        h.mirrored(a, b, q) by {
        assert(g.open(a, b, q));
    }
    assert(h.marked_flags() =~= g.marked_flags().update(i, true));
    lemma_count_update(g.marked_flags(), i, true);
    assert(h.visited_flags() =~= g.visited_flags());
}

/// A rectangular maze grid. It owns its cells; they change only through
/// [`Grid::carve_passage`], [`Grid::add_wall`] and [`Grid::drain`], which keep
/// every passage open from both sides and closed towards the outside.
pub struct Grid {
    width: usize,
    height: usize,
    cells: Vec<Cell>,
    cell_statuses: Vec<CellStatus>,
}

impl View for Grid {
    type V = GridView;

    closed spec fn view(&self) -> GridView {
        GridView {
            width: self.width as int,
            height: self.height as int,
            cells: self.cells@.map_values(|c: Cell| c@),
            statuses: self.cell_statuses@,
        }
    }
}

impl Grid {
    /// Creates a grid in which every cell is walled on all four sides and
    /// untouched.
    pub fn new(width: usize, height: usize) -> (r: Grid)
        requires
            width >= 1,
            height >= 1,
            width * height <= usize::MAX,
        ensures
            r@ == GridView::fresh(width as int, height as int),
            r@.wf(),
    {
        let n = width * height;
        let mut cells: Vec<Cell> = Vec::new();
        let mut cell_statuses: Vec<CellStatus> = Vec::new();
        let mut i: usize = 0;
        while i < n
            invariant
                i <= n,
                cells.len() == i,
                cell_statuses.len() == i,
                forall|k: int| 0 <= k < i ==> (#[trigger] cells[k])@ == CellView::blocked(),
                forall|k: int|
                    0 <= k < i ==> #[trigger] cell_statuses[k] == (CellStatus {
                        visited: false,
                        marked: false,
                    }),
            decreases n - i,
        {
            cells.push(Cell::empty());
            cell_statuses.push(CellStatus::new());
            i += 1;
        }
        let r = Grid { width, height, cells, cell_statuses };
        proof {
            lemma_fresh(width as int, height as int);
            assert(r@.cells =~= GridView::fresh(width as int, height as int).cells);
            assert(r@.statuses =~= GridView::fresh(width as int, height as int).statuses);
        }
        r
    }

    /// Returns the number of rows.
    pub fn height(&self) -> (r: usize)
        ensures
            r == self@.height,
    {
        self.height
    }

    /// Returns the number of columns.
    pub fn width(&self) -> (r: usize)
        ensures
            r == self@.width,
    {
        self.width
    }

    /// Returns the number of cells.
    pub fn cell_count(&self) -> (r: usize)
        requires
            self@.wf(),
        ensures
            r == self@.width * self@.height,
    {
        assert(self@.cells.len() == self.cells@.len());
        self.cells.len()
    }

    /// Returns the place of a cell in row-major order.
    pub fn index_of(&self, coords: Coords) -> (r: usize)
        requires
            self@.wf(),
            self@.in_bounds(coords.0 as int, coords.1 as int),
        ensures
            r == self@.index(coords.0 as int, coords.1 as int),
            r < self@.width * self@.height,
    {
        self.offset(coords)
    }

    /// Returns the place of a cell in the two vectors, which is within both.

    fn offset(&self, coords: Coords) -> (r: usize)
        requires
            self@.wf(),
            self@.in_bounds(coords.0 as int, coords.1 as int),
        ensures
            r == self@.index(coords.0 as int, coords.1 as int),
            r < self.cells.len(),
            r < self.cell_statuses.len(),
            r < self@.width * self@.height,
    {
        let n = self.cells.len();
        proof {
            lemma_index_bounds(
                self.width as int,
                self.height as int,
                coords.0 as int,
                coords.1 as int,
            );
            let w = self.width as int;
            let h = self.height as int;
            let x = coords.0 as int;
            let y = coords.1 as int;
            assert(self@.width == w);
            assert(self@.cells.len() == w * h);
            assert(self@.cells.len() == self.cells@.len());
            assert(self@.statuses.len() == self.cell_statuses@.len());
            assert(0 <= y * w) by (nonlinear_arith)
                requires
                    0 <= y,
                    0 <= w,
            ;
            assert(y * w + x < w * h);
            assert(w * h == n);
        }
        coords.1 * self.width + coords.0
    }

    /// Sets the scratch flag of a cell.
    pub fn mark_cell(&mut self, coords: Coords)
        requires
            old(self)@.wf(),
            old(self)@.in_bounds(coords.0 as int, coords.1 as int),
        ensures
            final(self)@ == old(self)@.mark(coords.0 as int, coords.1 as int),
            final(self)@.wf(),
    {
        let i = self.offset(coords);
        proof {
            lemma_mark(self@, coords.0 as int, coords.1 as int);
        }
        let status = CellStatus { visited: self.cell_statuses[i].visited, marked: true };
        self.cell_statuses[i] = status;
        proof {
            assert(self@.statuses =~= old(self)@.mark(coords.0 as int, coords.1 as int).statuses);
        }
    }

    /// Returns whether a carve has touched the cell.
    pub fn is_cell_visited(&self, coords: Coords) -> (r: bool)
        requires
            self@.wf(),
            self@.in_bounds(coords.0 as int, coords.1 as int),
        ensures
            r == self@.visited(coords.0 as int, coords.1 as int),
    {
        self.get_cell_status(coords).visited()
    }

    /// Returns whether the scratch flag of the cell is set.
    pub fn is_cell_marked(&self, coords: Coords) -> (r: bool)
        requires
            self@.wf(),
            self@.in_bounds(coords.0 as int, coords.1 as int),
        ensures
            r == self@.marked(coords.0 as int, coords.1 as int),
    {
        self.get_cell_status(coords).marked()
    }

    /// Returns the flags of a cell.
    pub fn get_cell_status(&self, coords: Coords) -> (r: CellStatus)
        requires
            self@.wf(),
            self@.in_bounds(coords.0 as int, coords.1 as int),
        ensures
            r == self@.statuses[self@.index(coords.0 as int, coords.1 as int)],
    {
        let i = self.offset(coords);
        self.cell_statuses[i]
    }

    /// Returns the passages of a cell.
    pub fn get_cell(&self, coords: Coords) -> (r: Cell)
        requires
            self@.wf(),
            self@.in_bounds(coords.0 as int, coords.1 as int),
        ensures
            r@ == self@.cell(coords.0 as int, coords.1 as int),
    {
        let i = self.offset(coords);
        self.cells[i]
    }

    /// Returns whether every passage of `direction` is open in the cell. For a
    /// single direction this is the question whether the cell has a passage
    /// towards it.
    pub fn is_carved(&self, coords: Coords, direction: Cell) -> (r: bool)
        requires
            self@.wf(),
            self@.in_bounds(coords.0 as int, coords.1 as int),
        ensures
            r == self@.cell(coords.0 as int, coords.1 as int).includes(direction@),
            forall|p: Pole|
                direction@ == CellView::only(p) ==> r == self@.open(
                    coords.0 as int,
                    coords.1 as int,
                    p,
                ),
    {
        let i = self.offset(coords);
        self.cells[i].contains(direction)
    }

    /// Computes the neighbour of a cell in a direction. This is a pure bounds
    /// computation: walls play no part in it. A move that would leave the grid
    /// is refused with a [`TransitError`] that names the cell and the reason.
    pub fn get_next_cell_coords(&self, coords: Coords, direction: Cell) -> (r: Result<
        Coords,
        TransitError,
    >)
        requires
            self@.wf(),
            self@.in_bounds(coords.0 as int, coords.1 as int),
        ensures
            match self@.next(coords.0 as int, coords.1 as int, direction@) {
                Some(n) => r is Ok && r->Ok_0.0 == n.0 && r->Ok_0.1 == n.1,
                None => r is Err && r->Err_0.coords == coords && direction@.pole() is Some
                    && r->Err_0.reason@ == boundary_reason(direction@.pole()->0),
            },
            r is Err <==> self@.leaves(coords.0 as int, coords.1 as int, direction@),
    {
        let (x, y) = coords;
        let w = self.width();
        let h = self.height();
        match direction.pole() {
            Some(Pole::N) => if y < 1 {
                Err(TransitError::boundary(coords, Pole::N))
            } else {
                Ok((x, y - 1))
            },
            Some(Pole::S) => if y + 1 == h {
                Err(TransitError::boundary(coords, Pole::S))
            } else {
                Ok((x, y + 1))
            },
            Some(Pole::W) => if x < 1 {
                Err(TransitError::boundary(coords, Pole::W))
            } else {
                Ok((x - 1, y))
            },
            Some(Pole::E) => if x + 1 == w {
                Err(TransitError::boundary(coords, Pole::E))
            } else {
                Ok((x + 1, y))
            },
            None => Ok((x, y)),
        }
    }

    /// Opens the passage from a cell in a direction, and the opposite passage
    /// of the neighbour, and records both cells as visited. Returns the
    /// neighbour. A move that would leave the grid is refused as by
    /// [`Grid::get_next_cell_coords`], and the grid stays as it was.
    pub fn carve_passage(&mut self, coords: Coords, direction: Cell) -> (r: Result<
        Coords,
        TransitError,
    >)
        requires
            old(self)@.wf(),
            old(self)@.in_bounds(coords.0 as int, coords.1 as int),
        ensures
            final(self)@.wf(),
            final(self)@ == old(self)@.carve_towards(
                coords.0 as int,
                coords.1 as int,
                direction@,
            ),
            match old(self)@.next(coords.0 as int, coords.1 as int, direction@) {
                Some(n) => r is Ok && r->Ok_0.0 == n.0 && r->Ok_0.1 == n.1,
                None => r is Err && r->Err_0.coords == coords && direction@.pole() is Some
                    && r->Err_0.reason@ == boundary_reason(direction@.pole()->0) && final(self)@
                    == old(self)@,
            },
            r is Err <==> old(self)@.leaves(coords.0 as int, coords.1 as int, direction@),
            forall|p: Pole|
                r is Ok && direction@ == CellView::only(p) ==> final(self)@.open(
                    coords.0 as int,
                    coords.1 as int,
                    p,
                ) && final(self)@.open(
                    coords.0 + p.spec_dir_x(),
                    coords.1 + p.spec_dir_y(),
                    p.spec_opposite(),
                ),
    {
        let next = self.get_next_cell_coords(coords, direction);
        let ghost g = self@;
        let ghost x = coords.0 as int;
        let ghost y = coords.1 as int;
        proof {
            assert forall|p: Pole| direction@ == CellView::only(p) && g.next(x, y, direction@)
                is Some implies g.carve_towards(x, y, direction@).open(x, y, p)
                && g.carve_towards(x, y, direction@).open(
                x + p.spec_dir_x(),
                y + p.spec_dir_y(),
                p.spec_opposite(),
            ) by {
                lemma_carve_symmetric(g, x, y, direction@, p);
            }
        }
        match next {
            Err(e) => Err(e),
            Ok(n) => {
                let i = self.offset(coords);
                match direction.pole() {
                    Some(p) => {
                        let j = self.offset(n);
                        proof {
                            lemma_carve(g, x, y, p);
                            if i == j {
                                lemma_index_injective(g.width, x, y, n.0 as int, n.1 as int);
                            }
                        }
                        open_both(&mut self.cells, i, j, p);
                        visit_both(&mut self.cell_statuses, i, j);
                        proof {
                            assert(self@.cells =~= g.carve(x, y, p).cells);
                            assert(self@.statuses =~= g.carve(x, y, p).statuses);
                        }
                    },
                    None => {
                        proof {
                            lemma_visit(g, x, y);
                        }
                        let status = CellStatus {
                            visited: true,
                            marked: self.cell_statuses[i].marked,
                        };
                        self.cell_statuses[i] = status;
                        proof {
                            assert(self@.statuses =~= g.visit(x, y).statuses);
                        }
                    },
                }
                Ok(n)
            },
        }
    }

    /// Closes the passage from a cell in a direction, and the opposite passage
    /// of the neighbour. Returns the neighbour. A move that would leave the
    /// grid is refused as by [`Grid::get_next_cell_coords`], and the grid stays
    /// as it was.
    pub fn add_wall(&mut self, coords: Coords, direction: Cell) -> (r: Result<
        Coords,
        TransitError,
    >)
        requires
            old(self)@.wf(),
            old(self)@.in_bounds(coords.0 as int, coords.1 as int),
        ensures
            final(self)@.wf(),
            final(self)@ == old(self)@.wall_towards(coords.0 as int, coords.1 as int, direction@),
            match old(self)@.next(coords.0 as int, coords.1 as int, direction@) {
                Some(n) => r is Ok && r->Ok_0.0 == n.0 && r->Ok_0.1 == n.1,
                None => r is Err && r->Err_0.coords == coords && direction@.pole() is Some
                    && r->Err_0.reason@ == boundary_reason(direction@.pole()->0) && final(self)@
                    == old(self)@,
            },
            r is Err <==> old(self)@.leaves(coords.0 as int, coords.1 as int, direction@),
    {
        let next = self.get_next_cell_coords(coords, direction);
        let ghost g = self@;
        let ghost x = coords.0 as int;
        let ghost y = coords.1 as int;
        match next {
            Err(e) => Err(e),
            Ok(n) => {
                let i = self.offset(coords);
                match direction.pole() {
                    Some(p) => {
                        let j = self.offset(n);
                        proof {
                            lemma_wall(g, x, y, p);
                            if i == j {
                                lemma_index_injective(g.width, x, y, n.0 as int, n.1 as int);
                            }
                        }
                        close_both(&mut self.cells, i, j, p);
                        proof {
                            assert(self@.cells =~= g.wall(x, y, p).cells);
                        }
                    },
                    None => {},
                }
                Ok(n)
            },
        }
    }
}

impl Grid {
    /// Resets the passages for the wall-adding technique: every passage
    /// between two cells of the grid is opened, while the outer walls stand.
    /// The flags of the cells stay as they are.
    pub fn drain(&mut self)
        requires
            old(self)@.wf(),
        ensures
            final(self)@ == old(self)@.drain(),
            final(self)@.wf(),
    {
        let n = self.cells.len();
        let w = self.width;
        let h = self.height;
        let ghost g = self@;
        proof {
            lemma_drain(g);
            assert(g.cells.len() == self.cells@.len());
        }
        let mut i: usize = 0;
        while i < n
            invariant
                i <= n,
                n == self.cells@.len(),
                w == self.width,
                h == self.height,
                w >= 1,
                h >= 1,
                self.width == g.width,
                self.height == g.height,
                self.cell_statuses@ == g.statuses,
                forall|k: int| 0 <= k < i ==> (#[trigger] self.cells@[k])@ == g.edge_cell(k % g.width, k / g.width),
            decreases n - i,
        {
            let x = i % w;
            let y = i / w;
            let cell = Cell::from_flags(y > 0, y < h - 1, x < w - 1, x > 0);
            self.cells[i] = cell;
            i += 1;
        }
        proof {
            assert(self@.cells =~= g.drain().cells);
        }
    }

    /// Returns the grid as text, in the narrow form of the ASCII formatter.
    pub fn to_string(&self) -> (r: String)
        requires
            self@.wf(),
        ensures
            r@ == crate::formatters::ascii::narrow_text(self@),
    {
        crate::formatters::ascii::render_narrow(self)
    }

    /// Returns the cells with their positions, row by row.
    pub fn cells(&self) -> (r: Vec<(Coords, Cell)>)
        requires
            self@.wf(),
        ensures
            r@.len() == self@.width * self@.height,
            forall|i: int|
                0 <= i < r@.len() ==> (#[trigger] r@[i]).0 == (
                    (i % self@.width) as usize,
                    (i / self@.width) as usize,
                ) && r@[i].1@ == self@.cells[i],
    {
        let n = self.cells.len();
        let w = self.width;
        assert(self@.cells.len() == self.cells@.len());
        let mut out: Vec<(Coords, Cell)> = Vec::new();
        let mut i: usize = 0;
        while i < n
            invariant
                i <= n,
                n == self.cells@.len(),
                w == self.width,
                w >= 1,
                out@.len() == i,
                forall|k: int|
                    0 <= k < i ==> (#[trigger] out@[k]).0 == ((k % w as int) as usize, (k
                        / w as int) as usize) && out@[k].1 == self.cells@[k],
            decreases n - i,
        {
            out.push(((i % w, i / w), self.cells[i]));
            i += 1;
        }
        out
    }
}

/// Opens the passage towards `p` in entry `i` and the opposite one in entry `j`.
fn open_both(cells: &mut Vec<Cell>, i: usize, j: usize, p: Pole)
    requires
        i < old(cells).len(),
        j < old(cells).len(),
    ensures
        final(cells).len() == old(cells).len(),
        final(cells)@ == old(cells)@.update(i as int, final(cells)[i as int]).update(
            j as int,
            final(cells)[j as int],
        ),
        i != j ==> final(cells)[i as int]@ == old(cells)[i as int]@.union(CellView::only(p)),
        i != j ==> final(cells)[j as int]@ == old(cells)[j as int]@.union(
            CellView::only(p.spec_opposite()),
        ),
{
    let a = cells[i].union(Cell::from_pole(p));
    cells[i] = a;
    let b = cells[j].union(Cell::from_pole(p.opposite()));
    cells[j] = b;
    assert(cells@ =~= old(cells)@.update(i as int, cells[i as int]).update(
        j as int,
        cells[j as int],
    ));
}

/// Closes the passage towards `p` in entry `i` and the opposite one in entry `j`.
fn close_both(cells: &mut Vec<Cell>, i: usize, j: usize, p: Pole)
    requires
        i < old(cells).len(),
        j < old(cells).len(),
    ensures
        final(cells).len() == old(cells).len(),
        final(cells)@ == old(cells)@.update(i as int, final(cells)[i as int]).update(
            j as int,
            final(cells)[j as int],
        ),
        i != j ==> final(cells)[i as int]@ == old(cells)[i as int]@.difference(CellView::only(p)),
        i != j ==> final(cells)[j as int]@ == old(cells)[j as int]@.difference(
            CellView::only(p.spec_opposite()),
        ),
{
    let a = cells[i].difference(Cell::from_pole(p));
    cells[i] = a;
    let b = cells[j].difference(Cell::from_pole(p.opposite()));
    cells[j] = b;
    assert(cells@ =~= old(cells)@.update(i as int, cells[i as int]).update(
        j as int,
        cells[j as int],
    ));
}

/// Records entries `i` and `j` as visited.
fn visit_both(statuses: &mut Vec<CellStatus>, i: usize, j: usize)
    requires
        i < old(statuses).len(),
        j < old(statuses).len(),
    ensures
        final(statuses)@ == old(statuses)@.update(
            i as int,
            CellStatus { visited: true, marked: old(statuses)[i as int].marked },
        ).update(
            j as int,
            CellStatus {
                visited: true,
                marked: old(statuses)@.update(
                    i as int,
                    CellStatus { visited: true, marked: old(statuses)[i as int].marked },
                )[j as int].marked,
            },
        ),
{
    let a = CellStatus { visited: true, marked: statuses[i].marked };
    statuses[i] = a;
    let b = CellStatus { visited: true, marked: statuses[j].marked };
    statuses[j] = b;
}


} // verus!
