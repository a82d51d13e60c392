//! Reachability through open passages: the theory on which the validator and
//! every generator rest.

use crate::grid::{lemma_carve, GridView};
use crate::pole::Pole;
use vstd::prelude::*;

verus! {

/// A cell position in specifications: column, then row.
pub type Pos = (int, int);

/// A rectangle of cells, given by its top-left and bottom-right cells.
pub struct Rect {
    pub x0: int,
    pub y0: int,
    pub x1: int,
    pub y1: int,
}

impl Rect {
    /// Whether the cell lies in the rectangle.
    pub open spec fn has(self, c: Pos) -> bool {
        self.x0 <= c.0 <= self.x1 && self.y0 <= c.1 <= self.y1
    }

    /// Whether every cell of `self` lies in `other`.
    pub open spec fn within(self, other: Rect) -> bool {
        other.x0 <= self.x0 && self.x1 <= other.x1 && other.y0 <= self.y0 && self.y1 <= other.y1
    }
}

/// The cell one step from `c` towards `p`.
pub open spec fn step(c: Pos, p: Pole) -> Pos {
    (c.0 + p.spec_dir_x(), c.1 + p.spec_dir_y())
}

impl GridView {
    /// The rectangle of all cells of the grid.
    pub open spec fn whole(self) -> Rect {
        Rect { x0: 0, y0: 0, x1: self.width - 1, y1: self.height - 1 }
    }

    /// Whether the position names a cell of the grid.
    pub open spec fn holds(self, c: Pos) -> bool {
        self.in_bounds(c.0, c.1)
    }

    /// Whether `b` is the neighbour of `a` towards `p` and the passage between
    /// them is open.
    pub open spec fn linked_by(self, a: Pos, b: Pos, p: Pole) -> bool {
        self.open(a.0, a.1, p) && b == step(a, p)
    }

    /// Whether an open passage leads from cell `a` to `b`.
    pub open spec fn linked(self, a: Pos, b: Pos) -> bool {
        self.holds(a) && (self.linked_by(a, b, Pole::N) || self.linked_by(a, b, Pole::S)
            || self.linked_by(a, b, Pole::E) || self.linked_by(a, b, Pole::W))
    }

    /// Whether `s` is a walk through open passages that stays inside `r`.
    pub open spec fn is_path(self, r: Rect, s: Seq<Pos>) -> bool {
        &&& s.len() > 0
        &&& forall|i: int| 0 <= i < s.len() ==> self.holds(#[trigger] s[i]) && r.has(s[i])
        &&& forall|i: int| 0 <= i < s.len() - 1 ==> self.linked(#[trigger] s[i], s[i + 1])
    }

    /// Whether `s` is a walk from `a` to `b` through open passages inside `r`.
    pub open spec fn is_path_between(self, r: Rect, s: Seq<Pos>, a: Pos, b: Pos) -> bool {
        self.is_path(r, s) && s[0] == a && s[s.len() - 1] == b
    }

    /// Whether `b` can be reached from `a` through open passages without
    /// leaving `r`: whether there is a walk from `a` to `b` inside `r`.
    pub closed spec fn reaches_in(self, r: Rect, a: Pos, b: Pos) -> bool {
        exists|s: Seq<Pos>| self.is_path_between(r, s, a, b)
    }

    /// Whether `b` can be reached from `a` through open passages.
    pub open spec fn reaches(self, a: Pos, b: Pos) -> bool {
        self.reaches_in(self.whole(), a, b)
    }

    /// Whether any two cells of `r` can reach each other without leaving `r`.
    pub open spec fn connected_in(self, r: Rect) -> bool {
        forall|a: Pos, b: Pos|
            self.holds(a) && r.has(a) && self.holds(b) && r.has(b) ==> #[trigger] self.reaches_in(
                r,
                a,
                b,
            )
    }

    /// Whether the grid is a single connected maze: every cell can be reached
    /// from the top-left cell through open passages.
    pub open spec fn connected(self) -> bool {
        forall|c: Pos| self.holds(c) ==> #[trigger] self.reaches((0, 0), c)
    }

    /// Whether every visited cell can be reached from `root`.
    pub open spec fn visited_reach(self, root: Pos) -> bool {
        forall|c: Pos| self.holds(c) && self.visited(c.0, c.1) ==> #[trigger] self.reaches(root, c)
    }
}

/// In a valid grid a passage leads to a cell of the grid and is open from
/// the other side as well.
pub proof fn lemma_linked_symmetric(g: GridView, a: Pos, b: Pos)
    requires
        g.wf(),
        g.linked(a, b),
    ensures
        g.holds(b),
        g.linked(b, a),
{
    let p = if g.linked_by(a, b, Pole::N) {
        Pole::N
    } else if g.linked_by(a, b, Pole::S) {
        Pole::S
    } else if g.linked_by(a, b, Pole::E) {
        Pole::E
    } else {
        Pole::W
    };
    assert(g.open(a.0, a.1, p));
    assert(g.linked_by(b, a, p.spec_opposite()));
}

/// A walk shows that its end can be reached from its start.
pub proof fn lemma_walk_reaches(g: GridView, r: Rect, s: Seq<Pos>, a: Pos, b: Pos)
    requires
        g.is_path_between(r, s, a, b),
    ensures
        g.reaches_in(r, a, b),
{
}

/// What can be reached is reached by a walk; its two ends are cells of the
/// grid inside the rectangle.
pub proof fn lemma_reaches_walk(g: GridView, r: Rect, a: Pos, b: Pos) -> (s: Seq<Pos>)
    requires
        g.reaches_in(r, a, b),
    ensures
        g.is_path_between(r, s, a, b),
        g.holds(a) && r.has(a),
        g.holds(b) && r.has(b),
{
    let s = choose|s: Seq<Pos>| g.is_path_between(r, s, a, b);
    assert(g.holds(s[0]));
    assert(g.holds(s[s.len() - 1]));
    s
}

/// Every cell reaches itself.
pub proof fn lemma_reaches_self(g: GridView, r: Rect, a: Pos)
    requires
        g.holds(a),
        r.has(a),
    ensures
        g.reaches_in(r, a, a),
{
    let s = seq![a];
    assert(g.is_path_between(r, s, a, a));
}

/// A walk can be prolonged by one passage.
pub proof fn lemma_reaches_step(g: GridView, r: Rect, a: Pos, b: Pos, c: Pos)
    requires
        g.reaches_in(r, a, b),
        g.linked(b, c),
        g.holds(c),
        r.has(c),
    ensures
        g.reaches_in(r, a, c),
{
    let s = choose|s: Seq<Pos>| g.is_path_between(r, s, a, b);
    let t = s.push(c);
    assert forall|i: int| 0 <= i < t.len() implies g.holds(#[trigger] t[i]) && r.has(t[i]) by {
        if i < s.len() {
            assert(t[i] == s[i]);
        }
    }
    assert forall|i: int| 0 <= i < t.len() - 1 implies g.linked(#[trigger] t[i], t[i + 1]) by {
        if i < s.len() - 1 {
            assert(t[i] == s[i]);
            assert(t[i + 1] == s[i + 1]);
        }
    }
    assert(g.is_path_between(r, t, a, c));
}

/// Two walks that meet make one walk.
pub proof fn lemma_reaches_trans(g: GridView, r: Rect, a: Pos, b: Pos, c: Pos)
    requires
        g.reaches_in(r, a, b),
        g.reaches_in(r, b, c),
    ensures
        g.reaches_in(r, a, c),
{
    let s = choose|s: Seq<Pos>| g.is_path_between(r, s, a, b);
    let t = choose|t: Seq<Pos>| g.is_path_between(r, t, b, c);
    let u = s + t.subrange(1, t.len() as int);
    assert forall|i: int| 0 <= i < u.len() implies g.holds(#[trigger] u[i]) && r.has(u[i]) by {
        if i < s.len() {
            assert(u[i] == s[i]);
        } else {
            assert(u[i] == t[i - s.len() + 1]);
        }
    }
    assert forall|i: int| 0 <= i < u.len() - 1 implies g.linked(#[trigger] u[i], u[i + 1]) by {
        if i < s.len() - 1 {
            assert(u[i] == s[i]);
            assert(u[i + 1] == s[i + 1]);
        } else if i == s.len() - 1 {
            assert(u[i] == s[i]);
            assert(u[i] == t[0]);
            assert(u[i + 1] == t[1]);
        } else {
            assert(u[i] == t[i - s.len() + 1]);
            assert(u[i + 1] == t[i - s.len() + 1 + 1]);
        }
    }
    assert(u[0] == a);
    if t.len() == 1 {
        assert(u[u.len() - 1] == s[s.len() - 1]);
    } else {
        assert(u[u.len() - 1] == t[t.len() - 1]);
    }
    assert(g.is_path_between(r, u, a, c));
}

/// In a valid grid a walk read backwards is a walk.

proof fn lemma_path_reverse(g: GridView, r: Rect, s: Seq<Pos>)
    requires
        g.wf(),
        g.is_path(r, s),
    ensures
        g.is_path(r, s.reverse()),
        s.reverse()[0] == s[s.len() - 1],
        s.reverse()[s.len() - 1] == s[0],
        s.reverse().len() == s.len(),
{
    let t = s.reverse();
    assert forall|i: int| 0 <= i < t.len() implies g.holds(#[trigger] t[i]) && r.has(t[i]) by {
        assert(t[i] == s[s.len() - 1 - i]);
    }
    assert forall|i: int| 0 <= i < t.len() - 1 implies g.linked(#[trigger] t[i], t[i + 1]) by {
        let k = s.len() - 2 - i;
        assert(t[i] == s[k + 1]);
        assert(t[i + 1] == s[k]);
        assert(g.linked(s[k], s[k + 1]));
        lemma_linked_symmetric(g, s[k], s[k + 1]);
    }
}

/// In a valid grid every walk can be walked backwards.
pub proof fn lemma_reaches_sym(g: GridView, r: Rect, a: Pos, b: Pos)
    requires
        g.wf(),
        g.reaches_in(r, a, b),
    ensures
        g.reaches_in(r, b, a),
{
    let s = choose|s: Seq<Pos>| g.is_path_between(r, s, a, b);
    lemma_path_reverse(g, r, s);
    assert(g.is_path_between(r, s.reverse(), b, a));
}

/// Whether every passage of `g` between two cells of `r` is open in `h` too.
pub open spec fn keeps_links(g: GridView, h: GridView, r: Rect) -> bool {
    &&& g.width == h.width
    &&& g.height == h.height
    &&& forall|c: Pos, p: Pole|
        g.holds(c) && r.has(c) && r.has(step(c, p)) && #[trigger] g.open(c.0, c.1, p) ==> h.open(
            c.0,
            c.1,
            p,
        )
}

/// A walk stays a walk in a grid that keeps its passages and in a larger
/// rectangle.
pub proof fn lemma_reaches_mono(g: GridView, h: GridView, r: Rect, q: Rect, a: Pos, b: Pos)
    requires
        keeps_links(g, h, r),
        r.within(q),
        g.reaches_in(r, a, b),
    ensures
        h.reaches_in(q, a, b),
{
    let s = choose|s: Seq<Pos>| g.is_path_between(r, s, a, b);
    assert forall|i: int| 0 <= i < s.len() implies h.holds(#[trigger] s[i]) && q.has(s[i]) by {
        assert(g.holds(s[i]) && r.has(s[i]));
    }
    assert forall|i: int| 0 <= i < s.len() - 1 implies h.linked(#[trigger] s[i], s[i + 1]) by {
        let u = s[i];
        let v = s[i + 1];
        assert(g.linked(u, v));
        assert(g.holds(u) && r.has(u));
        assert(g.holds(v) && r.has(v));
        let p = if g.linked_by(u, v, Pole::N) {
            Pole::N
        } else if g.linked_by(u, v, Pole::S) {
            Pole::S
        } else if g.linked_by(u, v, Pole::E) {
            Pole::E
        } else {
            Pole::W
        };
        assert(g.open(u.0, u.1, p));
        assert(h.linked_by(u, v, p));
    }
    assert(h.is_path_between(q, s, a, b));
}

/// A set of cells that no passage inside `r` leaves holds every cell that
/// can be reached from one of its cells.
pub proof fn lemma_closed_set(g: GridView, r: Rect, set: Set<Pos>, a: Pos, b: Pos)
    requires
        set.contains(a),
        forall|u: Pos, v: Pos|
            set.contains(u) && #[trigger] g.linked(u, v) && r.has(v) ==> set.contains(v),
        g.reaches_in(r, a, b),
    ensures
        set.contains(b),
{
    let s = choose|s: Seq<Pos>| g.is_path_between(r, s, a, b);
    lemma_closed_prefix(g, r, set, s, s.len() - 1);
}

/// A set of cells that no passage leaves holds every cell of a walk that

/// starts in it.

proof fn lemma_closed_prefix(g: GridView, r: Rect, set: Set<Pos>, s: Seq<Pos>, k: int)
    requires
        g.is_path(r, s),
        0 <= k < s.len(),
        set.contains(s[0]),
        forall|u: Pos, v: Pos|
            set.contains(u) && #[trigger] g.linked(u, v) && r.has(v) ==> set.contains(v),
    ensures
        set.contains(s[k]),
    decreases k,
{
    if k > 0 {
        lemma_closed_prefix(g, r, set, s, k - 1);
        assert(g.linked(s[k - 1], s[k]));
        assert(r.has(s[k]));
    }
}

/// The direction of one step from `a` that leads closer to `c`.
pub open spec fn towards(a: Pos, c: Pos) -> Pole {
    if a.0 < c.0 {
        Pole::E
    } else if a.0 > c.0 {
        Pole::W
    } else if a.1 < c.1 {
        Pole::S
    } else {
        Pole::N
    }
}

/// The number of steps between two cells when walls are ignored.
pub open spec fn distance(a: Pos, c: Pos) -> int {
    (if a.0 < c.0 {
        c.0 - a.0
    } else {
        a.0 - c.0
    }) + (if a.1 < c.1 {
        c.1 - a.1
    } else {
        a.1 - c.1
    })
}

/// A set of cells of a rectangle that holds one cell, and with each cell its
/// neighbours in the rectangle, holds every cell of the rectangle.
pub proof fn lemma_spread(r: Rect, set: Set<Pos>, a: Pos, c: Pos)
    requires
        r.has(a),
        r.has(c),
        set.contains(a),
        forall|u: Pos, p: Pole|
            set.contains(u) && r.has(u) && r.has(#[trigger] step(u, p)) ==> set.contains(
                step(u, p),
            ),
    ensures
        set.contains(c),
    decreases distance(a, c),
{
    if a != c {
        let p = towards(a, c);
        let n = step(a, p);
        assert(r.has(n));
        assert(set.contains(n));
        lemma_spread(r, set, n, c);
    }
}

/// A valid grid in which every cell can be reached from one cell is connected.
pub proof fn lemma_connected_from(g: GridView, root: Pos)
    requires
        g.wf(),
        g.holds(root),
        forall|c: Pos| g.holds(c) ==> #[trigger] g.reaches(root, c),
    ensures
        g.connected(),
{
    assert(g.reaches(root, (0, 0)));
    lemma_reaches_sym(g, g.whole(), root, (0, 0));
    assert forall|c: Pos| g.holds(c) implies #[trigger] g.reaches((0, 0), c) by {
        assert(g.reaches(root, c));
        lemma_reaches_trans(g, g.whole(), (0, 0), root, c);
    }
}

/// In a connected valid grid any two cells reach each other.
pub proof fn lemma_connected_pairs(g: GridView, a: Pos, b: Pos)
    requires
        g.wf(),
        g.connected(),
        g.holds(a),
        g.holds(b),
    ensures
        g.reaches(a, b),
{
    assert(g.reaches((0, 0), a));
    assert(g.reaches((0, 0), b));
    lemma_reaches_sym(g, g.whole(), (0, 0), a);
    lemma_reaches_trans(g, g.whole(), a, (0, 0), b);
}

/// A carve keeps every walk and joins the two cells it touches.
pub proof fn lemma_carve_links(g: GridView, x: int, y: int, p: Pole)
    requires
        g.wf(),
        g.can_step(x, y, p),
    ensures
        g.carve(x, y, p).wf(),
        keeps_links(g, g.carve(x, y, p), g.whole()),
        g.carve(x, y, p).whole() == g.whole(),
        g.carve(x, y, p).linked((x, y), step((x, y), p)),
        g.carve(x, y, p).linked(step((x, y), p), (x, y)),
{
    lemma_carve(g, x, y, p);
    let h = g.carve(x, y, p);
    let n = step((x, y), p);
    assert(h.open(x, y, p));
    assert(h.linked_by((x, y), n, p));
    assert(h.open(n.0, n.1, p.spec_opposite()));
    assert(h.linked_by(n, (x, y), p.spec_opposite()));
}

/// A carve keeps every walk.
pub proof fn lemma_carve_keeps(g: GridView, x: int, y: int, p: Pole, a: Pos, b: Pos)
    requires
        g.wf(),
        g.can_step(x, y, p),
        g.reaches(a, b),
    ensures
        g.carve(x, y, p).reaches(a, b),
{
    lemma_carve_links(g, x, y, p);
    lemma_reaches_mono(g, g.carve(x, y, p), g.whole(), g.whole(), a, b);
}

/// A row of cells joined by passages towards the east: when `root` reaches
/// one of them, it reaches each of them.
pub proof fn lemma_run_reached(g: GridView, root: Pos, y: int, lo: int, hi: int, r: int, a: int)
    requires
        g.wf(),
        0 <= lo <= r <= hi < g.width,
        0 <= y < g.height,
        lo <= a <= hi,
        forall|k: int| lo <= k < hi ==> #[trigger] g.open(k, y, Pole::E),
        g.reaches(root, (r, y)),
    ensures
        g.reaches(root, (a, y)),
    decreases
            if a < r {
                r - a
            } else {
                a - r
            },
{
    if a < r {
        lemma_run_reached(g, root, y, lo, hi, r, a + 1);
        assert(g.open(a, y, Pole::E));
        assert(g.linked_by((a, y), (a + 1, y), Pole::E));
        lemma_linked_symmetric(g, (a, y), (a + 1, y));
        lemma_reaches_step(g, g.whole(), root, (a + 1, y), (a, y));
    } else if a > r {
        lemma_run_reached(g, root, y, lo, hi, r, a - 1);
        assert(g.open(a - 1, y, Pole::E));
        assert(g.linked_by((a - 1, y), (a, y), Pole::E));
        lemma_reaches_step(g, g.whole(), root, (a - 1, y), (a, y));
    }
}

/// A carve between a cell that `root` reaches and a neighbour keeps every
/// visited cell within reach of `root`, the two carved cells included.
pub proof fn lemma_carve_grows(g: GridView, root: Pos, x: int, y: int, p: Pole)
    requires
        g.wf(),
        g.can_step(x, y, p),
        g.visited_reach(root),
        g.reaches(root, (x, y)) || g.reaches(root, step((x, y), p)),
    ensures
        g.carve(x, y, p).wf(),
        g.carve(x, y, p).visited_reach(root),
        g.carve(x, y, p).reaches(root, (x, y)),
        g.carve(x, y, p).reaches(root, step((x, y), p)),
{
    lemma_carve(g, x, y, p);
    lemma_carve_links(g, x, y, p);
    let h = g.carve(x, y, p);
    let c = (x, y);
    let n = step(c, p);
    if g.reaches(root, c) {
        lemma_reaches_mono(g, h, g.whole(), h.whole(), root, c);
        lemma_reaches_step(h, h.whole(), root, c, n);
    } else {
        lemma_reaches_mono(g, h, g.whole(), h.whole(), root, n);
        lemma_reaches_step(h, h.whole(), root, n, c);
    }
    assert forall|d: Pos| h.holds(d) && h.visited(d.0, d.1) implies #[trigger] h.reaches(
        root,
        d,
    ) by {
        if d == c || d == n {
        } else {
            assert(g.visited(d.0, d.1));
            assert(g.reaches(root, d));
            lemma_reaches_mono(g, h, g.whole(), h.whole(), root, d);
        }
    }
}

} // verus!
