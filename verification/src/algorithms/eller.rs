//! Eller's algorithm.

use crate::algorithms::Algorithm;
use crate::cell::Cell;
use crate::grid::{lemma_carve, lemma_carve_count, lemma_fresh, Grid, GridView};
use crate::paths::{
    lemma_carve_keeps, lemma_carve_links, lemma_connected_from, lemma_reaches_self,
    lemma_reaches_step, lemma_reaches_sym, lemma_reaches_trans, step, Pos,
};
use crate::pole::Pole;
use crate::random::{lemma_shuffled, random_bool, random_range, shuffle};
use crate::types::Coords;
use rand::rngs::StdRng;
use vstd::prelude::*;

verus! {

/// Eller's algorithm: it works on one row at a time and remembers only which
/// cells of that row are joined, so its memory grows with the width of the
/// grid, not with its size.
pub struct Eller;

/// The sets of one row: for each column the number of its set, or `None`
/// while the cell has not been given one.
pub struct State {
    width: usize,
    next_set_id: usize,
    row_num: usize,
    cells: Vec<Option<usize>>,
}

/// The labels after every cell of the set `from` has moved to the set `to`.
pub open spec fn relabel(labels: Seq<Option<usize>>, from: usize, to: usize) -> Seq<Option<usize>> {
    Seq::new(
        labels.len(),
        |i: int|
            if labels[i] == Some(from) {
                Some(to)
            } else {
                labels[i]
            },
    )
}

/// The number of cells without a set among the first `n`.
pub open spec fn unset_before(labels: Seq<Option<usize>>, n: int) -> int
    decreases n,
{
    if n <= 0 {
        0
    } else {
        unset_before(labels, n - 1) + if labels[n - 1] is None {
            1int
        } else {
            0int
        }
    }
}

/// The labels after each cell without a set has been given a new one: the
/// numbers from `next` on, from west to east.
pub open spec fn populated(labels: Seq<Option<usize>>, next: usize) -> Seq<Option<usize>> {
    Seq::new(
        labels.len(),
        |i: int|
            if labels[i] is None {
                Some((next + unset_before(labels, i)) as usize)
            } else {
                labels[i]
            },
    )
}

/// The columns of the first `n` cells that belong to the set `id`, from west
/// to east.
pub open spec fn members_before(labels: Seq<Option<usize>>, id: usize, n: int) -> Seq<usize>
    decreases n,
{
    if n <= 0 {
        Seq::<usize>::empty()
    } else if labels[n - 1] == Some(id) {
        members_before(labels, id, n - 1).push((n - 1) as usize)
    } else {
        members_before(labels, id, n - 1)
    }
}

/// Among `n` cells at most `n` are without a set.

pub proof fn lemma_unset_bounds(labels: Seq<Option<usize>>, n: int)
    requires
        0 <= n <= labels.len(),
    ensures
        0 <= unset_before(labels, n) <= n,
    decreases n,
{
    if n > 0 {
        lemma_unset_bounds(labels, n - 1);
    }
}

/// The number of cells without a set grows with the number of cells looked

/// at, and grows past each cell without a set.

pub proof fn lemma_unset_monotone(labels: Seq<Option<usize>>, a: int, b: int)
    requires
        0 <= a <= b <= labels.len(),
    ensures
        unset_before(labels, a) <= unset_before(labels, b),
        a < b && labels[a] is None ==> unset_before(labels, a) < unset_before(labels, b),
    decreases b - a,
{
    if a < b {
        lemma_unset_monotone(labels, a, b - 1);
        lemma_unset_bounds(labels, b - 1);
    }
}

/// What the list of the members of a set holds.
pub proof fn lemma_members(labels: Seq<Option<usize>>, id: usize, n: int)
    requires
        0 <= n <= labels.len(),
        labels.len() <= usize::MAX,
    ensures
        forall|i: int|
            0 <= i < members_before(labels, id, n).len() ==> (#[trigger] members_before(
                labels,
                id,
                n,
            )[i]) < n && labels[members_before(labels, id, n)[i] as int] == Some(id),
        forall|k: int|
            0 <= k < n && labels[k] == Some(id) ==> members_before(labels, id, n).contains(
                k as usize,
            ),
    decreases n,
{
    if n > 0 {
        lemma_members(labels, id, n - 1);
        let prev = members_before(labels, id, n - 1);
        let all = members_before(labels, id, n);
        assert forall|i: int| 0 <= i < all.len() implies (#[trigger] all[i]) < n && labels[all[i] as int]
            == Some(id) by {
            if i < prev.len() {
                assert(all[i] == prev[i]);
            }
        }
        assert forall|k: int| 0 <= k < n && labels[k] == Some(id) implies all.contains(
            k as usize,
        ) by {
            if k < n - 1 {
                assert(prev.contains(k as usize));
                let i = choose|i: int| 0 <= i < prev.len() && prev[i] == k as usize;
                assert(all[i] == k as usize);
            } else {
                assert(all[all.len() - 1] == k as usize);
            }
        }
    }
}

impl State {
    /// The number of columns.
    pub closed spec fn width(&self) -> int {
        self.width as int
    }

    /// The row that the state describes.
    pub closed spec fn row(&self) -> int {
        self.row_num as int
    }

    /// The smallest number that no set has been given yet.
    pub closed spec fn next_id(&self) -> int {
        self.next_set_id as int
    }

    /// The set of each column.
    pub closed spec fn labels(&self) -> Seq<Option<usize>> {
        self.cells@
    }

    /// The validity of a state: one entry per column, and every set below
    /// the next number.
    pub open spec fn wf(&self) -> bool {
        &&& self.labels().len() == self.width()
        &&& forall|i: int|
            0 <= i < self.labels().len() ==> match #[trigger] self.labels()[i] {
                Some(id) => id < self.next_id(),
                None => true,
            }
    }

    /// Whether every cell has a set.
    pub open spec fn complete(&self) -> bool {
        forall|i: int| 0 <= i < self.labels().len() ==> #[trigger] self.labels()[i] is Some
    }

    /// Creates the state of a row in which no cell has a set yet.
    pub fn new(row_num: usize, next_set_id: usize, width: usize) -> (r: State)
        ensures
            r.wf(),
            r.width() == width,
            r.row() == row_num,
            r.next_id() == next_set_id,
            r.labels() == Seq::new(width as nat, |i: int| None::<usize>),
    {
        let mut cells: Vec<Option<usize>> = Vec::new();
        let mut i: usize = 0;
        while i < width
            invariant
                i <= width,
                cells@.len() == i,
                forall|k: int| 0 <= k < i ==> #[trigger] cells@[k] is None,
            decreases width - i,
        {
            cells.push(None);
            i += 1;
        }
        assert(cells@ =~= Seq::new(width as nat, |i: int| None::<usize>));
        State { width, next_set_id, row_num, cells }
    }

    /// Creates the state of the row below, in which no cell has a set yet.
    pub fn next(&self) -> (r: State)
        requires
            self.row() < usize::MAX,
        ensures
            r.wf(),
            r.width() == self.width(),
            r.row() == self.row() + 1,
            r.next_id() == self.next_id(),
            r.labels() == Seq::new(self.width() as nat, |i: int| None::<usize>),
    {
        State::new(self.row_num + 1, self.next_set_id, self.width)
    }

    /// Gives each cell without a set a new set of its own.
    pub fn populate(self) -> (r: State)
        requires
            self.wf(),
            self.next_id() + self.width() <= usize::MAX,
        ensures
            r.wf(),
            r.complete(),
            r.width() == self.width(),
            r.row() == self.row(),
            r.labels() == populated(self.labels(), self.next_id() as usize),
            r.next_id() == self.next_id() + unset_before(self.labels(), self.width()),
    {
        let mut state = self;
        let ghost before = state.cells@;
        let ghost first = state.next_set_id;
        let mut n: usize = 0;
        proof {
            lemma_unset_bounds(before, before.len() as int);
        }
        while n < state.width
            invariant
                n <= state.width,
                state.width == self.width,
                state.row_num == self.row_num,
                before == self.labels(),
                first == self.next_id(),
                before.len() == state.width,
                state.cells@.len() == before.len(),
                first + state.width <= usize::MAX,
                state.next_set_id == first + unset_before(before, n as int),
                forall|i: int| 0 <= i < n ==> #[trigger] state.cells@[i] == populated(before, first)[i],
                forall|i: int| n <= i < before.len() ==> #[trigger] state.cells@[i] == before[i],
                forall|i: int|
                    0 <= i < before.len() ==> match #[trigger] before[i] {
                        Some(id) => id < first,
                        None => true,
                    },
            decreases state.width - n,
        {
            proof {
                lemma_unset_bounds(before, n as int);
                lemma_unset_bounds(before, n + 1);
            }
            if state.cells[n].is_none() {
                let id = state.next_set_id;
                state.next_set_id = state.next_set_id + 1;
                state.cells[n] = Some(id);
            }
            n += 1;
        }
        proof {
            assert(state.cells@ =~= populated(before, first));
            assert forall|i: int| 0 <= i < state.cells@.len() implies match #[trigger] state.cells@[i] {
                Some(id) => id < state.next_set_id,
                None => false,
            } by {
                lemma_unset_bounds(before, i);
                lemma_unset_monotone(before, i, before.len() as int);
                assert(state.cells@[i] == populated(before, first)[i]);
            }
        }
        state
    }

    /// Puts the cell of a column into a set.
    pub fn add(&mut self, col: usize, set_id: usize)
        requires
            old(self).wf(),
            col < old(self).width(),
            set_id < old(self).next_id(),
        ensures
            final(self).wf(),
            final(self).width() == old(self).width(),
            final(self).row() == old(self).row(),
            final(self).next_id() == old(self).next_id(),
            final(self).labels() == old(self).labels().update(col as int, Some(set_id)),
    {
        self.cells[col] = Some(set_id);
    }

    /// Moves every cell of the set of `target` into the set of `sink`.
    pub fn connect(&mut self, sink: usize, target: usize)
        requires
            old(self).wf(),
            old(self).complete(),
            sink < old(self).width(),
            target < old(self).width(),
        ensures
            final(self).wf(),
            final(self).complete(),
            final(self).width() == old(self).width(),
            final(self).row() == old(self).row(),
            final(self).next_id() == old(self).next_id(),
            final(self).labels() == relabel(
                old(self).labels(),
                old(self).labels()[target as int]->0,
                old(self).labels()[sink as int]->0,
            ),
    {
        let ghost before = self.cells@;
        assert(before[sink as int] is Some && before[target as int] is Some);
        let to = self.cells[sink].unwrap();
        let from = self.cells[target].unwrap();
        let mut i: usize = 0;
        while i < self.width
            invariant
                i <= self.width,
                self.width == old(self).width,
                self.row_num == old(self).row_num,
                self.next_set_id == old(self).next_set_id,
                before == old(self).labels(),
                old(self).wf(),
                old(self).complete(),
                self.cells@.len() == before.len(),
                before.len() == self.width,
                to < self.next_set_id,
                forall|k: int| 0 <= k < i ==> #[trigger] self.cells@[k] == relabel(before, from, to)[k],
                forall|k: int| i <= k < before.len() ==> #[trigger] self.cells@[k] == before[k],
            decreases self.width - i,
        {
            if self.cells[i] == Some(from) {
                self.cells[i] = Some(to);
            }
            i += 1;
        }
        proof {
            assert(self.cells@ =~= relabel(before, from, to));
            assert forall|k: int| 0 <= k < self.cells@.len() implies match #[trigger] self.cells@[k] {
                Some(id) => id < self.next_set_id,
                None => false,
            } by {
                assert(before[k] is Some);
                assert(self.cells@[k] == relabel(before, from, to)[k]);
            }
        }
    }

    /// Returns whether the cells of two columns are in the same set.
    pub fn connected(&self, id: usize, other_id: usize) -> (r: bool)
        requires
            self.wf(),
            id < self.width(),
            other_id < self.width(),
        ensures
            r == (self.labels()[id as int] == self.labels()[other_id as int]),
    {
        self.cells[id] == self.cells[other_id]
    }

    /// Returns the position of the cell of a column.
    pub fn get_cell_coords(&self, id: usize) -> (r: Coords)
        ensures
            r.0 == id,
            r.1 == self.row(),
    {
        (id, self.row_num)
    }

    /// Returns the set of a column.
    pub fn set_of(&self, col: usize) -> (r: Option<usize>)
        requires
            self.wf(),
            col < self.width(),
        ensures
            r == self.labels()[col as int],
    {
        self.cells[col]
    }

    /// Returns whether no column west of `col` is in the set of `col`.
    pub fn is_first(&self, col: usize) -> (r: bool)
        requires
            self.wf(),
            col < self.width(),
        ensures
            r == forall|k: int| 0 <= k < col ==> #[trigger] self.labels()[k] != self.labels()[col as int],
    {
        let mut k: usize = 0;
        while k < col
            invariant
                k <= col,
                col < self.cells@.len(),
                forall|j: int| 0 <= j < k ==> #[trigger] self.cells@[j] != self.cells@[col as int],
            decreases col - k,
        {
            if self.cells[k] == self.cells[col] {
                assert(self.labels()[k as int] == self.labels()[col as int]);
                return false;
            }
            k += 1;
        }
        true
    }

    /// Returns the columns of the cells of a set, from west to east.
    pub fn members(&self, set_id: usize) -> (r: Vec<usize>)
        requires
            self.wf(),
        ensures
            r@ == members_before(self.labels(), set_id, self.width()),
    {
        let mut out: Vec<usize> = Vec::new();
        let mut k: usize = 0;
        while k < self.width
            invariant
                k <= self.width,
                self.cells@.len() == self.width,
                out@ == members_before(self.cells@, set_id, k as int),
            decreases self.width - k,
        {
            if self.cells[k] == Some(set_id) {
                out.push(k);
            }
            k += 1;
        }
        out
    }
}

/// Whether cells of row `y` that share a set can reach each other.
pub open spec fn row_sound(g: GridView, y: int, labels: Seq<Option<usize>>) -> bool {
    forall|a: int, b: int|
        #![trigger labels[a], labels[b]]
        0 <= a < labels.len() && 0 <= b < labels.len() && labels[a] is Some && labels[a]
            == labels[b] ==> g.reaches((a, y), (b, y))
}

/// Whether the cell `u` can reach a cell of row `y`.
pub open spec fn tied(g: GridView, y: int, u: Pos) -> bool {
    exists|a: int| 0 <= a < g.width && #[trigger] g.reaches(u, (a, y))
}

/// Whether every cell above row `y` can reach a cell of row `y`.
pub open spec fn above_tied(g: GridView, y: int) -> bool {
    forall|u: Pos| g.holds(u) && u.1 < y ==> #[trigger] tied(g, y, u)
}

/// Whether the rows below row `y` are untouched, and the cells of row `y`
/// have no passage towards the south.
pub open spec fn below_closed(g: GridView, y: int) -> bool {
    &&& forall|c: Pos, p: Pole| g.holds(c) && c.1 > y ==> !#[trigger] g.open(c.0, c.1, p)
    &&& forall|k: int| 0 <= k < g.width ==> !#[trigger] g.open(k, y, Pole::S)
}

/// Whether the cells of row `y` from column `c` on have no passage towards
/// the east.
pub open spec fn east_closed(g: GridView, y: int, c: int) -> bool {
    forall|k: int| c <= k < g.width ==> !#[trigger] g.open(k, y, Pole::E)
}

/// The number of sets of a row.
pub open spec fn set_count(labels: Seq<Option<usize>>) -> int {
    labels.to_set().len() as int
}

/// Whether the state describes a row of the grid truthfully: cells of one
/// set can reach each other, every cell above can reach the row, nothing below
/// the row has been touched, and the passages so far number the cells down to
/// this row less the sets of the row.
pub open spec fn row_ready(g: GridView, state: State) -> bool {
    &&& g.wf()
    &&& state.wf()
    &&& state.complete()
    &&& state.width() == g.width
    &&& 0 <= state.row() < g.height
    &&& row_sound(g, state.row(), state.labels())
    &&& above_tied(g, state.row())
    &&& below_closed(g, state.row())
    &&& g.passage_count() == (state.row() + 1) * g.width - set_count(state.labels())
}

/// Whether a cell of the set of column `a` has been joined to the row below.
pub open spec fn covered(labels: Seq<Option<usize>>, below: Seq<Option<usize>>, a: int) -> bool {
    exists|k: int| 0 <= k < labels.len() && labels[k] == labels[a] && #[trigger] below[k] is Some
}

/// Whether the set of column `a` has a cell among the first `c` columns.
pub open spec fn seen_before(labels: Seq<Option<usize>>, c: int, a: int) -> bool {
    exists|f: int| 0 <= f < c && #[trigger] labels[f] == labels[a]
}

/// Whether the cells of the row below that have a set are those below an
/// open passage, and got their set from the cell above them.
pub open spec fn handed_down(
    g: GridView,
    y: int,
    labels: Seq<Option<usize>>,
    below: Seq<Option<usize>>,
) -> bool {
    &&& below.len() == labels.len()
    &&& forall|a: int|
        0 <= a < below.len() ==> (#[trigger] below[a] is Some <==> g.open(a, y, Pole::S))
    &&& forall|a: int| 0 <= a < below.len() && #[trigger] below[a] is Some ==> below[a] == labels[a]
}

/// The state while the passages towards the row below are carved: the rows
/// further down are untouched, the row below has no passages but those from
/// above, and each passage from above has been counted.
pub open spec fn descending(
    g: GridView,
    y: int,
    labels: Seq<Option<usize>>,
    below: Seq<Option<usize>>,
) -> bool {
    &&& handed_down(g, y, labels, below)
    &&& forall|c: Pos, p: Pole| g.holds(c) && c.1 > y + 1 ==> !#[trigger] g.open(c.0, c.1, p)
    &&& forall|k: int, p: Pole|
        0 <= k < g.width && p != Pole::N ==> !#[trigger] g.open(k, y + 1, p)
    &&& g.passage_count() == (y + 1) * g.width - set_count(labels) + (g.width - unset_before(
        below,
        g.width,
    ))
}

/// A carve keeps what is known of the reach of the cells of a row.

proof fn lemma_row_kept(g: GridView, y: int, labels: Seq<Option<usize>>, x: int, cy: int, p: Pole)
    requires
        g.wf(),
        g.can_step(x, cy, p),
        row_sound(g, y, labels),
        above_tied(g, y),
    ensures
        row_sound(g.carve(x, cy, p), y, labels),
        above_tied(g.carve(x, cy, p), y),
{
    let h = g.carve(x, cy, p);
    lemma_carve(g, x, cy, p);
    assert forall|a: int, b: int|
        #![trigger labels[a], labels[b]]
        0 <= a < labels.len() && 0 <= b < labels.len() && labels[a] is Some && labels[a]
            == labels[b] implies h.reaches((a, y), (b, y)) by {
        lemma_carve_keeps(g, x, cy, p, (a, y), (b, y));
    }
    assert forall|u: Pos| h.holds(u) && u.1 < y implies #[trigger] tied(h, y, u) by {
        assert(tied(g, y, u));
        let a = choose|a: int| 0 <= a < g.width && #[trigger] g.reaches(u, (a, y));
        lemma_carve_keeps(g, x, cy, p, u, (a, y));
    }
}

/// After a carve towards the east and the merge of the two sets, cells of

/// one set still reach each other.

proof fn lemma_row_join(g: GridView, y: int, labels: Seq<Option<usize>>, c: int)
    requires
        g.wf(),
        0 <= y < g.height,
        0 <= c,
        c + 1 < g.width,
        labels.len() == g.width,
        forall|i: int| 0 <= i < labels.len() ==> #[trigger] labels[i] is Some,
        row_sound(g, y, labels),
    ensures
        row_sound(g.carve(c, y, Pole::E), y, relabel(labels, labels[c + 1]->0, labels[c]->0)),
{
    let h = g.carve(c, y, Pole::E);
    let from = labels[c + 1]->0;
    let to = labels[c]->0;
    let after = relabel(labels, from, to);
    let u = (c, y);
    let v = (c + 1, y);
    lemma_carve_links(g, c, y, Pole::E);
    assert(step(u, Pole::E) == v);
    assert forall|a: int, b: int|
        #![trigger after[a], after[b]]
        0 <= a < after.len() && 0 <= b < after.len() && after[a] is Some && after[a]
            == after[b] implies h.reaches((a, y), (b, y)) by {
        assert(labels[a] is Some && labels[b] is Some);
        if labels[a] == labels[b] {
            assert(g.reaches((a, y), (b, y)));
            lemma_carve_keeps(g, c, y, Pole::E, (a, y), (b, y));
        } else if labels[a] == Some(from) {
            // a was with the eastern cell, b with the western one
            assert(labels[a] == labels[c + 1]);
            assert(labels[c] == labels[b]);
            assert(g.reaches((a, y), v));
            assert(g.reaches(u, (b, y)));
            lemma_carve_keeps(g, c, y, Pole::E, (a, y), v);
            lemma_carve_keeps(g, c, y, Pole::E, u, (b, y));
            lemma_reaches_step(h, h.whole(), (a, y), v, u);
            lemma_reaches_trans(h, h.whole(), (a, y), u, (b, y));
        } else {
            assert(labels[b] == labels[c + 1]);
            assert(labels[a] == labels[c]);
            assert(g.reaches((a, y), u));
            assert(g.reaches(v, (b, y)));
            lemma_carve_keeps(g, c, y, Pole::E, (a, y), u);
            lemma_carve_keeps(g, c, y, Pole::E, v, (b, y));
            lemma_reaches_step(h, h.whole(), (a, y), u, v);
            lemma_reaches_trans(h, h.whole(), (a, y), v, (b, y));
        }
    }
}

/// Moving the cells of one set into another leaves one set less.
pub proof fn lemma_relabel_count(labels: Seq<Option<usize>>, c: int, d: int)
    requires
        0 <= c < labels.len(),
        0 <= d < labels.len(),
        forall|i: int| 0 <= i < labels.len() ==> #[trigger] labels[i] is Some,
        labels[c] != labels[d],
    ensures
        set_count(relabel(labels, labels[d]->0, labels[c]->0)) == set_count(labels) - 1,
{
    broadcast use vstd::set::group_set_axioms;

    let from = labels[d]->0;
    let to = labels[c]->0;
    let after = relabel(labels, from, to);
    vstd::seq_lib::seq_to_set_is_finite(labels);
    assert(labels.contains(labels[d]));
    assert(labels.contains(labels[c]));
    assert forall|v: Option<usize>| after.to_set().contains(v) <==> labels.to_set().remove(
        Some(from),
    ).contains(v) by {
        if after.contains(v) {
            let i = choose|i: int| 0 <= i < after.len() && after[i] == v;
            if labels[i] == Some(from) {
                assert(v == Some(to));
                assert(labels[c] == Some(to));
            } else {
                assert(labels.contains(labels[i]));
            }
        }
        if labels.contains(v) && v != Some(from) {
            let i = choose|i: int| 0 <= i < labels.len() && labels[i] == v;
            assert(after[i] == v);
        }
    }
    assert(after.to_set() =~= labels.to_set().remove(Some(from)));
}

/// A row in which all cells share a set has one set.
pub proof fn lemma_one_set(labels: Seq<Option<usize>>)
    requires
        labels.len() > 0,
        forall|i: int| 0 <= i < labels.len() ==> #[trigger] labels[i] == labels[0],
    ensures
        set_count(labels) == 1,
{
    broadcast use vstd::set::group_set_axioms;

    assert(labels.contains(labels[0]));
    assert(labels.to_set() =~= Set::<Option<usize>>::empty().insert(labels[0]));
}

/// The sets that the cells without a set are given: the numbers from `first`
/// on.
pub open spec fn new_sets(first: usize, count: int) -> Seq<Option<usize>> {
    Seq::new(count as nat, |j: int| Some((first + j) as usize))
}

/// Among the first `n` cells, each cell without a set has another number of
/// such cells before it, and every number below their count occurs.
pub proof fn lemma_unset_place(labels: Seq<Option<usize>>, n: int, j: int) -> (i: int)
    requires
        0 <= n <= labels.len(),
        0 <= j < unset_before(labels, n),
    ensures
        0 <= i < n,
        labels[i] is None,
        unset_before(labels, i) == j,
    decreases n,
{
    lemma_unset_bounds(labels, n - 1);
    if labels[n - 1] is None && unset_before(labels, n - 1) == j {
        n - 1
    } else {
        lemma_unset_place(labels, n - 1, j)
    }
}

/// The row below has the sets of the row above it and one new set for each
/// of its cells that is not below a passage.
pub proof fn lemma_next_count(labels: Seq<Option<usize>>, below: Seq<Option<usize>>, first: usize)
    requires
        below.len() == labels.len(),
        forall|i: int| 0 <= i < labels.len() ==> #[trigger] labels[i] is Some && labels[i]->0 < first,
        first + labels.len() <= usize::MAX,
        forall|a: int| 0 <= a < below.len() && #[trigger] below[a] is Some ==> below[a] == labels[a],
        forall|a: int| 0 <= a < labels.len() ==> covered(labels, below, a),
    ensures
        set_count(populated(below, first)) == set_count(labels) + unset_before(
            below,
            below.len() as int,
        ),
{
    broadcast use vstd::set::group_set_axioms;

    let n = below.len() as int;
    let m = unset_before(below, n);
    let after = populated(below, first);
    let fresh = new_sets(first, m);
    lemma_unset_bounds(below, n);
    vstd::seq_lib::seq_to_set_is_finite(labels);
    vstd::seq_lib::seq_to_set_is_finite(fresh);
    assert(fresh.no_duplicates());
    fresh.unique_seq_to_set();
    assert forall|v: Option<usize>| after.to_set().contains(v) <==> labels.to_set().union(
        fresh.to_set(),
    ).contains(v) by {
        if after.contains(v) {
            let i = choose|i: int| 0 <= i < after.len() && after[i] == v;
            if below[i] is Some {
                assert(labels.contains(labels[i]));
            } else {
                lemma_unset_bounds(below, i);
                lemma_unset_monotone(below, i, n);
                assert(fresh[unset_before(below, i)] == v);
                assert(fresh.contains(v));
            }
        }
        if labels.contains(v) {
            let a = choose|a: int| 0 <= a < labels.len() && labels[a] == v;
            assert(covered(labels, below, a));
            let k = choose|k: int|
                0 <= k < labels.len() && labels[k] == labels[a] && #[trigger] below[k] is Some;
            assert(after[k] == v);
        }
        if fresh.contains(v) {
            let j = choose|j: int| 0 <= j < fresh.len() && fresh[j] == v;
            let i = lemma_unset_place(below, n, j);
            assert(after[i] == v);
        }
    }
    assert(after.to_set() =~= labels.to_set().union(fresh.to_set()));
    assert(labels.to_set().disjoint(fresh.to_set())) by {
        assert forall|v: Option<usize>|
            !(labels.to_set().contains(v) && fresh.to_set().contains(v)) by {
            if labels.contains(v) && fresh.contains(v) {
                let a = choose|a: int| 0 <= a < labels.len() && labels[a] == v;
                let j = choose|j: int| 0 <= j < fresh.len() && fresh[j] == v;
                assert(labels[a]->0 < first);
            }
        }
    }
    vstd::set_lib::lemma_set_disjoint_lens(labels.to_set(), fresh.to_set());
}

/// In the top row every cell is a set of its own.
pub proof fn lemma_first_count(width: int)
    requires
        0 <= width <= usize::MAX,
    ensures
        set_count(populated(Seq::new(width as nat, |i: int| None::<usize>), 0)) == width,
{
    let none = Seq::new(width as nat, |i: int| None::<usize>);
    let after = populated(none, 0);
    let fresh = new_sets(0, width);
    assert forall|i: int| 0 <= i <= width implies unset_before(none, i) == i by {
        lemma_unset_all(none, i);
    }
    assert(after =~= fresh);
    assert(fresh.no_duplicates());
    fresh.unique_seq_to_set();
}

/// In a row in which no cell has a set, every cell counts as without a set.

proof fn lemma_unset_all(labels: Seq<Option<usize>>, n: int)
    requires
        0 <= n <= labels.len(),
        forall|i: int| 0 <= i < labels.len() ==> #[trigger] labels[i] is None,
    ensures
        unset_before(labels, n) == n,
    decreases n,
{
    if n > 0 {
        lemma_unset_all(labels, n - 1);
    }
}

/// Giving a cell a set leaves one cell less without a set, unless the cell
/// had a set before.
pub proof fn lemma_unset_update(labels: Seq<Option<usize>>, col: int, id: usize, n: int)
    requires
        0 <= col < labels.len(),
        0 <= n <= labels.len(),
    ensures
        unset_before(labels.update(col, Some(id)), n) == unset_before(labels, n) - if col < n
            && labels[col] is None {
            1int
        } else {
            0int
        },
    decreases n,
{
    if n > 0 {
        lemma_unset_update(labels, col, id, n - 1);
    }
}

/// When all cells of the last row share a set, the grid is a spanning tree.
proof fn lemma_last_row(g: GridView, y: int, labels: Seq<Option<usize>>)
    requires
        g.wf(),
        y == g.height - 1,
        labels.len() == g.width,
        forall|i: int| 0 <= i < labels.len() ==> #[trigger] labels[i] is Some,
        forall|i: int| 0 <= i < labels.len() ==> #[trigger] labels[i] == labels[0],
        row_sound(g, y, labels),
        above_tied(g, y),
        g.passage_count() == (y + 1) * g.width - set_count(labels),
    ensures
        g.spanning_tree(),
{
    let root = (0int, y);
    assert forall|c: Pos| g.holds(c) implies #[trigger] g.reaches(root, c) by {
        if c.1 == y {
            assert(labels[0] == labels[c.0]);
            assert(g.reaches((0, y), (c.0, y)));
        } else {
            assert(tied(g, y, c));
            let a = choose|a: int| 0 <= a < g.width && #[trigger] g.reaches(c, (a, y));
            assert(labels[0] == labels[a]);
            assert(g.reaches((0, y), (a, y)));
            lemma_reaches_sym(g, g.whole(), c, (a, y));
            lemma_reaches_trans(g, g.whole(), root, (a, y), c);
        }
    }
    lemma_connected_from(g, root);
    lemma_one_set(labels);
    assert((y + 1) * g.width == g.width * g.height) by (nonlinear_arith)
        requires
            y + 1 == g.height,
    ;
}

/// A cell below an open passage and the cell above it reach each other.
proof fn lemma_down_link(g: GridView, y: int, a: int)
    requires
        g.wf(),
        g.in_bounds(a, y),
        g.open(a, y, Pole::S),
    ensures
        g.reaches((a, y), (a, y + 1)),
        g.reaches((a, y + 1), (a, y)),
{
    assert(g.mirrored(a, y, Pole::S));
    assert(g.linked_by((a, y), (a, y + 1), Pole::S));
    lemma_reaches_self(g, g.whole(), (a, y));
    lemma_reaches_step(g, g.whole(), (a, y), (a, y), (a, y + 1));
    lemma_reaches_sym(g, g.whole(), (a, y), (a, y + 1));
}

/// Two cells of the row below that share a set reach each other.
proof fn lemma_below_pair(
    g: GridView,
    y: int,
    labels: Seq<Option<usize>>,
    below: Seq<Option<usize>>,
    first: usize,
    a: int,
    b: int,
)
    requires
        g.wf(),
        0 <= y,
        y + 1 < g.height,
        labels.len() == g.width,
        below.len() == g.width,
        0 <= a < g.width,
        0 <= b < g.width,
        labels[a] is Some && labels[a]->0 < first,
        labels[b] is Some && labels[b]->0 < first,
        first + labels.len() <= usize::MAX,
        labels[a] == labels[b] ==> g.reaches((a, y), (b, y)),
        below[a] is Some ==> below[a] == labels[a] && g.open(a, y, Pole::S),
        below[b] is Some ==> below[b] == labels[b] && g.open(b, y, Pole::S),
        populated(below, first)[a] == populated(below, first)[b],
    ensures
        g.reaches((a, y + 1), (b, y + 1)),
{
    lemma_unset_bounds(below, a);
    lemma_unset_bounds(below, b);
    if below[a] is Some && below[b] is Some {
        lemma_down_link(g, y, a);
        lemma_down_link(g, y, b);
        lemma_reaches_trans(g, g.whole(), (a, y + 1), (a, y), (b, y));
        lemma_reaches_trans(g, g.whole(), (a, y + 1), (b, y), (b, y + 1));
    } else if below[a] is None && below[b] is None {
        if a < b {
            lemma_unset_monotone(below, a, b);
        } else if b < a {
            lemma_unset_monotone(below, b, a);
        }
        lemma_reaches_self(g, g.whole(), (a, y + 1));
    }
}

/// A cell that reaches a cell of row `y` whose set has been joined to the row
/// below reaches a cell of the row below.
proof fn lemma_below_tied(g: GridView, y: int, u: Pos, a: int, k: int)
    requires
        g.wf(),
        0 <= y,
        y + 1 < g.height,
        0 <= a < g.width,
        0 <= k < g.width,
        g.reaches(u, (a, y)),
        g.reaches((a, y), (k, y)),
        g.open(k, y, Pole::S),
    ensures
        tied(g, y + 1, u),
{
    lemma_down_link(g, y, k);
    lemma_reaches_trans(g, g.whole(), u, (a, y), (k, y));
    lemma_reaches_trans(g, g.whole(), u, (k, y), (k, y + 1));
    assert(g.reaches(u, (k, y + 1)));
}

/// When every set of a row has been joined to the row below, the row below
/// is described truthfully once its remaining cells have sets of their own.
proof fn lemma_row_below(
    g: GridView,
    y: int,
    labels: Seq<Option<usize>>,
    below: Seq<Option<usize>>,
    first: usize,
)
    requires
        g.wf(),
        0 <= y,
        y + 1 < g.height,
        labels.len() == g.width,
        forall|i: int| 0 <= i < labels.len() ==> #[trigger] labels[i] is Some && labels[i]->0 < first,
        first + labels.len() <= usize::MAX,
        row_sound(g, y, labels),
        above_tied(g, y),
        descending(g, y, labels, below),
        forall|a: int| 0 <= a < labels.len() ==> covered(labels, below, a),
    ensures
        row_sound(g, y + 1, populated(below, first)),
        above_tied(g, y + 1),
        below_closed(g, y + 1),
        east_closed(g, y + 1, 0),
        g.passage_count() == (y + 2) * g.width - set_count(populated(below, first)),
{
    let after = populated(below, first);
    assert forall|a: int, b: int|
        #![trigger after[a], after[b]]
        0 <= a < after.len() && 0 <= b < after.len() && after[a] is Some && after[a]
            == after[b] implies g.reaches((a, y + 1), (b, y + 1)) by {
        assert(labels[a] is Some && labels[b] is Some);
        assert(below[a] is Some ==> below[a] == labels[a] && g.open(a, y, Pole::S));
        assert(below[b] is Some ==> below[b] == labels[b] && g.open(b, y, Pole::S));
        lemma_below_pair(g, y, labels, below, first, a, b);
    }
    assert forall|u: Pos| g.holds(u) && u.1 < y + 1 implies #[trigger] tied(g, y + 1, u) by {
        let a = if u.1 == y {
            u.0
        } else {
            choose|a: int| 0 <= a < g.width && #[trigger] g.reaches(u, (a, y))
        };
        if u.1 == y {
            lemma_reaches_self(g, g.whole(), u);
        } else {
            assert(tied(g, y, u));
        }
        assert(covered(labels, below, a));
        let k = choose|k: int|
            0 <= k < labels.len() && labels[k] == labels[a] && #[trigger] below[k] is Some;
        assert(labels[a] is Some);
        assert(g.reaches((a, y), (k, y)));
        assert(g.open(k, y, Pole::S));
        lemma_below_tied(g, y, u, a, k);
    }
    lemma_next_count(labels, below, first);
    assert((y + 2) * g.width == (y + 1) * g.width + g.width) by (nonlinear_arith);
}

impl Eller {
    /// Joins neighbouring cells of the row that are in different sets: each
    /// pair with even chances, and every pair in the last row. A pair is joined
    /// by a passage towards the east and by merging the two sets.
    pub fn connect_disjoint_sets(
        &self,
        state: &mut State,
        grid: &mut Grid,
        is_last_row: bool,
        rng: &mut StdRng,
    )
        requires
            row_ready(old(grid)@, *old(state)),
            east_closed(old(grid)@, old(state).row(), 0),
        ensures
            row_ready(final(grid)@, *final(state)),
            final(grid)@.width == old(grid)@.width,
            final(grid)@.height == old(grid)@.height,
            final(state).row() == old(state).row(),
            final(state).next_id() == old(state).next_id(),
            is_last_row ==> forall|i: int|
                0 <= i < final(state).labels().len() ==> #[trigger] final(state).labels()[i]
                    == final(state).labels()[0],
    {
        let width = grid.width();
        let height = grid.height();
        let ghost y = state.row();
        let mut c: usize = 0;
        while c + 1 < width
            invariant
                row_ready(grid@, *state),
                east_closed(grid@, y, c as int),
                grid@.width == width,
                grid@.height == height,
                width == old(grid)@.width,
                height == old(grid)@.height,
                state.row() == y,
                y == old(state).row(),
                state.next_id() == old(state).next_id(),
                c < width,
                is_last_row ==> forall|i: int|
                    0 <= i <= c ==> #[trigger] state.labels()[i] == state.labels()[0],
            decreases width - c,
        {
            let ghost g = grid@;
            let ghost labels = state.labels();
            if state.connected(c, c + 1) || (!is_last_row && random_bool(rng)) {
                c += 1;
                continue ;
            }
            state.connect(c, c + 1);
            let (x, row) = state.get_cell_coords(c);
            proof {
                lemma_row_join(g, y, labels, c as int);
                lemma_row_kept(g, y, labels, c as int, y, Pole::E);
                lemma_carve(g, c as int, y, Pole::E);
                lemma_carve_count(g, c as int, y, Pole::E);
                lemma_relabel_count(labels, c as int, c + 1);
                assert(!g.open(c as int, y, Pole::E));
            }
            let _ = grid.carve_passage((x, row), Cell::east());
            proof {
                let h = grid@;
                if is_last_row {
                    assert forall|i: int| 0 <= i <= c + 1 implies #[trigger] state.labels()[i]
                        == state.labels()[0] by {
                        if i <= c {
                            assert(labels[i] == labels[0]);
                        }
                        assert(labels[c as int] == labels[0]);
                    }
                }
                assert forall|k: int| c + 1 <= k < h.width implies !#[trigger] h.open(
                    k,
                    y,
                    Pole::E,
                ) by {
                    assert(!g.open(k, y, Pole::E));
                }
                assert forall|d: Pos, p: Pole| h.holds(d) && d.1 > y implies !#[trigger] h.open(
                    d.0,
                    d.1,
                    p,
                ) by {
                    assert(!g.open(d.0, d.1, p));
                }
                assert forall|k: int| 0 <= k < h.width implies !#[trigger] h.open(k, y, Pole::S) by {
                    assert(!g.open(k, y, Pole::S));
                }
            }
            c += 1;
        }
    }

    /// Picks the cells of a set from which a passage leads down: the cells
    /// are shuffled and a random number of them is taken, at least one and, of
    /// a set of several cells, not all.
    pub fn cells_to_connect(&self, cells: Vec<usize>, rng: &mut StdRng) -> (r: Vec<usize>)
        ensures
            r@.len() <= cells@.len(),
            cells@.len() >= 1 ==> r@.len() >= 1,
            cells@.len() >= 2 ==> r@.len() < cells@.len(),
            forall|i: int| 0 <= i < r@.len() ==> cells@.contains(#[trigger] r@[i]),
    {
        let mut cells = cells;
        let ghost before = cells@;
        shuffle(rng, &mut cells);
        proof {
            lemma_shuffled(before, cells@);
        }
        let connect_count = if cells.len() >= 2 {
            random_range(rng, 1, cells.len())
        } else {
            1
        };
        let mut out: Vec<usize> = Vec::new();
        let mut i: usize = 0;
        while i < connect_count && i < cells.len()
            invariant
                i <= cells@.len(),
                i <= connect_count,
                out@.len() == i,
                cells@.len() == before.len(),
                forall|a: usize| before.contains(a) <==> cells@.contains(a),
                forall|k: int| 0 <= k < out@.len() ==> before.contains(#[trigger] out@[k]),
            decreases cells@.len() - i,
        {
            let cell = cells[i];
            assert(cells@.contains(cells@[i as int]));
            out.push(cell);
            i += 1;
        }
        out
    }

    /// Carves down from each of the given cells of a set and puts the cells
    /// below them into that set.
    fn connect_down(
        state: &State,
        below: &mut State,
        grid: &mut Grid,
        chosen: &Vec<usize>,
        set_id: usize,
    )
        requires
            old(grid)@.wf(),
            state.wf(),
            state.complete(),
            state.width() == old(grid)@.width,
            0 <= state.row(),
            state.row() + 1 < old(grid)@.height,
            row_sound(old(grid)@, state.row(), state.labels()),
            above_tied(old(grid)@, state.row()),
            old(below).wf(),
            old(below).width() == state.width(),
            old(below).next_id() == state.next_id(),
            descending(old(grid)@, state.row(), state.labels(), old(below).labels()),
            forall|i: int|
                0 <= i < chosen@.len() ==> (#[trigger] chosen@[i]) < state.width()
                    && state.labels()[chosen@[i] as int] == Some(set_id),
        ensures
            final(grid)@.wf(),
            final(grid)@.width == old(grid)@.width,
            final(grid)@.height == old(grid)@.height,
            row_sound(final(grid)@, state.row(), state.labels()),
            above_tied(final(grid)@, state.row()),
            final(below).wf(),
            final(below).width() == old(below).width(),
            final(below).row() == old(below).row(),
            final(below).next_id() == old(below).next_id(),
            descending(final(grid)@, state.row(), state.labels(), final(below).labels()),
            forall|a: int|
                0 <= a < old(below).labels().len() && #[trigger] old(below).labels()[a] is Some
                    ==> final(below).labels()[a] is Some,
            forall|i: int|
                0 <= i < chosen@.len() ==> final(below).labels()[#[trigger] chosen@[i] as int] is Some,
    {
        let ghost y = state.row();
        let ghost labels = state.labels();
        let mut i: usize = 0;
        while i < chosen.len()
            invariant
                i <= chosen@.len(),
                grid@.wf(),
                state.wf(),
                state.complete(),
                state.width() == grid@.width,
                row_sound(grid@, y, labels),
                above_tied(grid@, y),
                y == state.row(),
                labels == state.labels(),
                0 <= y,
                y + 1 < grid@.height,
                grid@.width == old(grid)@.width,
                grid@.height == old(grid)@.height,
                below.wf(),
                old(below).wf(),
                below.width() == old(below).width(),
                below.width() == state.width(),
                below.row() == old(below).row(),
                below.next_id() == old(below).next_id(),
                below.next_id() == state.next_id(),
                descending(grid@, y, labels, below.labels()),
                forall|k: int|
                    0 <= k < chosen@.len() ==> (#[trigger] chosen@[k]) < state.width()
                        && labels[chosen@[k] as int] == Some(set_id),
                forall|a: int|
                    0 <= a < old(below).labels().len() && #[trigger] old(below).labels()[a] is Some
                        ==> below.labels()[a] is Some,
                forall|k: int| 0 <= k < i ==> below.labels()[#[trigger] chosen@[k] as int] is Some,
            decreases chosen@.len() - i,
        {
            let col = chosen[i];
            let ghost g = grid@;
            let ghost low = below.labels();
            let (x, row) = state.get_cell_coords(col);
            proof {
                lemma_row_kept(g, y, labels, col as int, y, Pole::S);
                lemma_carve(g, col as int, y, Pole::S);
                lemma_carve_count(g, col as int, y, Pole::S);
                lemma_unset_update(low, col as int, set_id, g.width);
                assert(labels[col as int] is Some);
                assert(low[col as int] is Some <==> g.open(col as int, y, Pole::S));
            }
            let _ = grid.carve_passage((x, row), Cell::south());
            below.add(col, set_id);
            proof {
                let h = grid@;
                let now = below.labels();
                assert forall|a: int| 0 <= a < now.len() implies (#[trigger] now[a] is Some
                    <==> h.open(a, y, Pole::S)) by {
                    if a != col {
                        assert(low[a] is Some <==> g.open(a, y, Pole::S));
                    }
                }
                assert forall|a: int| 0 <= a < now.len() && #[trigger] now[a] is Some implies now[a]
                    == labels[a] by {
                    if a != col {
                        assert(low[a] is Some);
                    }
                }
                assert forall|c: Pos, p: Pole| h.holds(c) && c.1 > y + 1 implies !#[trigger] h.open(
                    c.0,
                    c.1,
                    p,
                ) by {
                    assert(!g.open(c.0, c.1, p));
                }
                assert forall|k: int, p: Pole|
                    0 <= k < h.width && p != Pole::N implies !#[trigger] h.open(k, y + 1, p) by {
                    assert(!g.open(k, y + 1, p));
                }
            }
            i += 1;
        }
    }

    /// Joins every set of the row to the row below by at least one passage and
    /// returns the state of the row below: a cell below a passage is in the set
    /// of the cell above it, every other cell in a new set of its own. The last
    /// row has no row below; for it the grid stays as it is.
    pub fn add_vertical_connections(
        &self,
        state: &State,
        grid: &mut Grid,
        is_last_row: bool,
        rng: &mut StdRng,
    ) -> (r: State)
        requires
            row_ready(old(grid)@, *state),
            is_last_row == (state.row() == old(grid)@.height - 1),
            state.next_id() + state.width() <= usize::MAX,
        ensures
            final(grid)@.wf(),
            final(grid)@.width == old(grid)@.width,
            final(grid)@.height == old(grid)@.height,
            r.next_id() <= state.next_id() + state.width(),
            is_last_row ==> final(grid)@ == old(grid)@,
            !is_last_row ==> row_ready(final(grid)@, r) && r.row() == state.row() + 1
                && east_closed(final(grid)@, r.row(), 0),
    {
        let width = grid.width();
        let height = grid.height();
        let mut below = state.next();
        if is_last_row {
            return below;
        }
        let ghost y = state.row();
        let ghost labels = state.labels();
        proof {
            let g = grid@;
            lemma_unset_all(below.labels(), width as int);
            assert(descending(g, y, labels, below.labels())) by {
                assert forall|c: Pos, p: Pole| g.holds(c) && c.1 > y + 1 implies !#[trigger] g.open(
                    c.0,
                    c.1,
                    p,
                ) by {}
                assert forall|k: int, p: Pole|
                    0 <= k < g.width && p != Pole::N implies !#[trigger] g.open(k, y + 1, p) by {
                    let c = (k, y + 1);
                    assert(g.holds(c));
                    assert(!g.open(c.0, c.1, p));
                }
            }
        }
        let mut c: usize = 0;
        while c < width
            invariant
                c <= width,
                grid@.wf(),
                state.wf(),
                state.complete(),
                state.width() == grid@.width,
                row_sound(grid@, y, labels),
                above_tied(grid@, y),
                y == state.row(),
                labels == state.labels(),
                0 <= y,
                y + 1 < grid@.height,
                grid@.width == width,
                grid@.height == height,
                width == old(grid)@.width,
                height == old(grid)@.height,
                below.wf(),
                below.width() == state.width(),
                below.row() == y + 1,
                below.next_id() == state.next_id(),
                descending(grid@, y, labels, below.labels()),
                forall|a: int|
                    0 <= a < labels.len() && seen_before(labels, c as int, a) ==> covered(
                        labels,
                        below.labels(),
                        a,
                    ),
            decreases width - c,
        {
            let ghost low = below.labels();
            if state.is_first(c) {
                let set_id = state.set_of(c).unwrap();
                let cells = state.members(set_id);
                proof {
                    lemma_members(labels, set_id, width as int);
                    assert(cells@.contains(c));
                }
                let chosen = self.cells_to_connect(cells, rng);
                proof {
                    assert forall|i: int| 0 <= i < chosen@.len() implies (#[trigger] chosen@[i])
                        < state.width() && labels[chosen@[i] as int] == Some(set_id) by {
                        assert(cells@.contains(chosen@[i]));
                        let j = choose|j: int| 0 <= j < cells@.len() && cells@[j] == chosen@[i];
                        assert(cells@[j] < width);
                    }
                }
                Eller::connect_down(state, &mut below, grid, &chosen, set_id);
                proof {
                    let k0 = chosen@[0] as int;
                    assert(below.labels()[k0] is Some);
                    assert forall|a: int|
                        0 <= a < labels.len() && seen_before(labels, c + 1, a) implies covered(
                        labels,
                        below.labels(),
                        a,
                    ) by {
                        let f = choose|f: int| 0 <= f < c + 1 && #[trigger] labels[f] == labels[a];
                        if f < c {
                            assert(seen_before(labels, c as int, a));
                            assert(covered(labels, low, a));
                            let k = choose|k: int|
                                0 <= k < labels.len() && labels[k] == labels[a] && #[trigger] low[k] is Some;
                            assert(below.labels()[k] is Some);
                        } else {
                            assert(labels[k0] == labels[a]);
                        }
                    }
                }
            } else {
                proof {
                    let e = choose|e: int| 0 <= e < c && labels[e] == labels[c as int];
                    assert forall|a: int|
                        0 <= a < labels.len() && seen_before(labels, c + 1, a) implies covered(
                        labels,
                        below.labels(),
                        a,
                    ) by {
                        let f = choose|f: int| 0 <= f < c + 1 && #[trigger] labels[f] == labels[a];
                        if f == c {
                            assert(labels[e] == labels[a]);
                        }
                        assert(seen_before(labels, c as int, a));
                    }
                }
            }
            c += 1;
        }
        proof {
            assert forall|a: int| 0 <= a < labels.len() implies covered(
                labels,
                below.labels(),
                a,
            ) by {
                assert(labels[a] == labels[a]);
                assert(seen_before(labels, width as int, a));
            }
            lemma_row_below(grid@, y, labels, below.labels(), state.next_id() as usize);
            lemma_unset_bounds(below.labels(), width as int);
        }
        below.populate()
    }
}

impl Algorithm for Eller {
    open spec fn name_text(&self) -> Seq<char> {
        "Eller"@
    }

    open spec fn supports_start(&self) -> bool {
        false
    }

    fn name(&self) -> (r: &'static str) {
        "Eller"
    }

    fn has_start_coords(&self) -> (r: bool) {
        false
    }

    /// Gives each cell of the top row a set of its own. Then, row by row, it
    /// joins neighbouring cells of different sets at random, joins every set to
    /// the row below, and gives the untouched cells of the row below sets of
    /// their own. In the last row it joins all neighbouring cells of different
    /// sets.
    fn generate(&mut self, grid: &mut Grid, rng: &mut StdRng, start: Option<Coords>) {
        let width = grid.width();
        let height = grid.height();
        proof {
            lemma_fresh(width as int, height as int);
        }
        let total = grid.cell_count();
        let mut state = State::new(0, 0, width).populate();
        proof {
            let first = Seq::new(width as nat, |i: int| None::<usize>);
            lemma_unset_bounds(first, width as int);
            lemma_first_count(width as int);
            assert(row_sound(grid@, 0, state.labels())) by {
                assert forall|a: int, b: int|
                    #![trigger state.labels()[a], state.labels()[b]]
                    0 <= a < state.labels().len() && 0 <= b < state.labels().len()
                        && state.labels()[a] is Some && state.labels()[a]
                        == state.labels()[b] implies grid@.reaches((a, 0), (b, 0)) by {
                    lemma_unset_bounds(first, a);
                    lemma_unset_bounds(first, b);
                    if a < b {
                        lemma_unset_monotone(first, a, b);
                    } else if b < a {
                        lemma_unset_monotone(first, b, a);
                    }
                    lemma_reaches_self(grid@, grid@.whole(), (a, 0));
                }
            }
            assert((0 + 1) * width == width) by (nonlinear_arith);
            assert(below_closed(grid@, 0)) by {
                assert forall|k: int| 0 <= k < grid@.width implies !#[trigger] grid@.open(
                    k,
                    0,
                    Pole::S,
                ) by {
                    assert(grid@.in_bounds(k, 0));
                }
            }
            assert(east_closed(grid@, 0, 0)) by {
                assert forall|k: int| 0 <= k < grid@.width implies !#[trigger] grid@.open(
                    k,
                    0,
                    Pole::E,
                ) by {
                    assert(grid@.in_bounds(k, 0));
                }
            }
        }
        let mut row: usize = 0;
        while row < height
            invariant
                row <= height,
                grid@.wf(),
                grid@.width == width,
                grid@.height == height,
                total == width * height,
                row < height ==> row_ready(grid@, state) && east_closed(grid@, row as int, 0)
                    && state.row() == row && state.next_id() <= (row + 1) * width,
                row == height ==> grid@.spanning_tree(),
            decreases height - row,
        {
            let is_last_row = row == height - 1;
            self.connect_disjoint_sets(&mut state, grid, is_last_row, rng);
            proof {
                if is_last_row {
                    lemma_last_row(grid@, row as int, state.labels());
                }
                assert((row + 1) * width + width == (row + 2) * width) by (nonlinear_arith);
                assert((row + 1) * width <= height * width) by (nonlinear_arith)
                    requires
                        row + 1 <= height,
                        width >= 0,
                ;
                if !is_last_row {
                    assert((row + 2) * width <= height * width) by (nonlinear_arith)
                        requires
                            row + 2 <= height,
                            width >= 0,
                    ;
                }
                assert(height * width == width * height) by (nonlinear_arith);
            }
            if is_last_row {
                row += 1;
            } else {
                state = self.add_vertical_connections(&state, grid, is_last_row, rng);
                row += 1;
            }
        }
    }
}

} // verus!
