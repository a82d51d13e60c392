//! Rendering a maze as a tile map for games that draw their world by ray
//! casting.

use crate::cell::Cell;
use crate::formatters::{Formatter, StringWrapper};
use crate::grid::{Grid, GridView};
use crate::pole::Pole;
use crate::random::{lemma_shuffled, RandPositions};
use crate::types::Coords;
use vstd::prelude::*;

verus! {

/// The kinds of game maps: with or without a start and a goal.
pub trait ExtraState {

}

/// A map without a start and a goal.
pub struct NoStartGoal;

/// A map with a start and a goal on its border.
pub struct WithStartGoal {
    pub start: char,
    pub goal: char,
}

impl ExtraState for NoStartGoal {

}

impl ExtraState for WithStartGoal {

}

/// The settings that all game maps share.
pub struct GameMapState {
    /// The number of tiles between two walls.
    pub span: usize,
    /// The tile of a wall.
    pub wall: char,
    /// The tile of a passage.
    pub passage: char,
}

/// A formatter that renders a maze as a map of tiles.
///
/// A map with a span of 1, a start and a goal:
///
/// ```text
/// #######
/// S...#.#
/// ###.#.#
/// #...#.#
/// #.###.#
/// #.....G
/// #######
/// ```
pub struct GameMap<S: ExtraState> {
    pub state: Box<GameMapState>,
    pub extra: S,
}

/// Whether the cell south-east of `(cx, cy)` exists and is open towards the
/// west and the north.
pub open spec fn corner_open(g: GridView, cx: int, cy: int) -> bool {
    g.in_bounds(cx + 1, cy + 1) && g.open(cx + 1, cy + 1, Pole::W) && g.open(
        cx + 1,
        cy + 1,
        Pole::N,
    )
}

/// Whether the tile `(x, y)`, counted without the northern and the western
/// wall of the map, is a passage. Every cell takes `step` tiles each way, the
/// last of them for its southern and eastern wall.
pub open spec fn tile_open(g: GridView, step: int, x: int, y: int) -> bool {
    let cx = x / step;
    let cy = y / step;
    let last_row = (y + 1) % step == 0;
    let last_col = (x + 1) % step == 0;
    if !last_row && !last_col {
        true
    } else if !last_row {
        g.open(cx, cy, Pole::E)
    } else if !last_col {
        g.open(cx, cy, Pole::S)
    } else {
        g.open(cx, cy, Pole::E) && g.open(cx, cy, Pole::S) && corner_open(g, cx, cy)
    }
}

/// The tile in column `col` and row `row` of the map.
pub open spec fn map_tile(
    g: GridView,
    step: int,
    wall: char,
    passage: char,
    col: int,
    row: int,
) -> char {
    if row == 0 || col == 0 {
        wall
    } else if tile_open(g, step, col - 1, row - 1) {
        passage
    } else {
        wall
    }
}

/// The number of columns of the map of a grid.
pub open spec fn map_cols(g: GridView, span: int) -> int {
    g.width * (span + 1) + 1
}

/// The number of rows of the map of a grid.
pub open spec fn map_rows(g: GridView, span: int) -> int {
    g.height * (span + 1) + 1
}

/// The tiles of the map of a grid, row by row.
pub open spec fn map_tiles(g: GridView, span: int, wall: char, passage: char) -> Seq<char> {
    Seq::new(
        (map_rows(g, span) * map_cols(g, span)) as nat,
        |i: int|
            map_tile(g, span + 1, wall, passage, i % map_cols(g, span), i / map_cols(g, span)),
    )
}

/// Whether the map of a grid fits into memory.
pub open spec fn map_fits(g: GridView, span: int) -> bool {
    map_rows(g, span) * map_cols(g, span) <= usize::MAX
}

/// The first `n` tiles as text, with a line break after every `cols` tiles.
pub open spec fn map_text(map: Seq<char>, cols: int, n: int) -> Seq<char>
    decreases n,
{
    if n <= 0 {
        Seq::<char>::empty()
    } else if n % cols == 0 {
        map_text(map, cols, n - 1).push(map[n - 1]).push('\n')
    } else {
        map_text(map, cols, n - 1).push(map[n - 1])
    }
}

/// The neighbours of a tile inside a map: the one above, the one below, the
/// one to the left and the one to the right, as far as they exist.
pub open spec fn tile_neighbors(row: int, col: int, cols: int, rows: int) -> Seq<Coords> {
    (if row > 0 {
        seq![((row - 1) as usize, col as usize)]
    } else {
        Seq::<Coords>::empty()
    }) + (if row < rows - 1 {
        seq![((row + 1) as usize, col as usize)]
    } else {
        Seq::<Coords>::empty()
    }) + (if col > 0 {
        seq![(row as usize, (col - 1) as usize)]
    } else {
        Seq::<Coords>::empty()
    }) + (if col < cols - 1 {
        seq![(row as usize, (col + 1) as usize)]
    } else {
        Seq::<Coords>::empty()
    })
}

/// Whether the tile of the map is a passage.
pub open spec fn is_passage(map: Seq<char>, cols: int, passage: char, row: int, col: int) -> bool {
    map[row * cols + col] == passage
}

/// Whether a start or a goal may stand on the tile: it lies on the border of
/// the map and has a passage next to it.
pub open spec fn may_hold_mark(
    map: Seq<char>,
    cols: int,
    rows: int,
    passage: char,
    row: int,
    col: int,
) -> bool {
    &&& (row == 0 || row == rows - 1 || col == 0 || col == cols - 1)
    &&& ((row > 0 && is_passage(map, cols, passage, row - 1, col)) || (row < rows - 1
        && is_passage(map, cols, passage, row + 1, col)) || (col > 0 && is_passage(
        map,
        cols,
        passage,
        row,
        col - 1,
    )) || (col < cols - 1 && is_passage(map, cols, passage, row, col + 1)))
}

/// The tiles among the first `n` on which a start or a goal may stand, as
/// pairs of row and column, row by row.
pub open spec fn marks_before(
    map: Seq<char>,
    cols: int,
    rows: int,
    passage: char,
    n: int,
) -> Seq<Coords>
    decreases n,
{
    if n <= 0 {
        Seq::<Coords>::empty()
    } else if may_hold_mark(map, cols, rows, passage, (n - 1) / cols, (n - 1) % cols) {
        marks_before(map, cols, rows, passage, n - 1).push(
            (((n - 1) / cols) as usize, ((n - 1) % cols) as usize),
        )
    } else {
        marks_before(map, cols, rows, passage, n - 1)
    }
}

/// The tiles on which a start or a goal may stand. An empty map has none.
pub open spec fn possible_marks(map: Seq<char>, cols: int, rows: int, passage: char) -> Seq<
    Coords,
> {
    if map.len() == 0 {
        Seq::<Coords>::empty()
    } else {
        marks_before(map, cols, rows, passage, rows * cols)
    }
}

/// The place of the first position from `from` on that shares neither its
/// row nor its column with the first position of all.
pub open spec fn goal_place(positions: Seq<Coords>, from: int) -> Option<int>
    decreases positions.len() - from,
{
    if from < 0 || from >= positions.len() {
        None
    } else if positions[from].0 != positions[0].0 && positions[from].1 != positions[0].1 {
        Some(from)
    } else {
        goal_place(positions, from + 1)
    }
}

/// The map after the start has been put on the first of the positions and
/// the goal on the first position in another row and another column. Without
/// such positions the map stays without the mark.
pub open spec fn marked_map(
    map: Seq<char>,
    positions: Seq<Coords>,
    cols: int,
    start: char,
    goal: char,
) -> Seq<char> {
    if positions.len() == 0 {
        map
    } else {
        let with_start = map.update(positions[0].0 * cols + positions[0].1, start);
        match goal_place(positions, 0) {
            Some(k) => with_start.update(positions[k].0 * cols + positions[k].1, goal),
            None => with_start,
        }
    }
}

/// Returns whether the cell south-east of `(cx, cy)` exists and is open
/// towards the west and the north.
pub fn bottom_right_neighbour_exists(cx: usize, cy: usize, grid: &Grid) -> (r: bool)
    requires
        grid@.wf(),
    ensures
        r == corner_open(grid@, cx as int, cy as int),
{
    if cx >= grid.width() || cy >= grid.height() {
        return false;
    }
    if cx + 1 >= grid.width() || cy + 1 >= grid.height() {
        return false;
    }
    grid.is_carved((cx + 1, cy + 1), Cell::west()) && grid.is_carved(
        (cx + 1, cy + 1),
        Cell::north(),
    )
}

/// Returns the tiles as text, with a line break after every `cols` tiles.
pub fn write_map(map: &Vec<char>, cols: usize) -> (r: String)
    requires
        cols >= 1,
    ensures
        r@ == map_text(map@, cols as int, map@.len() as int),
{
    let mut ascii_map = String::new();
    let mut i: usize = 0;
    while i < map.len()
        invariant
            i <= map@.len(),
            cols >= 1,
            ascii_map@ == map_text(map@, cols as int, i as int),
        decreases map@.len() - i,
    {
        ascii_map.push(map[i]);
        if (i + 1) % cols == 0 {
            ascii_map.push('\n');
        }
        i += 1;
    }
    ascii_map
}

/// Returns the neighbours of a tile inside a map: the one above, the one
/// below, the one to the left and the one to the right, as far as they exist.
pub fn iter_neighbors(coords: Coords, cols: usize, rows: usize) -> (r: Vec<Coords>)
    requires
        coords.0 < rows,
        coords.1 < cols,
    ensures
        r@ == tile_neighbors(coords.0 as int, coords.1 as int, cols as int, rows as int),
{
    let (row, col) = coords;
    let mut adjacent_coords: Vec<Coords> = Vec::new();
    if row > 0 {
        adjacent_coords.push((row - 1, col));
    }
    if row < rows - 1 {
        adjacent_coords.push((row + 1, col));
    }
    if col > 0 {
        adjacent_coords.push((row, col - 1));
    }
    if col < cols - 1 {
        adjacent_coords.push((row, col + 1));
    }
    assert(adjacent_coords@ =~= tile_neighbors(row as int, col as int, cols as int, rows as int));
    adjacent_coords
}

/// The place of a tile in the map, and the row and the column that the place

/// stands for.

proof fn lemma_tile_index(cols: int, rows: int, row: int, col: int)
    requires
        0 <= row < rows,
        0 <= col < cols,
    ensures
        0 <= row * cols + col < rows * cols,
        (row * cols + col) / cols == row,
        (row * cols + col) % cols == col,
{
    crate::grid::lemma_index_bounds(cols, rows, col, row);
    assert(cols * rows == rows * cols) by (nonlinear_arith);
    vstd::arithmetic::div_mod::lemma_fundamental_div_mod_converse(row * cols + col, cols, row, col);
}

/// Returns the numbers of columns and rows of the map of a grid.
pub fn map_sizes(state: &GameMapState, grid: &Grid) -> (r: (usize, usize))
    requires
        grid@.wf(),
        map_fits(grid@, state.span as int),
    ensures
        r.0 == map_cols(grid@, state.span as int),
        r.1 == map_rows(grid@, state.span as int),
        r.0 >= 1,
        r.1 >= 1,
        r.1 * r.0 <= usize::MAX,
        state.span + 1 <= usize::MAX,
{
    let ghost g = grid@;
    let w = grid.width();
    let h = grid.height();
    proof {
        let rows = map_rows(g, state.span as int);
        let cols = map_cols(g, state.span as int);
        assert(1 <= rows && rows <= rows * cols && 1 <= cols && cols <= rows * cols && g.width * (
        state.span + 1) >= state.span + 1 && g.height * (state.span + 1) >= state.span + 1)
            by (nonlinear_arith)
            requires
                rows == g.height * (state.span + 1) + 1,
                cols == g.width * (state.span + 1) + 1,
                g.width >= 1,
                g.height >= 1,
                state.span >= 0,
        ;
    }
    let step = state.span + 1;
    (w * step + 1, h * step + 1)
}

/// Returns the tiles of the map of a grid, row by row.
pub fn build_map(state: &GameMapState, grid: &Grid) -> (r: Vec<char>)
    requires
        grid@.wf(),
        map_fits(grid@, state.span as int),
    ensures
        r@ == map_tiles(grid@, state.span as int, state.wall, state.passage),
{
    let ghost g = grid@;
    let w = grid.width();
    let h = grid.height();
    let (map_cols, map_rows) = map_sizes(state, grid);
    let step = state.span + 1;
    let total = map_rows * map_cols;
    let mut map: Vec<char> = Vec::new();
    let mut i: usize = 0;
    while i < total
        invariant
            i <= total,
            g == grid@,
            g.wf(),
            w == g.width,
            h == g.height,
            step == state.span + 1,
            map_rows == h * step + 1,
            map_cols == w * step + 1,
            total == map_rows * map_cols,
            map@.len() == i,
            forall|k: int|
                0 <= k < i ==> #[trigger] map@[k] == map_tile(
                    g,
                    step as int,
                    state.wall,
                    state.passage,
                    k % map_cols as int,
                    k / map_cols as int,
                ),
        decreases total - i,
    {
        let row = i / map_cols;
        let col = i % map_cols;
        let tile = if row == 0 || col == 0 {
            state.wall
        } else {
            let x = col - 1;
            let y = row - 1;
            let cx = x / step;
            let cy = y / step;
            proof {
                assert(map_cols * map_rows == map_rows * map_cols && step * w == w * step && step
                    * h == h * step) by (nonlinear_arith);
                crate::grid::lemma_cell_of_index(map_cols as int, map_rows as int, i as int);
                vstd::arithmetic::div_mod::lemma_multiply_divide_lt(x as int, step as int, w as int);
                vstd::arithmetic::div_mod::lemma_multiply_divide_lt(y as int, step as int, h as int);
            }
            let last_row = (y + 1) % step == 0;
            let last_col = (x + 1) % step == 0;
            let open = if !last_row && !last_col {
                true
            } else if !last_row {
                grid.is_carved((cx, cy), Cell::east())
            } else if !last_col {
                grid.is_carved((cx, cy), Cell::south())
            } else {
                grid.is_carved((cx, cy), Cell::east()) && grid.is_carved((cx, cy), Cell::south())
                    && bottom_right_neighbour_exists(cx, cy, grid)
            };
            if open {
                state.passage
            } else {
                state.wall
            }
        };
        map.push(tile);
        i += 1;
    }
    assert(map@ =~= map_tiles(g, state.span as int, state.wall, state.passage));
    map
}

impl GameMap<NoStartGoal> {
    /// Returns a formatter with a span of 2, `#` for walls and `.` for
    /// passages.
    pub fn new() -> (r: GameMap<NoStartGoal>)
        ensures
            r.state.span == 2,
            r.state.wall == '#',
            r.state.passage == '.',
    {
        GameMap { state: Box::new(GameMapState { span: 2, wall: '#', passage: '.' }), extra: NoStartGoal }
    }

    /// Turns the formatter into one that puts a start `S` and a goal `G` on
    /// the border of the map.
    pub fn with_start_goal(self) -> (r: GameMap<WithStartGoal>)
        ensures
            r.state == self.state,
            r.extra.start == 'S',
            r.extra.goal == 'G',
    {
        GameMap { state: self.state, extra: WithStartGoal { start: 'S', goal: 'G' } }
    }

    /// Sets the span: the number of tiles between two walls.
    pub fn span(self, span: usize) -> (r: GameMap<NoStartGoal>)
        ensures
            r.state.span == span,
            r.state.wall == self.state.wall,
            r.state.passage == self.state.passage,
    {
        GameMap {
            state: Box::new(
                GameMapState { span, wall: self.state.wall, passage: self.state.passage },
            ),
            extra: NoStartGoal,
        }
    }

    /// Sets the tile of a wall.
    pub fn wall(self, wall: char) -> (r: GameMap<NoStartGoal>)
        ensures
            r.state.span == self.state.span,
            r.state.wall == wall,
            r.state.passage == self.state.passage,
    {
        GameMap {
            state: Box::new(
                GameMapState { span: self.state.span, wall, passage: self.state.passage },
            ),
            extra: NoStartGoal,
        }
    }

    /// Sets the tile of a passage.
    pub fn passage(self, passage: char) -> (r: GameMap<NoStartGoal>)
        ensures
            r.state.span == self.state.span,
            r.state.wall == self.state.wall,
            r.state.passage == passage,
    {
        GameMap {
            state: Box::new(GameMapState { span: self.state.span, wall: self.state.wall, passage }),
            extra: NoStartGoal,
        }
    }
}

impl Default for GameMap<NoStartGoal> {
    fn default() -> (r: GameMap<NoStartGoal>)
        ensures
            r.state.span == 2,
            r.state.wall == '#',
            r.state.passage == '.',
    {
        GameMap::new()
    }
}

impl GameMap<WithStartGoal> {
    /// Sets the tile of the goal.
    pub fn goal(self, goal: char) -> (r: GameMap<WithStartGoal>)
        ensures
            r.state == self.state,
            r.extra.start == self.extra.start,
            r.extra.goal == goal,
    {
        GameMap { state: self.state, extra: WithStartGoal { start: self.extra.start, goal } }
    }

    /// Sets the tile of the start.
    pub fn start(self, start: char) -> (r: GameMap<WithStartGoal>)
        ensures
            r.state == self.state,
            r.extra.start == start,
            r.extra.goal == self.extra.goal,
    {
        GameMap { state: self.state, extra: WithStartGoal { start, goal: self.extra.goal } }
    }

    /// Returns the tiles on which a start or a goal may stand, as pairs of row
    /// and column, row by row: the tiles on the border of the map that have a
    /// passage next to them. An empty map has none.
    pub fn iter_possible_start_and_goal_positions(
        &self,
        map: &Vec<char>,
        cols: usize,
        rows: usize,
    ) -> (r: Vec<Coords>)
        requires
            map@.len() == 0 || map@.len() == rows * cols,
        ensures
            r@ == possible_marks(map@, cols as int, rows as int, self.state.passage),
            forall|k: int| 0 <= k < r@.len() ==> (#[trigger] r@[k]).0 < rows && r@[k].1 < cols,
    {
        let mut coords: Vec<Coords> = Vec::new();
        if map.len() == 0 {
            return coords;
        }
        let total = map.len();
        let passage = self.state.passage;
        let mut i: usize = 0;
        while i < total
            invariant
                i <= total,
                total == map@.len(),
                total == rows * cols,
                passage == self.state.passage,
                coords@ == marks_before(map@, cols as int, rows as int, passage, i as int),
                forall|k: int|
                    0 <= k < coords@.len() ==> (#[trigger] coords@[k]).0 < rows && coords@[k].1
                        < cols,
            decreases total - i,
        {
            assert(cols >= 1 && cols * rows == rows * cols) by (nonlinear_arith)
                requires
                    i < rows * cols,
            ;
            let row = i / cols;
            let col = i % cols;
            proof {
                crate::grid::lemma_cell_of_index(cols as int, rows as int, i as int);
            }
            if row == 0 || row == rows - 1 || col == 0 || col == cols - 1 {
                proof {
                    if row > 0 {
                        lemma_tile_index(cols as int, rows as int, row - 1, col as int);
                    }
                    if row < rows - 1 {
                        lemma_tile_index(cols as int, rows as int, row + 1, col as int);
                    }
                    if col > 0 {
                        lemma_tile_index(cols as int, rows as int, row as int, col - 1);
                    }
                    if col < cols - 1 {
                        lemma_tile_index(cols as int, rows as int, row as int, col + 1);
                    }
                }
                let near = (row > 0 && map[(row - 1) * cols + col] == passage) || (row < rows - 1
                    && map[(row + 1) * cols + col] == passage) || (col > 0 && map[row * cols + col
                    - 1] == passage) || (col < cols - 1 && map[row * cols + col + 1] == passage);
                if near {
                    coords.push((row, col));
                }
            }
            i += 1;
        }
        coords
    }

    /// Puts the start on the first of the positions and the goal on the first
    /// position in another row and another column. Without such positions the
    /// map stays without the mark.
    pub fn place_start_and_goal(&self, map: &mut Vec<char>, positions: &Vec<Coords>, cols: usize)
        requires
            forall|k: int|
                0 <= k < positions@.len() ==> (#[trigger] positions@[k]).0 * cols + positions@[k].1
                    < old(map)@.len(),
        ensures
            final(map)@ == marked_map(
                old(map)@,
                positions@,
                cols as int,
                self.extra.start,
                self.extra.goal,
            ),
            final(map)@.len() == old(map)@.len(),
    {
        if positions.len() == 0 {
            return ;
        }
        let limit = map.len();
        let (srow, scol) = positions[0];
        assert(positions@[0].0 * cols + positions@[0].1 < map@.len());
        assert(0 <= srow * cols) by (nonlinear_arith);
        map[srow * cols + scol] = self.extra.start;
        let mut k: usize = 0;
        while k < positions.len()
            invariant
                k <= positions@.len(),
                positions@.len() > 0,
                (srow, scol) == positions@[0],
                limit == old(map)@.len(),
                map@.len() == limit,
                goal_place(positions@, 0) == goal_place(positions@, k as int),
                map@ == old(map)@.update(srow * cols + scol, self.extra.start),
                forall|j: int|
                    0 <= j < positions@.len() ==> (#[trigger] positions@[j]).0 * cols
                        + positions@[j].1 < old(map)@.len(),
            decreases positions@.len() - k,
        {
            let (grow, gcol) = positions[k];
            if gcol != scol && grow != srow {
                assert(positions@[k as int].0 * cols + positions@[k as int].1 < map@.len());
                assert(0 <= grow * cols) by (nonlinear_arith);
                map[grow * cols + gcol] = self.extra.goal;
                return ;
            }
            k += 1;
        }
    }
}

impl Formatter<StringWrapper> for GameMap<NoStartGoal> {
    open spec fn fits(&self, g: GridView) -> bool {
        map_fits(g, self.state.span as int)
    }

    open spec fn formats(&self, g: GridView, out: StringWrapper) -> bool {
        out.0@ == map_text(
            map_tiles(g, self.state.span as int, self.state.wall, self.state.passage),
            map_cols(g, self.state.span as int),
            map_rows(g, self.state.span as int) * map_cols(g, self.state.span as int),
        )
    }

    /// Renders the grid as a map of tiles, each row of tiles on a line of its
    /// own.
    fn format(&self, grid: &Grid) -> (r: StringWrapper) {
        let map = build_map(&self.state, grid);
        let (cols, rows) = map_sizes(&self.state, grid);
        StringWrapper(write_map(&map, cols))
    }
}

impl Formatter<StringWrapper> for GameMap<WithStartGoal> {
    open spec fn fits(&self, g: GridView) -> bool {
        map_fits(g, self.state.span as int)
    }

    open spec fn formats(&self, g: GridView, out: StringWrapper) -> bool {
        exists|order: Seq<Coords>| #[trigger]
            order.to_multiset() == possible_marks(
                map_tiles(g, self.state.span as int, self.state.wall, self.state.passage),
                map_cols(g, self.state.span as int),
                map_rows(g, self.state.span as int),
                self.state.passage,
            ).to_multiset() && out.0@ == map_text(
                marked_map(
                    map_tiles(g, self.state.span as int, self.state.wall, self.state.passage),
                    order,
                    map_cols(g, self.state.span as int),
                    self.extra.start,
                    self.extra.goal,
                ),
                map_cols(g, self.state.span as int),
                map_rows(g, self.state.span as int) * map_cols(g, self.state.span as int),
            )
    }

    /// Renders the grid as a map of tiles and puts a start and a goal on tiles
    /// of the border, picked at random among those next to a passage.
    fn format(&self, grid: &Grid) -> (r: StringWrapper) {
        let mut map = build_map(&self.state, grid);
        let (cols, rows) = map_sizes(&self.state, grid);
        let ghost tiles = map@;
        let mut positions = self.iter_possible_start_and_goal_positions(&map, cols, rows);
        let ghost listed = positions@;
        RandPositions::rand(&mut positions);
        proof {
            lemma_shuffled(listed, positions@);
            assert forall|k: int| 0 <= k < positions@.len() implies (#[trigger] positions@[k]).0
                * cols + positions@[k].1 < map@.len() by {
                assert(positions@.contains(positions@[k]));
                assert(listed.contains(positions@[k]));
                let j = choose|j: int| 0 <= j < listed.len() && listed[j] == positions@[k];
                lemma_tile_index(
                    cols as int,
                    rows as int,
                    listed[j].0 as int,
                    listed[j].1 as int,
                );
            }
        }
        self.place_start_and_goal(&mut map, &positions, cols);
        let text = write_map(&map, cols);
        proof {
            let order = positions@;
            let marked = marked_map(tiles, order, cols as int, self.extra.start, self.extra.goal);
            assert(map@ == marked);
            assert(marked.len() == tiles.len());
            assert(tiles.len() == rows * cols);
            assert(order.to_multiset() == listed.to_multiset());
        }
        StringWrapper(text)
    }
}

} // verus!
