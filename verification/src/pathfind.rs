//! Finding a way between two cells of a world whose cells carry the
//! passages of a maze.
//!
//! The cells are those of a game world, in which north is the direction of the
//! growing `y`.

use crate::cell::{Cell, CellView};
use crate::types::{Coords, CoordsComponent};
use vstd::prelude::*;

verus! {

/// The cost of moving away from a cell.
#[derive(Clone, Copy, Debug, PartialEq, Eq, Hash, Structural)]
pub struct Cost(pub u32);

impl Default for Cost {
    /// A move costs 1 where nothing else is said.
    fn default() -> (r: Cost)
        ensures
            r == Cost(1),
    {
        Cost(1)
    }
}

/// The algorithm that finds the way.
#[derive(Clone, Copy, Debug, PartialEq, Eq, Hash, Structural)]
pub enum Algorithm {
    /// The A* search of the `pathfinding` crate.
    Astar,
}

impl Default for Algorithm {
    fn default() -> (r: Algorithm)
        ensures
            r == Algorithm::Astar,
    {
        Algorithm::Astar
    }
}

/// A cell of the world: where it is, which passages it has, and what a move
/// away from it costs.
pub struct PathCell {
    pub coords: CoordsComponent,
    pub cell: Cell,
    pub cost: Option<Cost>,
}

/// A way from a start to a goal with its cost, or the knowledge that there is
/// none.
pub struct MazePath {
    /// The cells of the way, the start and the goal included, and its cost.
    pub path: Option<(Vec<CoordsComponent>, u32)>,
}

/// The largest coordinate between which ways are searched.
pub const COORD_LIMIT: usize = 0x3fff_ffff;

/// The largest sum of costs along a way.
pub const COST_LIMIT: u32 = 0x3fff_ffff;

/// The distance between two positions when walls are ignored.
pub open spec fn spec_distance(a: Coords, b: Coords) -> int {
    (if a.0 < b.0 {
        b.0 - a.0
    } else {
        a.0 - b.0
    }) + (if a.1 < b.1 {
        b.1 - a.1
    } else {
        a.1 - b.1
    })
}

/// The cost of a move away from a cell.
pub open spec fn move_cost(cost: Option<Cost>) -> u32 {
    match cost {
        Some(c) => c.0,
        None => 1,
    }
}

/// The neighbour that a passage leads to, if its coordinates can be written
/// down: east and west along `x`, north towards the larger `y`, south towards
/// the smaller.
pub open spec fn neighbor(at: Coords, north: bool, south: bool, east: bool, west: bool) -> Option<
    Coords,
> {
    if north {
        if at.1 < usize::MAX {
            Some((at.0, (at.1 + 1) as usize))
        } else {
            None
        }
    } else if south {
        if at.1 > 0 {
            Some((at.0, (at.1 - 1) as usize))
        } else {
            None
        }
    } else if east {
        if at.0 < usize::MAX {
            Some(((at.0 + 1) as usize, at.1))
        } else {
            None
        }
    } else if west {
        if at.0 > 0 {
            Some(((at.0 - 1) as usize, at.1))
        } else {
            None
        }
    } else {
        None
    }
}

/// The move through one passage of a cell, if the cell has the passage.
pub open spec fn step_through(at: Coords, open: bool, to: Option<Coords>, cost: u32) -> Seq<
    (Coords, u32),
> {
    match to {
        Some(c) => if open {
            seq![(c, cost)]
        } else {
            Seq::<(Coords, u32)>::empty()
        },
        None => Seq::<(Coords, u32)>::empty(),
    }
}

/// The moves away from a cell: one for each of its passages, in the order
/// north, south, east, west.
pub open spec fn moves_from(at: Coords, cell: CellView, cost: u32) -> Seq<(Coords, u32)> {
    step_through(at, cell.north, neighbor(at, true, false, false, false), cost) + step_through(
        at,
        cell.south,
        neighbor(at, false, true, false, false),
        cost,
    ) + step_through(at, cell.east, neighbor(at, false, false, true, false), cost) + step_through(
        at,
        cell.west,
        neighbor(at, false, false, false, true),
        cost,
    )
}

/// The place of the first cell at the given position, from `from` on.
pub open spec fn find_cell(cells: Seq<PathCell>, at: Coords, from: int) -> Option<int>
    decreases cells.len() - from,
{
    if from < 0 || from >= cells.len() {
        None
    } else if cells[from].coords.coord == at {
        Some(from)
    } else {
        find_cell(cells, at, from + 1)
    }
}

/// The moves away from a position: those of the first cell listed for it,
/// none where no cell is listed.
pub open spec fn spec_successors(at: Coords, cells: Seq<PathCell>) -> Seq<(Coords, u32)> {
    match find_cell(cells, at, 0) {
        Some(k) => moves_from(at, cells[k].cell@, move_cost(cells[k].cost)),
        None => Seq::<(Coords, u32)>::empty(),
    }
}

/// The moves as plain values.
pub open spec fn moves_view(moves: Seq<(CoordsComponent, u32)>) -> Seq<(Coords, u32)> {
    moves.map_values(|m: (CoordsComponent, u32)| (m.0.coord, m.1))
}

/// The cells as plain values: the position, the bit pattern of the passages
/// and the cost of a move.
pub open spec fn cells_view(cells: Seq<PathCell>) -> Seq<(Coords, int, u32)> {
    cells.map_values(|c: PathCell| (c.coords.coord, c.cell@.bits(), move_cost(c.cost)))
}

/// A way as plain values.
pub open spec fn route_view(route: Option<(Vec<CoordsComponent>, u32)>) -> Option<
    (Seq<Coords>, u32),
> {
    match route {
        Some((path, cost)) => Some((path@.map_values(|c: CoordsComponent| c.coord), cost)),
        None => None,
    }
}

/// The positions among the first `n` cells that are ends of the maze: the
/// cells with exactly one passage, in the order of the list.
pub open spec fn ends_before(cells: Seq<PathCell>, n: int) -> Seq<Coords>
    decreases n,
{
    if n <= 0 {
        Seq::<Coords>::empty()
    } else if cells[n - 1].cell@.count() == 1 {
        ends_before(cells, n - 1).push(cells[n - 1].coords.coord)
    } else {
        ends_before(cells, n - 1)
    }
}

/// The positions as plain values.
pub open spec fn coords_view(list: Seq<CoordsComponent>) -> Seq<Coords> {
    list.map_values(|c: CoordsComponent| c.coord)
}

/// Whether the search stays within the limits of its numbers: the positions
/// are small enough for distances to be computed, and so are the costs for
/// their sum along any way.
pub open spec fn searchable(cells: Seq<PathCell>, start: Coords, goal: Coords) -> bool {
    &&& start.0 <= COORD_LIMIT && start.1 <= COORD_LIMIT
    &&& goal.0 <= COORD_LIMIT && goal.1 <= COORD_LIMIT
    &&& forall|k: int|
        0 <= k < cells.len() ==> (#[trigger] cells[k]).coords.coord.0 < COORD_LIMIT
            && cells[k].coords.coord.1 < COORD_LIMIT && move_cost(cells[k].cost) * (cells.len()
            + 1) <= COST_LIMIT
}

/// What the A* search of the `pathfinding` crate returns for the cells, from
/// the start to the goal.
pub uninterp spec fn astar_route(cells: Seq<(Coords, int, u32)>, start: Coords, goal: Coords) -> Option<
    (Seq<Coords>, u32),
>;

/// Calls `pathfinding::prelude::astar` with the moves of [`MazePath::successors`]
/// and the distance of [`MazePath::distance`] as the estimate. The claims: the
/// result depends on the cells, the start and the goal alone, and a way that
/// is found leads from the start to the goal. Positions and costs so large
/// that the sums of the search could overflow are excluded.
#[verifier::external_body]
fn astar_search(start: &CoordsComponent, goal: &CoordsComponent, cells: &Vec<PathCell>) -> (r:
    Option<(Vec<CoordsComponent>, u32)>)
    requires
        searchable(cells@, start.coord, goal.coord),
    ensures
        route_view(r) == astar_route(cells_view(cells@), start.coord, goal.coord),
        match route_view(r) {
            Some((path, cost)) => path.len() >= 1 && path[0] == start.coord && path[path.len() - 1]
                == goal.coord,
            None => true,
        },
{
    ::pathfinding::prelude::astar(
        start,
        |p| MazePath::successors(p, cells),
        |p| MazePath::distance(p, goal),
        |p| p == goal,
    )
}

impl MazePath {
    /// Returns the distance between two positions when walls are ignored: the
    /// estimate that guides the search.
    pub fn distance(coords: &CoordsComponent, other: &CoordsComponent) -> (r: u32)
        requires
            spec_distance(coords.coord, other.coord) <= u32::MAX,
        ensures
            r == spec_distance(coords.coord, other.coord),
    {
        let dx = if coords.coord.0 < other.coord.0 {
            other.coord.0 - coords.coord.0
        } else {
            coords.coord.0 - other.coord.0
        };
        let dy = if coords.coord.1 < other.coord.1 {
            other.coord.1 - coords.coord.1
        } else {
            coords.coord.1 - other.coord.1
        };
        (dx + dy) as u32
    }

    /// Returns the moves away from a position: one for each passage of the
    /// cell listed for it, in the order north, south, east, west, each with the
    /// cost of the cell. A position for which no cell is listed has no moves,
    /// and a passage towards coordinates that cannot be written down is left
    /// out.
    pub fn successors(current: &CoordsComponent, cells: &Vec<PathCell>) -> (r: Vec<
        (CoordsComponent, u32),
    >)
        ensures
            moves_view(r@) == spec_successors(current.coord, cells@),
    {
        let at = current.coord;
        let mut out: Vec<(CoordsComponent, u32)> = Vec::new();
        let mut k: usize = 0;
        while k < cells.len()
            invariant
                k <= cells@.len(),
                at == current.coord,
                out@.len() == 0,
                find_cell(cells@, at, 0) == find_cell(cells@, at, k as int),
            decreases cells@.len() - k,
        {
            let entry = &cells[k];
            if entry.coords.coord.0 == at.0 && entry.coords.coord.1 == at.1 {
                let cost = match entry.cost {
                    Some(c) => c.0,
                    None => 1,
                };
                let (x, y) = at;
                if entry.cell.contains(Cell::north()) && y < usize::MAX {
                    out.push((CoordsComponent::new(x, y + 1), cost));
                }
                if entry.cell.contains(Cell::south()) && y > 0 {
                    out.push((CoordsComponent::new(x, y - 1), cost));
                }
                if entry.cell.contains(Cell::east()) && x < usize::MAX {
                    out.push((CoordsComponent::new(x + 1, y), cost));
                }
                if entry.cell.contains(Cell::west()) && x > 0 {
                    out.push((CoordsComponent::new(x - 1, y), cost));
                }
                assert(moves_view(out@) =~= moves_from(at, entry.cell@, cost));
                return out;
            }
            k += 1;
        }
        assert(moves_view(out@) =~= Seq::<(Coords, u32)>::empty());
        out
    }

    /// Returns the ends of the maze: the positions of the cells with exactly
    /// one passage, in the order of the list.
    pub fn ends(cells: &Vec<PathCell>) -> (r: Vec<CoordsComponent>)
        ensures
            coords_view(r@) == ends_before(cells@, cells@.len() as int),
    {
        let mut out: Vec<CoordsComponent> = Vec::new();
        let mut k: usize = 0;
        while k < cells.len()
            invariant
                k <= cells@.len(),
                coords_view(out@) == ends_before(cells@, k as int),
            decreases cells@.len() - k,
        {
            if cells[k].cell.walls_count() == 3 {
                out.push(CoordsComponent::new(cells[k].coords.coord.0, cells[k].coords.coord.1));
                assert(coords_view(out@) =~= ends_before(cells@, k + 1));
            }
            k += 1;
        }
        out
    }

    /// Searches the cheapest way from the start to each of the goals, and
    /// returns the ways in the order of the goals.
    pub fn find_all(
        start: &CoordsComponent,
        goals: &Vec<CoordsComponent>,
        cells: &Vec<PathCell>,
    ) -> (r: Vec<MazePath>)
        requires
            forall|i: int|
                0 <= i < goals@.len() ==> searchable(cells@, start.coord, (#[trigger] goals@[i]).coord),
        ensures
            r@.len() == goals@.len(),
            forall|i: int|
                0 <= i < r@.len() ==> route_view((#[trigger] r@[i]).path) == astar_route(
                    cells_view(cells@),
                    start.coord,
                    goals@[i].coord,
                ),
    {
        let mut out: Vec<MazePath> = Vec::new();
        let mut i: usize = 0;
        while i < goals.len()
            invariant
                i <= goals@.len(),
                out@.len() == i,
                forall|k: int|
                    0 <= k < goals@.len() ==> searchable(
                        cells@,
                        start.coord,
                        (#[trigger] goals@[k]).coord,
                    ),
                forall|k: int|
                    0 <= k < i ==> route_view((#[trigger] out@[k]).path) == astar_route(
                        cells_view(cells@),
                        start.coord,
                        goals@[k].coord,
                    ),
            decreases goals@.len() - i,
        {
            let found = MazePath::find(start, &goals[i], cells);
            out.push(found);
            i += 1;
        }
        out
    }

    /// Wraps the outcome of a search.
    pub fn from_route(route: Option<(Vec<CoordsComponent>, u32)>) -> (r: MazePath)
        ensures
            r.path == route,
    {
        MazePath { path: route }
    }

    /// Searches the cheapest way from the start to the goal.
    pub fn find(start: &CoordsComponent, goal: &CoordsComponent, cells: &Vec<PathCell>) -> (r:
        MazePath)
        requires
            searchable(cells@, start.coord, goal.coord),
        ensures
            route_view(r.path) == astar_route(cells_view(cells@), start.coord, goal.coord),
            match route_view(r.path) {
                Some((path, cost)) => path.len() >= 1 && path[0] == start.coord && path[path.len()
                    - 1] == goal.coord,
                None => true,
            },
    {
        MazePath::from_route(astar_search(start, goal, cells))
    }
}

} // verus!
