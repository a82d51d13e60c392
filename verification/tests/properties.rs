use knossos::algorithms::aldous_broder::{wander, AldousBroder};
use knossos::algorithms::binary_tree::{Bias, BinaryTree};
use knossos::algorithms::eller::{Eller, State};
use knossos::algorithms::growing_tree::{newest_or_random, GrowingTree, Method};
use knossos::algorithms::growth::{
    carve_to_unvisited, get_start_coords, random_cell, shuffled_poles,
};
use knossos::algorithms::hunt_and_kill::{looks_at_visited, visited_neighbour, HuntAndKill};
use knossos::algorithms::kruskal::{populate_arena, populate_edges, Kruskal};
use knossos::algorithms::prim::Prim;
use knossos::algorithms::recursive_backtracking::RecursiveBacktracking;
use knossos::algorithms::recursive_division::{
    build_wall, choose_orientation, Orientation, RecursiveDivision,
};
use knossos::algorithms::sidewinder::Sidewinder;
use knossos::algorithms::Algorithm;
use knossos::arena::NodeId;
use knossos::builder::OrthogonalMazeBuilder;
use knossos::cell::Cell;
use knossos::grid::Grid;
use knossos::maze::OrthogonalMaze;
use knossos::pole::Pole;
use knossos::random::{fresh_rng, rng_for, RandPositions};
use knossos::types::Coords;
use knossos::validate::validate;
use rand::rngs::StdRng;
use rand::Rng;
use rand::SeedableRng;

fn all_dirs() -> [Cell; 4] {
    [Cell::north(), Cell::south(), Cell::east(), Cell::west()]
}

fn opposite(dir: Cell) -> Cell {
    Cell::from_pole(dir.pole().unwrap().opposite())
}

fn bits_of(grid: &Grid) -> Vec<u8> {
    grid.cells().iter().map(|(_, cell)| cell.to_bits()).collect()
}

fn passages_of(grid: &Grid) -> usize {
    let twice: u32 = bits_of(grid).iter().map(|b| b.count_ones()).sum();
    (twice / 2) as usize
}

fn assert_symmetric(grid: &Grid) {
    for y in 0..grid.height() {
        for x in 0..grid.width() {
            for dir in all_dirs() {
                if grid.is_carved((x, y), dir) {
                    let next = grid.get_next_cell_coords((x, y), dir).unwrap();
                    assert!(grid.is_carved(next, opposite(dir)));
                }
            }
        }
    }
}

fn generated<A: Algorithm>(mut algo: A, width: usize, height: usize, seed: u64) -> Grid {
    let mut grid = Grid::new(width, height);
    let mut rng = StdRng::seed_from_u64(seed);
    algo.generate(&mut grid, &mut rng, None);
    grid
}

fn check_algorithm<A: Algorithm, F: Fn() -> A>(make: F, tree: bool) {
    let sizes = [
        (1, 1), (1, 2), (2, 1), (2, 2), (1, 7), (7, 1), (3, 3), (2, 5), (5, 2), (4, 9), (9, 4),
        (13, 11), (16, 16),
    ];
    for (width, height) in sizes {
        for seed in 0..6 {
            let grid = generated(make(), width, height, seed);
            assert_eq!(grid.width(), width);
            assert_eq!(grid.height(), height);
            assert!(validate(&grid), "{} x {} with seed {}", width, height, seed);
            assert_symmetric(&grid);
            if tree {
                assert_eq!(passages_of(&grid), width * height - 1);
            }
        }
    }
}

#[test]
fn aldous_broder_makes_spanning_trees() {
    check_algorithm(|| AldousBroder, true);
}

#[test]
fn binary_tree_makes_spanning_trees() {
    check_algorithm(|| BinaryTree::new(Bias::NorthWest), true);
    check_algorithm(|| BinaryTree::new(Bias::NorthEast), true);
    check_algorithm(|| BinaryTree::new(Bias::SouthWest), true);
    check_algorithm(|| BinaryTree::new(Bias::SouthEast), true);
}

#[test]
fn eller_makes_spanning_trees() {
    check_algorithm(|| Eller, true);
}

#[test]
fn growing_tree_makes_spanning_trees() {
    check_algorithm(|| GrowingTree::new(Method::Newest), true);
    check_algorithm(|| GrowingTree::new(Method::Oldest), true);
    check_algorithm(|| GrowingTree::new(Method::Random), true);
    check_algorithm(|| GrowingTree::new(Method::Middle), true);
    check_algorithm(|| GrowingTree::new(Method::Newest50Random50), true);
    check_algorithm(|| GrowingTree::new(Method::Newest75Random25), true);
    check_algorithm(|| GrowingTree::new(Method::Newest25Random75), true);
}

#[test]
fn hunt_and_kill_makes_spanning_trees() {
    check_algorithm(|| HuntAndKill::new(), true);
}

#[test]
fn kruskal_makes_spanning_trees() {
    check_algorithm(|| Kruskal, true);
}

#[test]
fn prim_makes_spanning_trees() {
    check_algorithm(|| Prim::new(), true);
}

#[test]
fn recursive_backtracking_makes_spanning_trees() {
    check_algorithm(|| RecursiveBacktracking, true);
}

#[test]
fn recursive_division_makes_spanning_trees() {
    check_algorithm(|| RecursiveDivision, true);
}

#[test]
fn sidewinder_makes_spanning_trees() {
    check_algorithm(|| Sidewinder, true);
}

#[test]
fn boxed_algorithms_behave_like_their_content() {
    check_algorithm(|| Box::new(Kruskal), true);
    assert_eq!(Box::new(Eller).name(), "Eller");
    assert!(Box::new(Prim::new()).has_start_coords());
    assert!(!Box::new(Eller).has_start_coords());
}

#[test]
fn a_seed_fixes_the_maze() {
    fn twice<A: Algorithm, F: Fn() -> A>(make: F) {
        for seed in [0u64, 1, 42, 40, u64::MAX] {
            let first = OrthogonalMazeBuilder::new()
                .width(12)
                .height(9)
                .algorithm(make())
                .seed(Some(seed))
                .build()
                .unwrap();
            let second = OrthogonalMazeBuilder::new()
                .width(12)
                .height(9)
                .algorithm(make())
                .seed(Some(seed))
                .build()
                .unwrap();
            assert_eq!(bits_of(first.grid()), bits_of(second.grid()));
            assert_eq!(first.to_string(), second.to_string());
        }
    }
    twice(|| AldousBroder);
    twice(|| BinaryTree::new(Bias::SouthEast));
    twice(|| Eller);
    twice(|| GrowingTree::new(Method::Newest25Random75));
    twice(|| HuntAndKill::new());
    twice(|| Kruskal);
    twice(|| Prim::new());
    twice(|| RecursiveBacktracking);
    twice(|| RecursiveDivision);
    twice(|| Sidewinder);
}

#[test]
fn seeds_make_different_mazes() {
    let mut seen: Vec<Vec<u8>> = Vec::new();
    for seed in 0..16 {
        let maze = OrthogonalMazeBuilder::new()
            .algorithm(Kruskal)
            .seed(Some(seed))
            .build()
            .unwrap();
        let bits = bits_of(maze.grid());
        if !seen.contains(&bits) {
            seen.push(bits);
        }
    }
    assert!(seen.len() > 1);
}

#[test]
fn mazes_without_a_seed_differ() {
    let mut seen: Vec<Vec<u8>> = Vec::new();
    for _ in 0..16 {
        let maze = OrthogonalMazeBuilder::new().algorithm(Prim::new()).build().unwrap();
        assert!(maze.is_valid());
        let bits = bits_of(maze.grid());
        if !seen.contains(&bits) {
            seen.push(bits);
        }
    }
    assert!(seen.len() > 1);
}

#[test]
fn carving_is_symmetric() {
    for (width, height) in [(1, 2), (2, 1), (3, 4), (5, 5)] {
        for y in 0..height {
            for x in 0..width {
                for dir in all_dirs() {
                    let mut grid = Grid::new(width, height);
                    if let Ok(next) = grid.carve_passage((x, y), dir) {
                        assert_eq!(grid.get_next_cell_coords((x, y), dir).unwrap(), next);
                        assert!(grid.is_carved((x, y), dir));
                        assert!(grid.is_carved(next, opposite(dir)));
                        assert!(grid.is_cell_visited((x, y)));
                        assert!(grid.is_cell_visited(next));
                        assert_eq!(passages_of(&grid), 1);
                        assert_eq!(grid.get_next_cell_coords(next, opposite(dir)).unwrap(), (x, y));
                    }
                }
            }
        }
    }
}

#[test]
fn carving_out_of_the_grid_is_refused() {
    let width = 4;
    let height = 3;
    for y in 0..height {
        for x in 0..width {
            for dir in all_dirs() {
                let mut grid = Grid::new(width, height);
                grid.carve_passage((1, 1), Cell::east()).unwrap();
                let before = bits_of(&grid);
                let visited_before: Vec<bool> = (0..width * height)
                    .map(|i| grid.is_cell_visited((i % width, i / width)))
                    .collect();
                let leaves = match dir.pole().unwrap() {
                    Pole::N => y == 0,
                    Pole::S => y == height - 1,
                    Pole::W => x == 0,
                    Pole::E => x == width - 1,
                };
                let looked = grid.get_next_cell_coords((x, y), dir);
                let carved = grid.carve_passage((x, y), dir);
                assert_eq!(looked.is_err(), leaves);
                assert_eq!(carved.is_err(), leaves);
                if let Err(error) = carved {
                    assert_eq!(error.coords, (x, y));
                    assert_eq!(error.reason, looked.unwrap_err().reason);
                    assert_eq!(bits_of(&grid), before);
                    let visited_after: Vec<bool> = (0..width * height)
                        .map(|i| grid.is_cell_visited((i % width, i / width)))
                        .collect();
                    assert_eq!(visited_after, visited_before);
                }
            }
        }
    }
}

#[test]
fn the_reasons_of_the_four_borders() {
    let grid = Grid::new(2, 2);
    assert_eq!(
        grid.get_next_cell_coords((0, 0), Cell::north()).unwrap_err().reason,
        "First row in the grid cannot go North"
    );
    assert_eq!(
        grid.get_next_cell_coords((0, 1), Cell::south()).unwrap_err().reason,
        "Last row in the grid cannot go South"
    );
    assert_eq!(
        grid.get_next_cell_coords((0, 0), Cell::west()).unwrap_err().reason,
        "First cell in a row cannot go West"
    );
    assert_eq!(
        grid.get_next_cell_coords((1, 0), Cell::east()).unwrap_err().reason,
        "Last column in the grid cannot go East"
    );
    assert_eq!(
        grid.get_next_cell_coords((1, 0), Cell::east()).unwrap_err().to_string(),
        "Cannot move to a cell. Reason: Last column in the grid cannot go East. Coords: x = 1, y = 0"
    );
}

#[test]
fn a_direction_that_is_none_moves_nowhere() {
    let mut grid = Grid::new(2, 2);
    let both = Cell::north() | Cell::south();
    assert_eq!(grid.get_next_cell_coords((1, 1), both).unwrap(), (1, 1));
    assert_eq!(grid.get_next_cell_coords((1, 1), Cell::empty()).unwrap(), (1, 1));
    assert_eq!(grid.carve_passage((1, 1), both).unwrap(), (1, 1));
    assert_eq!(passages_of(&grid), 0);
    assert!(grid.is_cell_visited((1, 1)));
    assert!(!grid.is_cell_visited((0, 1)));
    assert_eq!(grid.add_wall((1, 1), both).unwrap(), (1, 1));
    assert!(grid.is_carved((1, 1), Cell::empty()));
    assert!(!grid.is_carved((1, 1), both));
}

#[test]
fn carving_twice_changes_nothing() {
    let mut grid = Grid::new(3, 3);
    grid.carve_passage((1, 1), Cell::south()).unwrap();
    let once = bits_of(&grid);
    grid.carve_passage((1, 1), Cell::south()).unwrap();
    grid.carve_passage((1, 2), Cell::north()).unwrap();
    assert_eq!(bits_of(&grid), once);
}

#[test]
fn a_wall_closes_both_sides() {
    let mut grid = Grid::new(3, 3);
    grid.drain();
    assert_eq!(passages_of(&grid), 12);
    assert_symmetric(&grid);
    assert!(validate(&grid));
    assert_eq!(grid.add_wall((1, 1), Cell::east()).unwrap(), (2, 1));
    assert!(!grid.is_carved((1, 1), Cell::east()));
    assert!(!grid.is_carved((2, 1), Cell::west()));
    assert!(grid.is_carved((1, 1), Cell::west()));
    assert_eq!(passages_of(&grid), 11);
    assert_symmetric(&grid);
    assert!(!grid.is_cell_visited((1, 1)));
    let before = bits_of(&grid);
    assert!(grid.add_wall((2, 1), Cell::east()).is_err());
    assert!(grid.add_wall((0, 0), Cell::north()).is_err());
    assert_eq!(bits_of(&grid), before);
}

#[test]
fn draining_opens_the_inside_only() {
    let mut grid = Grid::new(4, 3);
    grid.carve_passage((0, 0), Cell::east()).unwrap();
    grid.mark_cell((2, 2));
    grid.drain();
    for y in 0..3 {
        for x in 0..4 {
            assert_eq!(grid.is_carved((x, y), Cell::north()), y > 0);
            assert_eq!(grid.is_carved((x, y), Cell::south()), y < 2);
            assert_eq!(grid.is_carved((x, y), Cell::west()), x > 0);
            assert_eq!(grid.is_carved((x, y), Cell::east()), x < 3);
        }
    }
    assert!(grid.is_cell_visited((0, 0)));
    assert!(grid.is_cell_visited((1, 0)));
    assert!(!grid.is_cell_visited((2, 0)));
    assert!(grid.is_cell_marked((2, 2)));
    let mut single = Grid::new(1, 1);
    single.drain();
    assert_eq!(bits_of(&single), vec![0]);
}

#[test]
fn a_fresh_grid_has_no_passage_and_no_flag() {
    let grid = Grid::new(3, 2);
    assert_eq!(grid.width(), 3);
    assert_eq!(grid.height(), 2);
    assert_eq!(grid.cell_count(), 6);
    assert_eq!(bits_of(&grid), vec![0; 6]);
    for y in 0..2 {
        for x in 0..3 {
            assert!(!grid.is_cell_visited((x, y)));
            assert!(!grid.is_cell_marked((x, y)));
            assert_eq!(grid.index_of((x, y)), y * 3 + x);
            assert_eq!(grid.get_cell((x, y)), Cell::empty());
            assert!(!grid.get_cell_status((x, y)).visited());
        }
    }
    let listed: Vec<Coords> = grid.cells().iter().map(|(c, _)| *c).collect();
    assert_eq!(listed, vec![(0, 0), (1, 0), (2, 0), (0, 1), (1, 1), (2, 1)]);
}

#[test]
fn marking_touches_one_flag_of_one_cell() {
    let mut grid = Grid::new(3, 2);
    grid.mark_cell((1, 1));
    for y in 0..2 {
        for x in 0..3 {
            assert_eq!(grid.is_cell_marked((x, y)), (x, y) == (1, 1));
            assert!(!grid.is_cell_visited((x, y)));
        }
    }
    assert_eq!(bits_of(&grid), vec![0; 6]);
}

#[test]
fn union_find_joins_and_keeps_apart() {
    let grid = Grid::new(3, 2);
    let mut arena = populate_arena(&grid);
    assert_eq!(arena.len(), 6);
    let (a, b, c, d) = (NodeId(0), NodeId(1), NodeId(2), NodeId(3));
    arena.connect(a, b);
    arena.connect(b, c);
    assert!(arena.connected(a, c));
    assert!(arena.connected(d, d));
    for other in [0, 1, 2, 4, 5] {
        assert!(!arena.connected(d, NodeId(other)));
    }
}

#[test]
fn a_column_becomes_a_corridor() {
    for height in [1usize, 2, 5, 12] {
        for seed in 0..4 {
            let grid = generated(BinaryTree::new(Bias::NorthEast), 1, height, seed);
            for y in 0..height {
                assert_eq!(grid.is_carved((0, y), Cell::north()), y > 0);
                assert_eq!(grid.is_carved((0, y), Cell::south()), y + 1 < height);
                assert!(!grid.is_carved((0, y), Cell::east()));
                assert!(!grid.is_carved((0, y), Cell::west()));
            }
            assert!(validate(&grid));
        }
    }
}

#[test]
fn a_start_is_refused_by_recursive_division() {
    let result = OrthogonalMazeBuilder::new()
        .start_coords((3, 3))
        .algorithm(RecursiveDivision)
        .build();
    assert!(result.is_err());
    assert_eq!(result.err().unwrap().reason, "RecursiveDivision");
}

#[test]
fn the_manual_grid_is_connected() {
    let mut grid = Grid::new(4, 4);
    let carves = [
        ((0, 0), Cell::south()), ((0, 1), Cell::east()), ((0, 2), Cell::east()),
        ((0, 2), Cell::south()), ((0, 3), Cell::east()), ((1, 0), Cell::east()),
        ((1, 1), Cell::east()), ((1, 1), Cell::south()), ((1, 2), Cell::east()),
        ((1, 3), Cell::east()), ((2, 0), Cell::east()), ((2, 2), Cell::east()),
        ((2, 3), Cell::east()), ((3, 1), Cell::north()), ((3, 1), Cell::south()),
    ];
    for (coords, dir) in carves {
        assert!(!validate(&grid));
        grid.carve_passage(coords, dir).unwrap();
    }
    assert!(validate(&grid));
    assert_eq!(passages_of(&grid), 15);
    assert!(OrthogonalMaze::from_grid(grid).is_valid());
}

#[test]
fn binary_tree_lists_its_directions() {
    let grid = Grid::new(3, 3);
    let dirs = |bias: Bias, coords: Coords| -> Vec<u8> {
        BinaryTree::new(bias)
            .populate_dirs(coords, &grid)
            .iter()
            .map(|c| c.to_bits())
            .collect()
    };
    let (n, s, e, w) = (1u8, 2u8, 4u8, 8u8);
    assert_eq!(dirs(Bias::NorthWest, (0, 0)), Vec::<u8>::new());
    assert_eq!(dirs(Bias::NorthWest, (1, 0)), vec![w]);
    assert_eq!(dirs(Bias::NorthWest, (0, 1)), vec![n]);
    assert_eq!(dirs(Bias::NorthWest, (1, 1)), vec![n, w]);
    assert_eq!(dirs(Bias::NorthEast, (2, 0)), Vec::<u8>::new());
    assert_eq!(dirs(Bias::NorthEast, (1, 1)), vec![n, e]);
    assert_eq!(dirs(Bias::NorthEast, (2, 2)), vec![n]);
    assert_eq!(dirs(Bias::SouthWest, (0, 2)), Vec::<u8>::new());
    assert_eq!(dirs(Bias::SouthWest, (1, 1)), vec![s, w]);
    assert_eq!(dirs(Bias::SouthWest, (2, 2)), vec![w]);
    assert_eq!(dirs(Bias::SouthEast, (2, 2)), Vec::<u8>::new());
    assert_eq!(dirs(Bias::SouthEast, (1, 1)), vec![s, e]);
    assert_eq!(dirs(Bias::SouthEast, (2, 0)), vec![s]);
}

#[test]
fn binary_tree_spans_the_sides_of_its_bias() {
    for seed in 0..5 {
        let grid = generated(BinaryTree::new(Bias::NorthWest), 6, 5, seed);
        for x in 1..6 {
            assert!(grid.is_carved((x, 0), Cell::west()));
        }
        for y in 1..5 {
            assert!(grid.is_carved((0, y), Cell::north()));
        }
        let grid = generated(BinaryTree::new(Bias::SouthEast), 6, 5, seed);
        for x in 0..5 {
            assert!(grid.is_carved((x, 4), Cell::east()));
        }
        for y in 0..4 {
            assert!(grid.is_carved((5, y), Cell::south()));
        }
    }
}

#[test]
fn sidewinder_spans_the_top_row() {
    for seed in 0..5 {
        let grid = generated(Sidewinder, 8, 4, seed);
        for x in 0..7 {
            assert!(grid.is_carved((x, 0), Cell::east()));
        }
        for y in 1..4 {
            let norths = (0..8).filter(|x| grid.is_carved((*x, y), Cell::north())).count();
            assert!(norths >= 1);
        }
    }
}

#[test]
fn growing_tree_picks_its_cells() {
    let mut rng = StdRng::seed_from_u64(5);
    for ceil in [1usize, 2, 3, 10, 11] {
        assert_eq!(GrowingTree::new(Method::Oldest).choose_index(ceil, &mut rng), 0);
        assert_eq!(GrowingTree::new(Method::Newest).choose_index(ceil, &mut rng), ceil - 1);
        assert_eq!(GrowingTree::new(Method::Middle).choose_index(ceil, &mut rng), ceil / 2);
        for method in [
            Method::Random,
            Method::Newest50Random50,
            Method::Newest75Random25,
            Method::Newest25Random75,
        ] {
            for _ in 0..20 {
                assert!(GrowingTree::new(method).choose_index(ceil, &mut rng) < ceil);
            }
        }
        assert_eq!(newest_or_random(true, ceil, &mut rng), ceil - 1);
        assert!(newest_or_random(false, ceil, &mut rng) < ceil);
    }
}

#[test]
fn growing_tree_blends_by_its_shares() {
    let mut rng = StdRng::seed_from_u64(9);
    let newest = |method: Method, rng: &mut StdRng| -> usize {
        (0..4000)
            .filter(|_| GrowingTree::new(method).choose_index(1000, rng) == 999)
            .count()
    };
    let quarter = newest(Method::Newest25Random75, &mut rng);
    let half = newest(Method::Newest50Random50, &mut rng);
    let most = newest(Method::Newest75Random25, &mut rng);
    assert!(800 < quarter && quarter < 1200);
    assert!(1800 < half && half < 2200);
    assert!(2800 < most && most < 3200);
    assert!(newest(Method::Random, &mut rng) < 50);
}

#[test]
fn random_cells_lie_in_the_grid() {
    let grid = Grid::new(3, 5);
    let mut rng = StdRng::seed_from_u64(1);
    let mut seen: Vec<Coords> = Vec::new();
    for _ in 0..400 {
        let (x, y) = random_cell(&grid, &mut rng);
        assert!(x < 3 && y < 5);
        let (x, y) = get_start_coords(&grid, &mut rng);
        assert!(x < 3 && y < 5);
        if !seen.contains(&(x, y)) {
            seen.push((x, y));
        }
    }
    assert_eq!(seen.len(), 15);
}

#[test]
fn shuffled_directions_are_the_four_directions() {
    let mut rng = StdRng::seed_from_u64(2);
    let mut orders: Vec<Vec<Pole>> = Vec::new();
    for _ in 0..200 {
        let dirs = shuffled_poles(&mut rng);
        assert_eq!(dirs.len(), 4);
        for pole in [Pole::N, Pole::S, Pole::E, Pole::W] {
            assert_eq!(dirs.iter().filter(|d| **d == pole).count(), 1);
        }
        if !orders.contains(&dirs) {
            orders.push(dirs);
        }
    }
    assert!(orders.len() > 12);
}

#[test]
fn shuffled_positions_are_the_same_positions() {
    let listed: Vec<Coords> = (0..30).map(|i| (i, 2 * i)).collect();
    let mut moved = false;
    for _ in 0..10 {
        let mut positions = listed.clone();
        RandPositions::rand(&mut positions);
        if positions != listed {
            moved = true;
        }
        positions.sort();
        assert_eq!(positions, listed);
    }
    assert!(moved);
}

#[test]
fn generators_for_one_seed_agree() {
    let mut a = rng_for(Some(77));
    let mut b = StdRng::seed_from_u64(77);
    for _ in 0..10 {
        assert_eq!(a.random_range(0..1000usize), b.random_range(0..1000usize));
    }
    let mut c = rng_for(None);
    let mut d = fresh_rng();
    let first: Vec<u64> = (0..4).map(|_| c.random::<u64>()).collect();
    let second: Vec<u64> = (0..4).map(|_| d.random::<u64>()).collect();
    assert_ne!(first, second);
}

#[test]
fn a_step_of_the_walk_carves_into_an_unvisited_cell() {
    let mut rng = StdRng::seed_from_u64(4);
    let mut grid = Grid::new(3, 3);
    let hunter = HuntAndKill::new();
    let next = hunter.walk((1, 1), &mut grid, &mut rng).unwrap();
    assert_eq!(passages_of(&grid), 1);
    assert!(grid.is_cell_visited(next));
    assert!(grid.is_cell_visited((1, 1)));
    let dx = next.0 as i64 - 1;
    let dy = next.1 as i64 - 1;
    assert_eq!(dx.abs() + dy.abs(), 1);

    let mut corner = Grid::new(2, 1);
    corner.carve_passage((0, 0), Cell::east()).unwrap();
    assert_eq!(hunter.walk((0, 0), &mut corner, &mut rng), None);
    assert_eq!(passages_of(&corner), 1);
}

#[test]
fn the_first_unvisited_neighbour_in_the_given_order_is_taken() {
    let dirs = vec![Pole::N, Pole::W, Pole::E, Pole::S];
    let mut grid = Grid::new(3, 3);
    assert_eq!(carve_to_unvisited(&mut grid, (0, 0), &dirs), Some((1, 0)));
    assert_eq!(carve_to_unvisited(&mut grid, (1, 0), &dirs), Some((2, 0)));
    assert_eq!(carve_to_unvisited(&mut grid, (1, 0), &dirs), Some((1, 1)));
    assert_eq!(carve_to_unvisited(&mut grid, (1, 0), &dirs), None);
    assert_eq!(passages_of(&grid), 3);
}

#[test]
fn the_hunt_takes_the_first_cell_beside_the_maze() {
    let mut grid = Grid::new(3, 3);
    grid.carve_passage((1, 1), Cell::east()).unwrap();
    assert_eq!(visited_neighbour(&grid, (1, 0)), Some(Pole::S));
    assert_eq!(visited_neighbour(&grid, (0, 1)), Some(Pole::E));
    assert_eq!(visited_neighbour(&grid, (0, 0)), None);
    assert!(looks_at_visited(&grid, (1, 2), Pole::N));
    assert!(!looks_at_visited(&grid, (1, 2), Pole::S));
    assert!(!looks_at_visited(&grid, (1, 2), Pole::W));

    let mut hunter = HuntAndKill::new();
    assert_eq!(hunter.hunt(&mut grid), Some((1, 0)));
    assert!(grid.is_carved((1, 0), Cell::south()));
    assert_eq!(hunter.hunt(&mut grid), Some((0, 0)));
    assert!(grid.is_carved((0, 0), Cell::east()));
    assert_eq!(hunter.hunt(&mut grid), Some((2, 0)));
    assert!(grid.is_carved((2, 0), Cell::south()));
    assert_eq!(hunter.hunt(&mut grid), Some((0, 1)));
    assert!(grid.is_carved((0, 1), Cell::north()));
    assert_eq!(hunter.hunt(&mut grid), Some((0, 2)));
    assert_eq!(hunter.hunt(&mut grid), Some((1, 2)));
    assert!(grid.is_carved((1, 2), Cell::north()));
    assert_eq!(hunter.hunt(&mut grid), Some((2, 2)));
    assert_eq!(hunter.hunt(&mut grid), None);
    assert!(validate(&grid));
    assert_eq!(passages_of(&grid), 8);

    let mut untouched = Grid::new(2, 2);
    assert_eq!(HuntAndKill::new().hunt(&mut untouched), None);
    assert_eq!(passages_of(&untouched), 0);
}

#[test]
fn the_random_walk_moves_and_carves_once_per_cell() {
    let dirs = vec![Pole::W, Pole::S, Pole::N, Pole::E];
    let mut grid = Grid::new(2, 2);
    assert_eq!(wander(&mut grid, (0, 0), &dirs), ((0, 1), true));
    assert_eq!(wander(&mut grid, (0, 1), &dirs), ((0, 0), false));
    assert_eq!(wander(&mut grid, (1, 1), &dirs), ((0, 1), false));
    assert_eq!(passages_of(&grid), 1);
    assert!(!grid.is_carved((1, 1), Cell::west()));
    let mut single = Grid::new(1, 1);
    assert_eq!(wander(&mut single, (0, 0), &dirs), ((0, 0), false));
}

#[test]
fn kruskal_lists_each_wall_once() {
    let grid = Grid::new(3, 2);
    assert_eq!(
        populate_edges(&grid),
        vec![
            (1, 0, Pole::W),
            (2, 0, Pole::W),
            (0, 1, Pole::N),
            (1, 1, Pole::N),
            (1, 1, Pole::W),
            (2, 1, Pole::N),
            (2, 1, Pole::W),
        ]
    );
    assert_eq!(populate_edges(&Grid::new(1, 1)), vec![]);
    assert_eq!(populate_edges(&Grid::new(7, 5)).len(), 6 * 5 + 7 * 4);
}

#[test]
fn prim_lists_the_passages_to_unvisited_neighbours() {
    let mut grid = Grid::new(3, 3);
    let mut frontier = Vec::new();
    Prim::add_frontier(&grid, (1, 1), &mut frontier);
    assert_eq!(
        frontier,
        vec![((1, 1), Pole::N), ((1, 1), Pole::S), ((1, 1), Pole::W), ((1, 1), Pole::E)]
    );
    grid.carve_passage((1, 1), Cell::south()).unwrap();
    Prim::add_frontier(&grid, (1, 2), &mut frontier);
    assert_eq!(frontier.len(), 6);
    assert_eq!(frontier[4], ((1, 2), Pole::W));
    assert_eq!(frontier[5], ((1, 2), Pole::E));
    let mut corner = Vec::new();
    Prim::add_frontier(&grid, (0, 0), &mut corner);
    assert_eq!(corner, vec![((0, 0), Pole::S), ((0, 0), Pole::E)]);
}

#[test]
fn regions_are_cut_across_their_longer_side() {
    let mut rng = StdRng::seed_from_u64(3);
    let mut horizontal = 0;
    for _ in 0..200 {
        assert_eq!(choose_orientation(2, 5, &mut rng), Orientation::Horizontal);
        assert_eq!(choose_orientation(5, 2, &mut rng), Orientation::Vertical);
        if choose_orientation(4, 4, &mut rng) == Orientation::Horizontal {
            horizontal += 1;
        }
    }
    assert!(50 < horizontal && horizontal < 150);
}

#[test]
fn a_wall_has_one_gap() {
    let mut grid = Grid::new(4, 3);
    grid.drain();
    build_wall(&mut grid, Orientation::Horizontal, 0, 2, 0, 3);
    for x in 0..4 {
        assert_eq!(grid.is_carved((x, 0), Cell::south()), x == 2);
        assert_eq!(grid.is_carved((x, 1), Cell::north()), x == 2);
        assert!(grid.is_carved((x, 1), Cell::south()));
    }
    assert_symmetric(&grid);
    assert!(validate(&grid));
    build_wall(&mut grid, Orientation::Vertical, 1, 1, 1, 2);
    assert!(grid.is_carved((1, 0), Cell::east()));
    assert!(grid.is_carved((1, 1), Cell::east()));
    assert!(!grid.is_carved((1, 2), Cell::east()));
    assert!(!grid.is_carved((2, 2), Cell::west()));
    assert_symmetric(&grid);
    assert!(validate(&grid));
}

#[test]
fn dividing_a_part_leaves_the_rest_open() {
    let mut rng = StdRng::seed_from_u64(8);
    let mut grid = Grid::new(6, 6);
    grid.drain();
    RecursiveDivision::divide(&mut grid, &mut rng, 0, 0, 2, 5);
    for y in 0..6 {
        for x in 3..6 {
            assert_eq!(grid.is_carved((x, y), Cell::east()), x < 5);
            assert_eq!(grid.is_carved((x, y), Cell::south()), y < 5);
            assert!(grid.is_carved((x, y), Cell::west()));
        }
        assert!(grid.is_carved((2, y), Cell::east()));
    }
    assert!(validate(&grid));
    assert_symmetric(&grid);
}

#[test]
fn the_rows_of_eller_keep_their_sets() {
    let state = State::new(0, 0, 4).populate();
    for a in 0..4 {
        for b in 0..4 {
            assert_eq!(state.connected(a, b), a == b);
        }
        assert_eq!(state.set_of(a), Some(a));
        assert!(state.is_first(a));
        assert_eq!(state.get_cell_coords(a), (a, 0));
        assert_eq!(state.members(a), vec![a]);
    }
    let mut state = state;
    state.connect(0, 1);
    state.connect(2, 3);
    assert!(state.connected(0, 1));
    assert!(state.connected(2, 3));
    assert!(!state.connected(1, 2));
    assert!(!state.is_first(1));
    assert!(state.is_first(2));
    state.connect(1, 3);
    for a in 0..4 {
        assert!(state.connected(0, a));
        assert_eq!(state.set_of(a), Some(0));
    }
    assert_eq!(state.members(0), vec![0, 1, 2, 3]);
    assert_eq!(state.members(2), Vec::<usize>::new());

    let mut below = state.next();
    assert_eq!(below.get_cell_coords(2), (2, 1));
    assert_eq!(below.set_of(2), None);
    below.add(2, 0);
    let below = below.populate();
    assert_eq!(
        (0..4).map(|a| below.set_of(a)).collect::<Vec<_>>(),
        vec![Some(4), Some(5), Some(0), Some(6)]
    );
}

#[test]
fn eller_joins_every_set_to_the_row_below() {
    let mut rng = StdRng::seed_from_u64(6);
    let eller = Eller;
    for _ in 0..50 {
        let cells: Vec<usize> = vec![3, 5, 8, 13];
        let chosen = eller.cells_to_connect(cells.clone(), &mut rng);
        assert!(!chosen.is_empty() && chosen.len() < 4);
        for c in &chosen {
            assert!(cells.contains(c));
            assert_eq!(chosen.iter().filter(|d| *d == c).count(), 1);
        }
        assert_eq!(eller.cells_to_connect(vec![7], &mut rng), vec![7]);
        assert_eq!(eller.cells_to_connect(vec![], &mut rng), Vec::<usize>::new());
    }
    let mut grid = Grid::new(5, 2);
    let mut state = State::new(0, 0, 5).populate();
    eller.connect_disjoint_sets(&mut state, &mut grid, true, &mut rng);
    for x in 0..4 {
        assert!(grid.is_carved((x, 0), Cell::east()));
        assert!(state.connected(x, x + 1));
    }
    let below = eller.add_vertical_connections(&state, &mut grid, false, &mut rng);
    let downs = (0..5).filter(|x| grid.is_carved((*x, 0), Cell::south())).count();
    assert!(1 <= downs && downs < 5);
    for x in 0..5 {
        assert_eq!(grid.is_carved((x, 0), Cell::south()), below.set_of(x) == Some(0));
        assert!(below.set_of(x).is_some());
    }
}

#[test]
fn larger_grids_are_carved_as_well() {
    fn large<A: Algorithm>(algo: A) {
        let grid = generated(algo, 64, 48, 7);
        assert!(validate(&grid));
        assert_eq!(passages_of(&grid), 64 * 48 - 1);
    }
    large(AldousBroder);
    large(BinaryTree::new(Bias::SouthWest));
    large(Eller);
    large(GrowingTree::new(Method::Middle));
    large(HuntAndKill::new());
    large(Kruskal);
    large(Prim::new());
    large(RecursiveBacktracking);
    large(RecursiveDivision);
    large(Sidewinder);
}

#[test]
fn an_algorithm_can_be_used_again() {
    let mut hunter = HuntAndKill::new();
    let mut rng = StdRng::seed_from_u64(12);
    for _ in 0..3 {
        let mut grid = Grid::new(9, 7);
        hunter.generate(&mut grid, &mut rng, None);
        assert!(validate(&grid));
        assert_eq!(passages_of(&grid), 62);
    }
}

#[test]
fn a_start_is_taken_where_it_is_supported() {
    let mut rng = StdRng::seed_from_u64(5);
    let mut grid = Grid::new(5, 4);
    AldousBroder.generate(&mut grid, &mut rng, Some((4, 3)));
    assert!(validate(&grid));
    let mut grid = Grid::new(5, 4);
    Prim::new().generate(&mut grid, &mut rng, Some((0, 3)));
    assert!(validate(&grid));
    // an algorithm without support takes no notice of the start
    let mut first = Grid::new(5, 4);
    Kruskal.generate(&mut first, &mut StdRng::seed_from_u64(1), Some((2, 2)));
    let mut second = Grid::new(5, 4);
    Kruskal.generate(&mut second, &mut StdRng::seed_from_u64(1), None);
    assert_eq!(bits_of(&first), bits_of(&second));
}
