use knossos::cell::Cell;
use knossos::formatters::game_map::{
    bottom_right_neighbour_exists, build_map, iter_neighbors, map_sizes, write_map, GameMap,
};
use knossos::formatters::Formatter;
use knossos::grid::Grid;
use knossos::types::Coords;

fn generate_map_maze() -> Grid {
    let mut grid = Grid::new(4, 4);

    grid.carve_passage((0, 0), Cell::south()).unwrap();
    grid.carve_passage((0, 1), Cell::east()).unwrap();
    grid.carve_passage((0, 2), Cell::east()).unwrap();
    grid.carve_passage((0, 2), Cell::south()).unwrap();
    grid.carve_passage((0, 3), Cell::east()).unwrap();

    grid.carve_passage((1, 0), Cell::east()).unwrap();
    grid.carve_passage((1, 1), Cell::east()).unwrap();
    grid.carve_passage((1, 1), Cell::south()).unwrap();
    grid.carve_passage((1, 2), Cell::east()).unwrap();
    grid.carve_passage((1, 3), Cell::east()).unwrap();

    grid.carve_passage((2, 0), Cell::east()).unwrap();
    grid.carve_passage((2, 2), Cell::east()).unwrap();
    grid.carve_passage((2, 3), Cell::east()).unwrap();

    grid.carve_passage((3, 1), Cell::north()).unwrap();
    grid.carve_passage((3, 1), Cell::south()).unwrap();

    grid
}

#[test]
fn new_call() {
    let formatter = GameMap::new();
    assert_eq!(2, formatter.state.span);
    assert_eq!('#', formatter.state.wall);
    assert_eq!('.', formatter.state.passage);
}

#[test]
fn default_call() {
    let formatter = GameMap::default();
    assert_eq!(2, formatter.state.span);
    assert_eq!('#', formatter.state.wall);
    assert_eq!('.', formatter.state.passage);
}

#[test]
fn span_change() {
    let formatter = GameMap::new().span(10);
    assert_eq!(10, formatter.state.span);
}

#[test]
fn wall_change() {
    let formatter = GameMap::new().wall('#');
    assert_eq!('#', formatter.state.wall);
}

#[test]
fn passage_change() {
    let formatter = GameMap::new().passage('.');
    assert_eq!('.', formatter.state.passage);
}

#[test]
fn goal_change() {
    let formatter = GameMap::new().with_start_goal().goal('2');
    assert_eq!('2', formatter.extra.goal);
}

#[test]
fn start_change() {
    let formatter = GameMap::new().with_start_goal().start('1');
    assert_eq!('1', formatter.extra.start);
}

#[test]
fn possible_start_and_goal_positions() {
    let formatter = GameMap::new().with_start_goal();
    let map = vec![
        '#', '#', '#', '#', '#', '#', '#', '#', '#',
        '#', '.', '.', '.', '#', '.', '.', '.', '#',
        '#', '#', '#', '.', '#', '.', '#', '.', '#',
        '#', '.', '.', '.', '#', '.', '#', '.', '#',
        '#', '.', '#', '#', '#', '.', '#', '.', '#',
        '#', '.', '.', '.', '.', '.', '#', '.', '#',
        '#', '#', '#', '#', '#', '#', '#', '.', '#',
        '#', '.', '.', '.', '.', '.', '.', '.', '#',
        '#', '#', '#', '#', '#', '#', '#', '#', '#',
    ];
    let positions = vec![
        (0, 1), (0, 2), (0, 3), (0, 5), (0, 6),
        (0, 7), (1, 0), (1, 8), (2, 8), (3, 0),
        (3, 8), (4, 0), (4, 8), (5, 0), (5, 8),
        (6, 8), (7, 0), (7, 8), (8, 1), (8, 2),
        (8, 3), (8, 4), (8, 5), (8, 6), (8, 7),
    ];
    let result = formatter.iter_possible_start_and_goal_positions(&map, 9, 9);
    assert_eq!(positions, result.into_iter().collect::<Vec<_>>());
}

#[test]
fn possible_start_and_goal_positions_when_map_is_empty() {
    let formatter = GameMap::new().with_start_goal();
    let map = vec![];
    let positions: Vec<Coords> = vec![];
    let result = formatter.iter_possible_start_and_goal_positions(&map, 0, 0);
    assert_eq!(positions, result.into_iter().collect::<Vec<Coords>>());
}

#[test]
fn format_with_no_start_and_goal() {
    let mut expected = String::new();
    expected.push_str("#########\n");
    expected.push_str("#.#.....#\n");
    expected.push_str("#.#####.#\n");
    expected.push_str("#.....#.#\n");
    expected.push_str("###.###.#\n");
    expected.push_str("#.......#\n");
    expected.push_str("#.#######\n");
    expected.push_str("#.......#\n");
    expected.push_str("#########\n");

    let formatter = GameMap::new().span(1);
    let grid = generate_map_maze();
    let actual = formatter.format(&grid).0;

    assert_eq!(actual, expected);
}

#[test]
fn format_with_start_and_goal() {
    let mut expected = String::new();
    expected.push_str("#S#######\n");
    expected.push_str("G.#.....#\n");
    expected.push_str("#.#####.#\n");
    expected.push_str("#.....#.#\n");
    expected.push_str("###.###.#\n");
    expected.push_str("#.......#\n");
    expected.push_str("#.#######\n");
    expected.push_str("#.......#\n");
    expected.push_str("#########\n");

    let formatter = GameMap::new().span(1).with_start_goal();
    let grid = generate_map_maze();
    // the positions in the order in which the map lists them
    let mut map = build_map(&formatter.state, &grid);
    let (cols, rows) = map_sizes(&formatter.state, &grid);
    let positions = formatter.iter_possible_start_and_goal_positions(&map, cols, rows);
    formatter.place_start_and_goal(&mut map, &positions, cols);
    let actual = write_map(&map, cols);

    assert_eq!(actual, expected);
}

#[test]
fn format_with_random_start_and_goal() {
    let formatter = GameMap::new().span(1).with_start_goal();
    let grid = generate_map_maze();
    let plain = GameMap::new().span(1).format(&grid).0;
    for _ in 0..20 {
        let actual = formatter.format(&grid).0;
        assert_eq!(actual.len(), plain.len());
        assert_eq!(actual.chars().filter(|c| *c == 'S').count(), 1);
        assert_eq!(actual.chars().filter(|c| *c == 'G').count(), 1);
        let differing = actual
            .chars()
            .zip(plain.chars())
            .filter(|(a, b)| a != b)
            .count();
        assert_eq!(differing, 2);
        for (a, b) in actual.chars().zip(plain.chars()) {
            if a != b {
                assert_eq!(b, '#');
            }
        }
    }
}

#[test]
fn format_with_a_wider_span() {
    let mut grid = Grid::new(2, 2);
    grid.carve_passage((0, 0), Cell::east()).unwrap();
    grid.carve_passage((1, 0), Cell::south()).unwrap();
    grid.carve_passage((1, 1), Cell::west()).unwrap();

    let mut expected = String::new();
    expected.push_str("#######\n");
    expected.push_str("#.....#\n");
    expected.push_str("#.....#\n");
    expected.push_str("####..#\n");
    expected.push_str("#.....#\n");
    expected.push_str("#.....#\n");
    expected.push_str("#######\n");

    assert_eq!(GameMap::new().format(&grid).0, expected);
    assert_eq!(map_sizes(&GameMap::new().state, &grid), (7, 7));
}

#[test]
fn format_with_other_tiles() {
    let grid = Grid::new(1, 1);
    let formatter = GameMap::new().span(1).wall('X').passage(' ');
    assert_eq!(formatter.format(&grid).0, "XXX\nX X\nXXX\n");
}

#[test]
fn an_open_square_has_an_open_corner() {
    let mut grid = Grid::new(2, 2);
    grid.drain();
    assert!(bottom_right_neighbour_exists(0, 0, &grid));
    assert!(!bottom_right_neighbour_exists(1, 0, &grid));
    assert!(!bottom_right_neighbour_exists(0, 1, &grid));
    assert!(!bottom_right_neighbour_exists(5, 5, &grid));
    assert_eq!(GameMap::new().span(1).format(&grid).0, "#####\n#...#\n#...#\n#...#\n#####\n");
    let fresh = Grid::new(2, 2);
    assert!(!bottom_right_neighbour_exists(0, 0, &fresh));
}

#[test]
fn neighbours_stay_inside_the_map() {
    assert_eq!(iter_neighbors((0, 0), 3, 3), vec![(1, 0), (0, 1)]);
    assert_eq!(iter_neighbors((1, 1), 3, 3), vec![(0, 1), (2, 1), (1, 0), (1, 2)]);
    assert_eq!(iter_neighbors((2, 2), 3, 3), vec![(1, 2), (2, 1)]);
    assert_eq!(iter_neighbors((0, 0), 1, 1), Vec::<Coords>::new());
}

#[test]
fn the_goal_avoids_the_row_and_the_column_of_the_start() {
    let formatter = GameMap::new().with_start_goal();
    let mut map = vec!['.'; 9];
    formatter.place_start_and_goal(&mut map, &vec![(0, 1), (0, 2), (1, 1), (2, 1), (1, 0)], 3);
    assert_eq!(map, vec!['.', 'S', '.', 'G', '.', '.', '.', '.', '.']);

    let mut map = vec!['.'; 9];
    formatter.place_start_and_goal(&mut map, &vec![(1, 1), (1, 2), (0, 1)], 3);
    assert_eq!(map, vec!['.', '.', '.', '.', 'S', '.', '.', '.', '.']);

    let mut map = vec!['.'; 9];
    formatter.place_start_and_goal(&mut map, &vec![], 3);
    assert_eq!(map, vec!['.'; 9]);
}

#[test]
fn write_map_breaks_the_lines() {
    assert_eq!(write_map(&vec!['a', 'b', 'c', 'd', 'e', 'f'], 3), "abc\ndef\n");
    assert_eq!(write_map(&vec!['a', 'b', 'c', 'd', 'e'], 2), "ab\ncd\ne");
    assert_eq!(write_map(&vec![], 2), "");
}
