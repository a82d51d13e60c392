use knossos::cell::Cell;
use knossos::formatters::ascii::Ascii;
use knossos::formatters::game_map::GameMap;
use knossos::grid::Grid;
use knossos::maze::OrthogonalMaze;
use knossos::validate::validate;

fn generate_valid_maze() -> Grid {
    let mut grid = Grid::new(4, 4);

    grid.carve_passage((0, 0), Cell::south()).unwrap();
    grid.carve_passage((0, 1), Cell::east()).unwrap();
    grid.carve_passage((0, 2), Cell::east()).unwrap();
    grid.carve_passage((0, 2), Cell::south()).unwrap();
    grid.carve_passage((0, 3), Cell::east()).unwrap();

    grid.carve_passage((1, 0), Cell::east()).unwrap();
    grid.carve_passage((1, 1), Cell::east()).unwrap();
    grid.carve_passage((1, 1), Cell::south()).unwrap();
    grid.carve_passage((1, 2), Cell::east()).unwrap();
    grid.carve_passage((1, 3), Cell::east()).unwrap();

    grid.carve_passage((2, 0), Cell::east()).unwrap();
    grid.carve_passage((2, 2), Cell::east()).unwrap();
    grid.carve_passage((2, 3), Cell::east()).unwrap();

    grid.carve_passage((3, 1), Cell::north()).unwrap();
    grid.carve_passage((3, 1), Cell::south()).unwrap();

    grid
}

fn generate_invalid_maze() -> Grid {
    let mut grid = Grid::new(4, 4);

    grid.carve_passage((0, 0), Cell::south()).unwrap();
    grid.carve_passage((0, 1), Cell::east()).unwrap();
    grid.carve_passage((0, 2), Cell::east()).unwrap();
    grid.carve_passage((0, 2), Cell::south()).unwrap();
    grid.carve_passage((0, 3), Cell::east()).unwrap();

    grid.carve_passage((1, 1), Cell::east()).unwrap();
    grid.carve_passage((1, 1), Cell::north()).unwrap();
    grid.carve_passage((1, 2), Cell::east()).unwrap();
    grid.carve_passage((1, 3), Cell::east()).unwrap();

    grid.carve_passage((2, 0), Cell::east()).unwrap();
    grid.carve_passage((2, 2), Cell::east()).unwrap();
    grid.carve_passage((2, 3), Cell::east()).unwrap();

    grid.carve_passage((3, 1), Cell::north()).unwrap();
    grid.carve_passage((3, 1), Cell::south()).unwrap();

    grid
}

#[test]
fn display_orthogonal_maze() {
    let mut expected = String::new();
    expected.push_str(" _______ \n");
    expected.push_str("| |___  |\n");
    expected.push_str("|_   _| |\n");
    expected.push_str("|  _____|\n");
    expected.push_str("|_______|\n");

    let grid = generate_valid_maze();
    let maze = OrthogonalMaze::from_grid(grid);
    let actual = maze.to_string();

    assert_eq!(actual, expected);
}

#[test]
fn valid_maze() {
    let grid = generate_valid_maze();
    let maze = OrthogonalMaze::from_grid(grid);
    assert!(maze.is_valid());
}

#[test]
fn invalid_maze() {
    let grid = generate_invalid_maze();
    let maze = OrthogonalMaze::from_grid(grid);
    assert!(!maze.is_valid());
}

#[test]
fn a_new_maze_is_walled_everywhere() {
    let maze = OrthogonalMaze::new(3, 2);
    assert_eq!(maze.width(), 3);
    assert_eq!(maze.height(), 2);
    assert!(!maze.is_valid());
    for y in 0..2 {
        for x in 0..3 {
            assert!(!maze.is_carved((x, y), Cell::north()));
            assert!(!maze.is_carved((x, y), Cell::south()));
            assert!(!maze.is_carved((x, y), Cell::east()));
            assert!(!maze.is_carved((x, y), Cell::west()));
        }
    }
    assert!(OrthogonalMaze::new(1, 1).is_valid());
}

#[test]
fn a_maze_hands_its_grid_to_formatters() {
    let maze = OrthogonalMaze::from_grid(generate_valid_maze());
    assert_eq!(maze.format(Ascii::new()).0, maze.to_string());
    assert_eq!(maze.format(Ascii::broad()).0.lines().count(), 9);
    assert_eq!(maze.format(GameMap::new().span(1)).0.lines().count(), 9);
    assert!(validate(maze.grid()));
    assert!(maze.is_carved((0, 0), Cell::south()));
    assert!(!maze.is_carved((0, 0), Cell::east()));
}

#[test]
fn one_missing_passage_cuts_the_maze() {
    // the valid maze is a tree: it stays valid only with all of its passages
    let carves = [
        ((0, 0), 'S'), ((0, 1), 'E'), ((0, 2), 'E'), ((0, 2), 'S'), ((0, 3), 'E'),
        ((1, 0), 'E'), ((1, 1), 'E'), ((1, 1), 'S'), ((1, 2), 'E'), ((1, 3), 'E'),
        ((2, 0), 'E'), ((2, 2), 'E'), ((2, 3), 'E'), ((3, 1), 'N'), ((3, 1), 'S'),
    ];
    for skip in 0..carves.len() {
        let mut grid = Grid::new(4, 4);
        for (i, (coords, d)) in carves.iter().enumerate() {
            if i != skip {
                let dir = match d {
                    'N' => Cell::north(),
                    'S' => Cell::south(),
                    'E' => Cell::east(),
                    _ => Cell::west(),
                };
                grid.carve_passage(*coords, dir).unwrap();
            }
        }
        assert!(!validate(&grid));
    }
}
