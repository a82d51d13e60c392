use knossos::cell::Cell;
use knossos::formatters::ascii::{render_broad, render_narrow, Ascii};
use knossos::formatters::Formatter;
use knossos::grid::Grid;

fn generate_ascii_maze() -> Grid {
    let mut grid = Grid::new(4, 4);

    grid.carve_passage((0, 0), Cell::south()).unwrap();
    grid.carve_passage((0, 1), Cell::east()).unwrap();
    grid.carve_passage((0, 2), Cell::east()).unwrap();
    grid.carve_passage((0, 2), Cell::south()).unwrap();
    grid.carve_passage((0, 3), Cell::east()).unwrap();

    grid.carve_passage((1, 0), Cell::east()).unwrap();
    grid.carve_passage((1, 1), Cell::east()).unwrap();
    grid.carve_passage((1, 1), Cell::south()).unwrap();
    grid.carve_passage((1, 2), Cell::east()).unwrap();
    grid.carve_passage((1, 3), Cell::east()).unwrap();

    grid.carve_passage((2, 0), Cell::east()).unwrap();
    grid.carve_passage((2, 2), Cell::east()).unwrap();
    grid.carve_passage((2, 3), Cell::east()).unwrap();

    grid.carve_passage((3, 1), Cell::north()).unwrap();
    grid.carve_passage((3, 1), Cell::south()).unwrap();

    grid
}

#[test]
fn format_narrow() {
    let mut expected = String::new();
    expected.push_str(" _______ \n");
    expected.push_str("| |___  |\n");
    expected.push_str("|_   _| |\n");
    expected.push_str("|  _____|\n");
    expected.push_str("|_______|\n");

    let formatter = Ascii::new();
    let mut grid = generate_ascii_maze();
    let actual = formatter.format(&mut grid).0;

    assert_eq!(actual, expected);
}

#[test]
fn format_broad() {
    let mut expected = String::new();
    expected.push_str("+---+---+---+---+\n");
    expected.push_str("|   |           |\n");
    expected.push_str("+   +---+---+   +\n");
    expected.push_str("|           |   |\n");
    expected.push_str("+---+   +---+   +\n");
    expected.push_str("|               |\n");
    expected.push_str("+   +---+---+---+\n");
    expected.push_str("|               |\n");
    expected.push_str("+---+---+---+---+\n");

    let formatter = Ascii::broad();
    let mut grid = generate_ascii_maze();
    let actual = formatter.format(&mut grid).0;

    assert_eq!(actual, expected);
}

#[test]
fn format_narrow_by_name() {
    let grid = generate_ascii_maze();
    assert_eq!(Ascii::narrow().format(&grid).into_inner(), render_narrow(&grid));
    assert_eq!(Ascii::broad().format(&grid).into_inner(), render_broad(&grid));
    assert_eq!(grid.to_string(), render_narrow(&grid));
}

#[test]
fn format_a_single_cell() {
    let grid = Grid::new(1, 1);
    assert_eq!(render_narrow(&grid), " _ \n|_|\n");
    assert_eq!(render_broad(&grid), "+---+\n|   |\n+---+\n");
}

#[test]
fn format_a_fresh_grid() {
    let grid = Grid::new(3, 2);
    assert_eq!(render_narrow(&grid), " _____ \n|_|_|_|\n|_|_|_|\n");
    assert_eq!(
        render_broad(&grid),
        "+---+---+---+\n|   |   |   |\n+---+---+---+\n|   |   |   |\n+---+---+---+\n"
    );
}

#[test]
fn format_a_drained_grid() {
    let mut grid = Grid::new(3, 2);
    grid.drain();
    assert_eq!(render_narrow(&grid), " _____ \n|     |\n|_____|\n");
    assert_eq!(
        render_broad(&grid),
        "+---+---+---+\n|           |\n+   +   +   +\n|           |\n+---+---+---+\n"
    );
}
