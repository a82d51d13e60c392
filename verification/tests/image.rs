use knossos::cell::Cell;
use knossos::color::Color;
use knossos::formatters::image::Image;
use knossos::formatters::Formatter;
use knossos::grid::Grid;

fn generate_image_maze() -> Grid {
    let mut grid = Grid::new(4, 4);

    grid.carve_passage((0, 0), Cell::south()).unwrap();
    grid.carve_passage((0, 1), Cell::east()).unwrap();
    grid.carve_passage((0, 2), Cell::east()).unwrap();
    grid.carve_passage((0, 2), Cell::south()).unwrap();
    grid.carve_passage((0, 3), Cell::east()).unwrap();

    grid.carve_passage((1, 0), Cell::east()).unwrap();
    grid.carve_passage((1, 1), Cell::east()).unwrap();
    grid.carve_passage((1, 1), Cell::south()).unwrap();
    grid.carve_passage((1, 2), Cell::east()).unwrap();
    grid.carve_passage((1, 3), Cell::east()).unwrap();

    grid.carve_passage((2, 0), Cell::east()).unwrap();
    grid.carve_passage((2, 2), Cell::east()).unwrap();
    grid.carve_passage((2, 3), Cell::east()).unwrap();

    grid.carve_passage((3, 1), Cell::north()).unwrap();
    grid.carve_passage((3, 1), Cell::south()).unwrap();

    grid
}

// The drawing rules written down once more, directly on the buffer of the
// `image` crate.
fn reference_image(
    grid: &Grid,
    wall_width: usize,
    passage_width: usize,
    margin: usize,
    background: [u8; 3],
    foreground: [u8; 3],
) -> image::RgbImage {
    let cell_width = wall_width * 2 + passage_width;
    let maze_width = cell_width * grid.width() - (grid.width() - 1) * wall_width;
    let maze_height = cell_width * grid.height() - (grid.height() - 1) * wall_width;
    let mut picture: image::RgbImage = image::ImageBuffer::new(
        (maze_width + margin * 2) as u32,
        (maze_height + margin * 2) as u32,
    );
    for (_, _, pixel) in picture.enumerate_pixels_mut() {
        *pixel = image::Rgb(background);
    }
    for y in 0..grid.height() {
        for x in 0..grid.width() {
            let coords = (x, y);
            let inner_cell_width = cell_width - wall_width;
            let cell_x = x * inner_cell_width + margin;
            let cell_y = y * inner_cell_width + margin;
            let n = grid.is_carved(coords, Cell::north());
            let s = grid.is_carved(coords, Cell::south());
            let e = grid.is_carved(coords, Cell::east());
            let w = grid.is_carved(coords, Cell::west());
            for py in cell_y..cell_y + cell_width {
                for px in cell_x..cell_x + cell_width {
                    if px >= cell_x && px <= cell_x + wall_width && py >= cell_y
                        && py <= cell_y + wall_width && n && w
                    {
                        continue;
                    }
                    if px >= cell_x + wall_width && px <= cell_x + inner_cell_width
                        && py >= cell_y && py <= cell_y + wall_width && n
                    {
                        continue;
                    }
                    if px >= cell_x + inner_cell_width && px <= cell_x + cell_width
                        && py >= cell_y && py <= cell_y + wall_width && n && e
                    {
                        continue;
                    }
                    if px >= cell_x && px <= cell_x + wall_width && py >= cell_y + wall_width
                        && py <= cell_y + inner_cell_width && w
                    {
                        continue;
                    }
                    if px >= cell_x + wall_width && px <= cell_x + inner_cell_width
                        && py >= cell_y + wall_width && py <= cell_y + inner_cell_width
                    {
                        continue;
                    }
                    if px >= cell_x + inner_cell_width && px <= cell_x + cell_width
                        && py >= cell_y + wall_width && py <= cell_y + inner_cell_width && e
                    {
                        continue;
                    }
                    if px >= cell_x && px <= cell_x + wall_width
                        && py >= cell_y + inner_cell_width && py <= cell_y + cell_width && s && w
                    {
                        continue;
                    }
                    if px >= cell_x + wall_width && px <= cell_x + inner_cell_width
                        && py >= cell_y + inner_cell_width && py <= cell_y + cell_width && s
                    {
                        continue;
                    }
                    if px >= cell_x + inner_cell_width && px <= cell_x + cell_width
                        && py >= cell_y + inner_cell_width && py <= cell_y + cell_width && s && e
                    {
                        continue;
                    }
                    *picture.get_pixel_mut(px as u32, py as u32) = image::Rgb(foreground);
                }
            }
            let is_rightmost_cell = x == grid.width() - 1;
            let is_bottommost_cell = y == grid.height() - 1;
            if is_rightmost_cell || is_bottommost_cell {
                let cell_right_x = cell_x + cell_width - 1;
                let cell_bottom_y = cell_y + cell_width - 1;
                for py in cell_y..=cell_bottom_y {
                    for px in cell_x..=cell_right_x {
                        if (is_rightmost_cell && px > cell_right_x - wall_width)
                            || (is_bottommost_cell && py > cell_bottom_y - wall_width)
                        {
                            *picture.get_pixel_mut(px as u32, py as u32) = image::Rgb(foreground);
                        }
                    }
                }
            }
        }
    }
    picture
}

fn picture_of(bytes: &[u8], width: usize) -> Vec<String> {
    bytes
        .chunks(3 * width)
        .map(|row| {
            row.chunks(3)
                .map(|p| if p == [0, 0, 0] { '#' } else { '.' })
                .collect::<String>()
        })
        .collect()
}

#[test]
fn new_call_default_params() {
    let image = Image::new();
    assert_eq!(40, image.wall_width);
    assert_eq!(40, image.passage_width);
    assert_eq!(Color::RGB(250, 250, 250), image.background_color);
    assert_eq!(Color::RGB(0, 0, 0), image.foreground_color);
    assert_eq!(50, image.margin);
}

#[test]
fn params_change() {
    let image = Image::new()
        .wall(10)
        .passage(5)
        .background(Color::RGB(1, 1, 1))
        .foreground(Color::RGB(100, 100, 100))
        .margin(20);

    assert_eq!(10, image.wall_width);
    assert_eq!(5, image.passage_width);
    assert_eq!(Color::RGB(1, 1, 1), image.background_color);
    assert_eq!(Color::RGB(100, 100, 100), image.foreground_color);
    assert_eq!(20, image.margin);
}

#[test]
fn default_params() {
    let image = Image::default();
    assert_eq!(40, image.wall_width);
    assert_eq!(40, image.passage_width);
    assert_eq!(50, image.margin);
}

#[test]
fn format_zero_margin() {
    let formatter = Image::new().wall(1).passage(1).margin(0);
    let grid = generate_image_maze();

    let actual = formatter.format(&grid);
    assert_eq!((actual.width(), actual.height()), (9, 9));
    let actual = actual.into_inner();
    let expected = reference_image(&grid, 1, 1, 0, [250, 250, 250], [0, 0, 0]);
    assert_eq!(actual, expected.into_raw());
    assert_eq!(
        picture_of(&actual, 9),
        vec![
            "#########",
            "#.#.....#",
            "#.#####.#",
            "#.....#.#",
            "###.###.#",
            "#.......#",
            "#.#######",
            "#.......#",
            "#########",
        ]
    );
}

#[test]
fn format_nonzero_margin() {
    let formatter = Image::new().wall(1).passage(1).margin(1);
    let grid = generate_image_maze();

    let actual = formatter.format(&grid);
    assert_eq!((actual.width(), actual.height()), (11, 11));
    let actual = actual.into_inner();
    let expected = reference_image(&grid, 1, 1, 1, [250, 250, 250], [0, 0, 0]);
    assert_eq!(actual, expected.into_raw());
    assert_eq!(
        picture_of(&actual, 11),
        vec![
            "...........",
            ".#########.",
            ".#.#.....#.",
            ".#.#####.#.",
            ".#.....#.#.",
            ".###.###.#.",
            ".#.......#.",
            ".#.#######.",
            ".#.......#.",
            ".#########.",
            "...........",
        ]
    );
}

#[test]
fn format_follows_the_drawing_rules() {
    let mut drained = Grid::new(3, 2);
    drained.drain();
    let grids = [
        generate_image_maze(),
        Grid::new(1, 1),
        Grid::new(3, 2),
        drained,
    ];
    let settings = [(1, 1, 0), (2, 3, 1), (3, 1, 2), (1, 4, 0), (2, 0, 1), (0, 3, 2), (5, 7, 3)];
    for grid in &grids {
        for (wall, passage, margin) in settings {
            let formatter = Image::new()
                .wall(wall)
                .passage(passage)
                .margin(margin)
                .background(Color::RGB(9, 8, 7))
                .foreground(Color::RGB(1, 2, 3));
            let expected = reference_image(grid, wall, passage, margin, [9, 8, 7], [1, 2, 3]);
            let actual = formatter.format(grid);
            assert_eq!(actual.width(), expected.width());
            assert_eq!(actual.height(), expected.height());
            assert_eq!(actual.into_inner(), expected.into_raw());
        }
    }
}

#[test]
fn the_image_has_the_size_of_the_maze_and_its_margin() {
    let grid = Grid::new(4, 3);
    let formatter = Image::new();
    assert_eq!(formatter.cell_width(), 120);
    assert_eq!(formatter.sizes(&grid), (80 * 4 + 40 + 100, 80 * 3 + 40 + 100));
    let formatter = Image::new().wall(2).passage(5).margin(3);
    assert_eq!(formatter.sizes(&grid), (7 * 4 + 2 + 6, 7 * 3 + 2 + 6));
    let image = formatter.format(&grid);
    assert_eq!((image.width(), image.height()), (36, 29));
    assert_eq!(image.into_inner().len(), 3 * 36 * 29);
}
