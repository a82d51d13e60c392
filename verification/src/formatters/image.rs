//! Rendering a maze as an image.

use crate::cell::{Cell, CellView};
use crate::color::Color;
use crate::formatters::pixels::{buffer_rows, raw_bytes, rows_sized, PixelBuffer, Rgb};
use crate::formatters::{Formatter, Saveable};
use crate::grid::{lemma_index_bounds, Grid, GridView};
use crate::types::Coords;
use vstd::prelude::*;

verus! {

/// A formatter that renders a maze as an image. All sizes are in pixels.
pub struct Image {
    /// The width of a wall.
    pub wall_width: usize,
    /// The width of a passage.
    pub passage_width: usize,
    /// The distance between the maze and the border of the image.
    pub margin: usize,
    /// The colour of the passages and of the margin.
    pub background_color: Color,
    /// The colour of the walls.
    pub foreground_color: Color,
}

/// An image that a formatter made of a maze.
pub struct ImageWrapper {
    width: u32,
    height: u32,
    buffer: PixelBuffer,
}

impl Saveable for ImageWrapper {

}

impl ImageWrapper {
    /// The pixels of the image, row by row.
    pub closed spec fn rows(&self) -> Seq<Seq<Rgb>> {
        buffer_rows(self.buffer)
    }

    /// The width and the height of the image in pixels.
    pub closed spec fn size(&self) -> (int, int) {
        (self.width as int, self.height as int)
    }

    /// Returns the width of the image in pixels.
    pub fn width(&self) -> (r: u32)
        ensures
            r == self.size().0,
    {
        self.width
    }

    /// Returns the height of the image in pixels.
    pub fn height(&self) -> (r: u32)
        ensures
            r == self.size().1,
    {
        self.height
    }

    /// Returns the bytes of the image: row by row, and for each pixel its red,
    /// green and blue part.
    pub fn into_inner(self) -> (r: Vec<u8>)
        ensures
            r@ == raw_bytes(self.rows(), self.rows().len() as int),
    {
        self.buffer.into_raw()
    }
}

/// The parts of a colour.
pub open spec fn spec_rgb(color: Color) -> Rgb {
    match color {
        Color::RGB(r, g, b) => (r, g, b),
    }
}

/// Returns the parts of a colour.
pub fn rgb(color: Color) -> (r: Rgb)
    ensures
        r == spec_rgb(color),
{
    match color {
        Color::RGB(r, g, b) => (r, g, b),
    }
}

/// Whether `v` lies between `lo` and `hi`, both included.
pub open spec fn between(lo: int, v: int, hi: int) -> bool {
    lo <= v && v <= hi
}

/// The rows after one pixel has been set.
pub open spec fn set_pixel(rows: Seq<Seq<Rgb>>, x: int, y: int, color: Rgb) -> Seq<Seq<Rgb>> {
    rows.update(y, rows[y].update(x, color))
}

/// Setting a pixel keeps the size of the image and every other pixel.

proof fn lemma_set_pixel(rows: Seq<Seq<Rgb>>, width: int, height: int, x: int, y: int, color: Rgb)
    requires
        rows_sized(rows, width, height),
        0 <= x < width,
        0 <= y < height,
    ensures
        rows_sized(set_pixel(rows, x, y, color), width, height),
        forall|px: int, py: int|
            0 <= px < width && 0 <= py < height ==> #[trigger] set_pixel(rows, x, y, color)[py][px]
                == if px == x && py == y {
                color
            } else {
                rows[py][px]
            },
{
    let after = set_pixel(rows, x, y, color);
    assert(rows[y].len() == width);
    assert forall|py: int| 0 <= py < height implies (#[trigger] after[py]).len() == width by {
        assert(rows[py].len() == width);
    }
}

impl Image {
    /// The width of a wall and a passage together.
    pub open spec fn spec_inner(&self) -> int {
        self.wall_width + self.passage_width
    }

    /// The width of a cell with both of its walls.
    pub open spec fn spec_cell_width(&self) -> int {
        2 * self.wall_width + self.passage_width
    }

    /// The width of the image of a grid.
    pub open spec fn image_width(&self, g: GridView) -> int {
        self.spec_inner() * g.width + self.wall_width + 2 * self.margin
    }

    /// The height of the image of a grid.
    pub open spec fn image_height(&self, g: GridView) -> int {
        self.spec_inner() * g.height + self.wall_width + 2 * self.margin
    }

    /// Where the square of the column or row `i` starts.
    pub open spec fn origin(&self, i: int) -> int {
        i * self.spec_inner() + self.margin
    }

    /// Whether the pixel lies in the square of the cell `(x, y)`.
    pub open spec fn in_square(&self, x: int, y: int, px: int, py: int) -> bool {
        self.origin(x) <= px < self.origin(x) + self.spec_cell_width() && self.origin(y) <= py
            < self.origin(y) + self.spec_cell_width()
    }

    /// Whether the pixel of the square that starts at `(ox, oy)` is left in
    /// the colour of the background: it lies in the passage of the cell, or in a
    /// wall or a corner through which the cell `c` has a passage.
    pub open spec fn skips(&self, c: CellView, ox: int, oy: int, px: int, py: int) -> bool {
        let w = self.wall_width as int;
        let i = self.spec_inner();
        let cw = self.spec_cell_width();
        let left = between(ox, px, ox + w);
        let mid_x = between(ox + w, px, ox + i);
        let right = between(ox + i, px, ox + cw);
        let top = between(oy, py, oy + w);
        let mid_y = between(oy + w, py, oy + i);
        let bottom = between(oy + i, py, oy + cw);
        ||| (left && top && c.north && c.west)
        ||| (mid_x && top && c.north)
        ||| (right && top && c.north && c.east)
        ||| (left && mid_y && c.west)
        ||| (mid_x && mid_y)
        ||| (right && mid_y && c.east)
        ||| (left && bottom && c.south && c.west)
        ||| (mid_x && bottom && c.south)
        ||| (right && bottom && c.south && c.east)
    }

    /// Whether the pixel lies in the outer wall east of the last column or
    /// south of the last row, as far as the square of the cell `(x, y)` holds it.
    pub open spec fn edge(&self, g: GridView, x: int, y: int, px: int, py: int) -> bool {
        (x == g.width - 1 && px > self.origin(x) + self.spec_cell_width() - 1 - self.wall_width)
            || (y == g.height - 1 && py > self.origin(y) + self.spec_cell_width() - 1
            - self.wall_width)
    }

    /// Whether drawing the cell `(x, y)` gives the pixel the colour of the
    /// walls.
    pub open spec fn cell_paints(&self, g: GridView, x: int, y: int, px: int, py: int) -> bool {
        self.in_square(x, y, px, py) && (!self.skips(
            g.cell(x, y),
            self.origin(x),
            self.origin(y),
            px,
            py,
        ) || self.edge(g, x, y, px, py))
    }

    /// Whether drawing the first `n` cells, row by row, gives the pixel the
    /// colour of the walls.
    pub open spec fn painted(&self, g: GridView, n: int, px: int, py: int) -> bool
        decreases n,
    {
        n > 0 && (self.painted(g, n - 1, px, py) || self.cell_paints(
            g,
            (n - 1) % g.width,
            (n - 1) / g.width,
            px,
            py,
        ))
    }

    /// The colour of a pixel that is painted, or is not.
    pub open spec fn tint(&self, painted: bool) -> Rgb {
        if painted {
            spec_rgb(self.foreground_color)
        } else {
            spec_rgb(self.background_color)
        }
    }

    /// Whether the formatter can render the grid: a cell is at least one pixel
    /// wide, and the image fits into the limits of the image buffer.
    pub open spec fn can_render(&self, g: GridView) -> bool {
        &&& self.spec_cell_width() >= 1
        &&& self.image_width(g) <= u32::MAX
        &&& self.image_height(g) <= u32::MAX
        &&& 3 * self.image_width(g) * self.image_height(g) <= isize::MAX
    }

    /// Whether the rows are the image of the grid after the first `n` cells
    /// have been drawn.
    pub open spec fn shows(&self, g: GridView, rows: Seq<Seq<Rgb>>, n: int) -> bool {
        &&& rows_sized(rows, self.image_width(g), self.image_height(g))
        &&& forall|px: int, py: int|
            0 <= px < self.image_width(g) && 0 <= py < self.image_height(g)
                ==> #[trigger] rows[py][px] == self.tint(self.painted(g, n, px, py))
    }

    /// Returns a formatter with walls and passages of 40 pixels, a margin of
    /// 50 pixels, black walls and an almost white background.
    pub fn new() -> (r: Image)
        ensures
            r.wall_width == 40,
            r.passage_width == 40,
            r.margin == 50,
            r.background_color == Color::RGB(250, 250, 250),
            r.foreground_color == Color::RGB(0, 0, 0),
    {
        Image {
            wall_width: 40,
            passage_width: 40,
            background_color: Color::RGB(250, 250, 250),
            foreground_color: Color::RGB(0, 0, 0),
            margin: 50,
        }
    }

    /// Sets the width of a wall.
    pub fn wall(self, width: usize) -> (r: Image)
        ensures
            r == (Image { wall_width: width, ..self }),
    {
        let mut image = self;
        image.wall_width = width;
        image
    }

    /// Sets the width of a passage.
    pub fn passage(self, width: usize) -> (r: Image)
        ensures
            r == (Image { passage_width: width, ..self }),
    {
        let mut image = self;
        image.passage_width = width;
        image
    }

    /// Sets the colour of the background.
    pub fn background(self, color: Color) -> (r: Image)
        ensures
            r == (Image { background_color: color, ..self }),
    {
        let mut image = self;
        image.background_color = color;
        image
    }

    /// Sets the colour of the walls.
    pub fn foreground(self, color: Color) -> (r: Image)
        ensures
            r == (Image { foreground_color: color, ..self }),
    {
        let mut image = self;
        image.foreground_color = color;
        image
    }

    /// Sets the margin.
    pub fn margin(self, value: usize) -> (r: Image)
        ensures
            r == (Image { margin: value, ..self }),
    {
        let mut image = self;
        image.margin = value;
        image
    }

    /// Returns the width of a cell with both of its walls.
    pub fn cell_width(&self) -> (r: usize)
        requires
            self.spec_cell_width() <= usize::MAX,
        ensures
            r == self.spec_cell_width(),
    {
        self.wall_width * 2 + self.passage_width
    }

    /// Returns the width and the height of the image of a grid. Neighbouring
    /// cells share a wall.
    pub fn sizes(&self, grid: &Grid) -> (r: (usize, usize))
        requires
            grid@.wf(),
            self.can_render(grid@),
        ensures
            r.0 == self.image_width(grid@),
            r.1 == self.image_height(grid@),
            self.spec_cell_width() <= r.0,
            self.spec_cell_width() <= r.1,
    {
        let w = grid.width();
        let h = grid.height();
        proof {
            let i = self.spec_inner();
            assert(i * w >= i && i * h >= i && i * w >= 0 && i * h >= 0) by (nonlinear_arith)
                requires
                    i >= 0,
                    w >= 1,
                    h >= 1,
            ;
        }
        let inner = self.wall_width + self.passage_width;
        let maze_width = inner * w + self.wall_width;
        let maze_height = inner * h + self.wall_width;
        (maze_width + self.margin * 2, maze_height + self.margin * 2)
    }

    /// Gives every pixel of the image the colour of the background.
    fn fill_background(&self, buffer: &mut PixelBuffer, width: u32, height: u32)
        requires
            rows_sized(buffer_rows(*old(buffer)), width as int, height as int),
        ensures
            rows_sized(buffer_rows(*final(buffer)), width as int, height as int),
            forall|px: int, py: int|
                0 <= px < width && 0 <= py < height ==> #[trigger] buffer_rows(*final(buffer))[py][px]
                    == spec_rgb(self.background_color),
    {
        let color = rgb(self.background_color);
        let mut y: u32 = 0;
        while y < height
            invariant
                y <= height,
                color == spec_rgb(self.background_color),
                rows_sized(buffer_rows(*buffer), width as int, height as int),
                forall|px: int, py: int|
                    0 <= px < width && 0 <= py < y ==> #[trigger] buffer_rows(*buffer)[py][px]
                        == color,
            decreases height - y,
        {
            let mut x: u32 = 0;
            while x < width
                invariant
                    x <= width,
                    y < height,
                    color == spec_rgb(self.background_color),
                    rows_sized(buffer_rows(*buffer), width as int, height as int),
                    forall|px: int, py: int|
                        0 <= px < width && (0 <= py < y || (py == y && px < x))
                            ==> #[trigger] buffer_rows(*buffer)[py][px] == color,
                decreases width - x,
            {
                let ghost rows = buffer_rows(*buffer);
                proof {
                    lemma_set_pixel(rows, width as int, height as int, x as int, y as int, color);
                    assert(rows[y as int].len() == width);
                }
                buffer.paint(x, y, color);
                x += 1;
            }
            y += 1;
        }
    }

    /// Draws the cells row by row.
    fn draw_maze(&self, buffer: &mut PixelBuffer, grid: &Grid)
        requires
            grid@.wf(),
            self.can_render(grid@),
            self.shows(grid@, buffer_rows(*old(buffer)), 0),
        ensures
            self.shows(grid@, buffer_rows(*final(buffer)), grid@.width * grid@.height),
    {
        let w = grid.width();
        let h = grid.height();
        let mut y: usize = 0;
        while y < h
            invariant
                y <= h,
                w == grid@.width,
                h == grid@.height,
                grid@.wf(),
                self.can_render(grid@),
                self.shows(grid@, buffer_rows(*buffer), y * w),
            decreases h - y,
        {
            let mut x: usize = 0;
            while x < w
                invariant
                    x <= w,
                    y < h,
                    w == grid@.width,
                    h == grid@.height,
                    grid@.wf(),
                    self.can_render(grid@),
                    self.shows(grid@, buffer_rows(*buffer), y * w + x),
                decreases w - x,
            {
                self.draw_cell((x, y), grid, buffer);
                x += 1;
            }
            proof {
                assert(y * w + w == (y + 1) * w) by (nonlinear_arith);
            }
            y += 1;
        }
        proof {
            assert(h * w == w * h) by (nonlinear_arith);
        }
    }

    /// Draws one cell: the pixels of its square get the colour of the walls,
    /// except for the passage in its middle and for the walls and corners
    /// through which the cell has a passage. A cell of the last column or of
    /// the last row also draws the outer wall beside it.
    fn draw_cell(&self, coords: Coords, grid: &Grid, buffer: &mut PixelBuffer)
        requires
            grid@.wf(),
            grid@.in_bounds(coords.0 as int, coords.1 as int),
            self.can_render(grid@),
            self.shows(
                grid@,
                buffer_rows(*old(buffer)),
                grid@.index(coords.0 as int, coords.1 as int),
            ),
        ensures
            self.shows(
                grid@,
                buffer_rows(*final(buffer)),
                grid@.index(coords.0 as int, coords.1 as int) + 1,
            ),
    {
        let ghost g = grid@;
        let (x, y) = coords;
        let ghost k = g.index(x as int, y as int);
        let (image_width, image_height) = self.sizes(grid);
        let ghost iw = image_width as int;
        let ghost ih = image_height as int;
        let north = grid.is_carved(coords, Cell::north());
        let south = grid.is_carved(coords, Cell::south());
        let east = grid.is_carved(coords, Cell::east());
        let west = grid.is_carved(coords, Cell::west());
        let ghost c = g.cell(x as int, y as int);
        let wall = self.wall_width;
        let cell_width = self.cell_width();
        let inner_cell_width = cell_width - wall;
        proof {
            let i = self.spec_inner();
            assert(0 <= x * i && x * i + i <= g.width * i && 0 <= y * i && y * i + i <= g.height
                * i && g.width * i == i * g.width && g.height * i == i * g.height)
                by (nonlinear_arith)
                requires
                    0 <= x < g.width,
                    0 <= y < g.height,
                    i >= 0,
            ;
            lemma_index_bounds(g.width, g.height, x as int, y as int);
            vstd::arithmetic::div_mod::lemma_fundamental_div_mod_converse(
                k,
                g.width,
                y as int,
                x as int,
            );
        }
        let cell_x = x * inner_cell_width + self.margin;
        let cell_y = y * inner_cell_width + self.margin;
        let color = rgb(self.foreground_color);
        let mut py: usize = cell_y;
        while py < cell_y + cell_width
            invariant
                cell_y <= py <= cell_y + cell_width,
                g == grid@,
                g.wf(),
                g.in_bounds(x as int, y as int),
                k == g.index(x as int, y as int),
                iw == self.image_width(g),
                ih == self.image_height(g),
                iw <= u32::MAX,
                ih <= u32::MAX,
                c == g.cell(x as int, y as int),
                north == c.north,
                south == c.south,
                east == c.east,
                west == c.west,
                wall == self.wall_width,
                cell_width == self.spec_cell_width(),
                inner_cell_width == self.spec_inner(),
                cell_x == self.origin(x as int),
                cell_y == self.origin(y as int),
                cell_x + cell_width <= iw,
                cell_y + cell_width <= ih,
                color == spec_rgb(self.foreground_color),
                rows_sized(buffer_rows(*buffer), iw, ih),
                forall|qx: int, qy: int|
                    0 <= qx < iw && 0 <= qy < ih ==> #[trigger] buffer_rows(*buffer)[qy][qx]
                        == self.tint(
                        self.painted(g, k, qx, qy) || (qy < py && self.in_square(
                            x as int,
                            y as int,
                            qx,
                            qy,
                        ) && !self.skips(c, cell_x as int, cell_y as int, qx, qy)),
                    ),
            decreases cell_y + cell_width - py,
        {
            let mut px: usize = cell_x;
            while px < cell_x + cell_width
                invariant
                    cell_x <= px <= cell_x + cell_width,
                    cell_y <= py < cell_y + cell_width,
                    g == grid@,
                    iw == self.image_width(g),
                    ih == self.image_height(g),
                    iw <= u32::MAX,
                    ih <= u32::MAX,
                    north == c.north,
                    south == c.south,
                    east == c.east,
                    west == c.west,
                    wall == self.wall_width,
                    cell_width == self.spec_cell_width(),
                    inner_cell_width == self.spec_inner(),
                    cell_x == self.origin(x as int),
                    cell_y == self.origin(y as int),
                    cell_x + cell_width <= iw,
                    cell_y + cell_width <= ih,
                    color == spec_rgb(self.foreground_color),
                    rows_sized(buffer_rows(*buffer), iw, ih),
                    forall|qx: int, qy: int|
                        0 <= qx < iw && 0 <= qy < ih ==> #[trigger] buffer_rows(*buffer)[qy][qx]
                            == self.tint(
                            self.painted(g, k, qx, qy) || ((qy < py || (qy == py && qx < px))
                                && self.in_square(x as int, y as int, qx, qy) && !self.skips(
                                c,
                                cell_x as int,
                                cell_y as int,
                                qx,
                                qy,
                            )),
                        ),
                decreases cell_x + cell_width - px,
            {
                let left = px <= cell_x + wall;
                let mid_x = px >= cell_x + wall && px <= cell_x + inner_cell_width;
                let right = px >= cell_x + inner_cell_width && px <= cell_x + cell_width;
                let top = py <= cell_y + wall;
                let mid_y = py >= cell_y + wall && py <= cell_y + inner_cell_width;
                let bottom = py >= cell_y + inner_cell_width && py <= cell_y + cell_width;
                let skip = (left && top && north && west) || (mid_x && top && north) || (right
                    && top && north && east) || (left && mid_y && west) || (mid_x && mid_y) || (
                right && mid_y && east) || (left && bottom && south && west) || (mid_x && bottom
                    && south) || (right && bottom && south && east);
                assert(skip == self.skips(c, cell_x as int, cell_y as int, px as int, py as int));
                if !skip {
                    let ghost rows = buffer_rows(*buffer);
                    proof {
                        lemma_set_pixel(rows, iw, ih, px as int, py as int, color);
                        assert(rows[py as int].len() == iw);
                    }
                    buffer.paint(px as u32, py as u32, color);
                }
                px += 1;
            }
            py += 1;
        }
        let is_rightmost_cell = x == grid.width() - 1;
        let is_bottommost_cell = y == grid.height() - 1;
        if is_rightmost_cell || is_bottommost_cell {
            let cell_right_x = cell_x + cell_width - 1;
            let cell_bottom_y = cell_y + cell_width - 1;
            let mut py: usize = cell_y;
            while py <= cell_bottom_y
                invariant
                    cell_y <= py <= cell_bottom_y + 1,
                    g == grid@,
                    g.wf(),
                    g.in_bounds(x as int, y as int),
                    iw == self.image_width(g),
                    ih == self.image_height(g),
                    iw <= u32::MAX,
                    ih <= u32::MAX,
                    is_rightmost_cell == (x == g.width - 1),
                    is_bottommost_cell == (y == g.height - 1),
                    wall == self.wall_width,
                    cell_width == self.spec_cell_width(),
                    cell_width >= 1,
                    cell_right_x == cell_x + cell_width - 1,
                    cell_bottom_y == cell_y + cell_width - 1,
                    cell_x == self.origin(x as int),
                    cell_y == self.origin(y as int),
                    cell_x + cell_width <= iw,
                    cell_y + cell_width <= ih,
                    color == spec_rgb(self.foreground_color),
                    rows_sized(buffer_rows(*buffer), iw, ih),
                    forall|qx: int, qy: int|
                        0 <= qx < iw && 0 <= qy < ih ==> #[trigger] buffer_rows(*buffer)[qy][qx]
                            == self.tint(
                            self.painted(g, k, qx, qy) || (self.in_square(
                                x as int,
                                y as int,
                                qx,
                                qy,
                            ) && (!self.skips(c, cell_x as int, cell_y as int, qx, qy) || (qy < py
                                && self.edge(g, x as int, y as int, qx, qy)))),
                        ),
                decreases cell_bottom_y + 1 - py,
            {
                let mut px: usize = cell_x;
                while px <= cell_right_x
                    invariant
                        cell_x <= px <= cell_right_x + 1,
                        cell_y <= py <= cell_bottom_y,
                        g == grid@,
                        iw == self.image_width(g),
                        ih == self.image_height(g),
                        iw <= u32::MAX,
                        ih <= u32::MAX,
                        is_rightmost_cell == (x == g.width - 1),
                        is_bottommost_cell == (y == g.height - 1),
                        wall == self.wall_width,
                        cell_width == self.spec_cell_width(),
                        cell_width >= 1,
                        cell_right_x == cell_x + cell_width - 1,
                        cell_bottom_y == cell_y + cell_width - 1,
                        cell_x == self.origin(x as int),
                        cell_y == self.origin(y as int),
                        cell_x + cell_width <= iw,
                        cell_y + cell_width <= ih,
                        color == spec_rgb(self.foreground_color),
                        rows_sized(buffer_rows(*buffer), iw, ih),
                        forall|qx: int, qy: int|
                            0 <= qx < iw && 0 <= qy < ih ==> #[trigger] buffer_rows(
                                *buffer,
                            )[qy][qx] == self.tint(
                                self.painted(g, k, qx, qy) || (self.in_square(
                                    x as int,
                                    y as int,
                                    qx,
                                    qy,
                                ) && (!self.skips(c, cell_x as int, cell_y as int, qx, qy) || ((qy
                                    < py || (qy == py && qx < px)) && self.edge(
                                    g,
                                    x as int,
                                    y as int,
                                    qx,
                                    qy,
                                )))),
                            ),
                    decreases cell_right_x + 1 - px,
                {
                    if (is_rightmost_cell && px > cell_right_x - wall) || (is_bottommost_cell
                        && py > cell_bottom_y - wall) {
                        let ghost rows = buffer_rows(*buffer);
                        proof {
                            lemma_set_pixel(rows, iw, ih, px as int, py as int, color);
                            assert(rows[py as int].len() == iw);
                            assert(self.edge(g, x as int, y as int, px as int, py as int));
                        }
                        buffer.paint(px as u32, py as u32, color);
                    } else {
                        assert(!self.edge(g, x as int, y as int, px as int, py as int));
                    }
                    px += 1;
                }
                py += 1;
            }
        } else {
            assert(forall|qx: int, qy: int| !self.edge(g, x as int, y as int, qx, qy));
        }
        proof {
            let rows = buffer_rows(*buffer);
            assert forall|qx: int, qy: int| 0 <= qx < iw && 0 <= qy < ih implies #[trigger] rows[qy][qx]
                == self.tint(self.painted(g, k + 1, qx, qy)) by {
                assert(self.painted(g, k + 1, qx, qy) == (self.painted(g, k, qx, qy)
                    || self.cell_paints(g, x as int, y as int, qx, qy)));
            }
        }
    }
}

impl Default for Image {
    fn default() -> (r: Image)
        ensures
            r.wall_width == 40,
            r.passage_width == 40,
            r.margin == 50,
            r.background_color == Color::RGB(250, 250, 250),
            r.foreground_color == Color::RGB(0, 0, 0),
    {
        Image::new()
    }
}

impl Formatter<ImageWrapper> for Image {
    open spec fn fits(&self, g: GridView) -> bool {
        self.can_render(g)
    }

    open spec fn formats(&self, g: GridView, out: ImageWrapper) -> bool {
        out.size() == (self.image_width(g), self.image_height(g)) && self.shows(
            g,
            out.rows(),
            g.width * g.height,
        )
    }

    /// Renders the grid as an image: the background first, then the cells.
    fn format(&self, grid: &Grid) -> (r: ImageWrapper) {
        let (width, height) = self.sizes(grid);
        let mut buffer = PixelBuffer::blank(width as u32, height as u32);
        self.fill_background(&mut buffer, width as u32, height as u32);
        self.draw_maze(&mut buffer, grid);
        ImageWrapper { width: width as u32, height: height as u32, buffer }
    }
}

} // verus!
