//! Rendering a maze as ASCII text.

use crate::cell::Cell;
use crate::formatters::{Formatter, StringWrapper};
use crate::grid::{Grid, GridView};
use crate::pole::Pole;
use vstd::prelude::*;

verus! {

/// The narrow output: one line per row, two characters per cell.
///
/// ```text
///  _______
/// |  ___| |
/// |_  |  _|
/// | | |_  |
/// |_______|
/// ```
pub struct Narrow;

/// The broad output: wider passages and `+` for the corners.
///
/// ```text
/// +---+---+
/// |       |
/// +   +---+
/// |       |
/// +---+---+
/// ```
pub struct Broad;

/// A formatter that renders a maze as ASCII text, narrow or broad.
pub struct Ascii<T = Narrow> {
    t: core::marker::PhantomData<T>,
}

/// A run of `n` underscores.
pub open spec fn underscores(n: int) -> Seq<char>
    decreases n,
{
    if n <= 0 {
        Seq::<char>::empty()
    } else {
        underscores(n - 1).push('_')
    }
}

/// The two characters of a cell in the narrow output: its floor and its
/// eastern side.
pub open spec fn narrow_cell(g: GridView, x: int, y: int) -> Seq<char> {
    seq![
        if g.open(x, y, Pole::S) {
            ' '
        } else {
            '_'
        },
        if g.open(x, y, Pole::E) {
            if g.open(x, y, Pole::S) || g.open(x + 1, y, Pole::S) {
                ' '
            } else {
                '_'
            }
        } else {
            '|'
        },
    ]
}

/// The first `n` cells of row `y` in the narrow output.
pub open spec fn narrow_cells(g: GridView, y: int, n: int) -> Seq<char>
    decreases n,
{
    if n <= 0 {
        Seq::<char>::empty()
    } else {
        narrow_cells(g, y, n - 1) + narrow_cell(g, n - 1, y)
    }
}

/// The first `n` rows in the narrow output, each between a `|` and a line
/// break.
pub open spec fn narrow_rows(g: GridView, n: int) -> Seq<char>
    decreases n,
{
    if n <= 0 {
        Seq::<char>::empty()
    } else {
        narrow_rows(g, n - 1) + seq!['|'] + narrow_cells(g, n - 1, g.width) + seq!['\n']
    }
}

/// The narrow output of a grid: the top border, then the rows.
pub open spec fn narrow_text(g: GridView) -> Seq<char> {
    seq![' '] + underscores(2 * g.width - 1) + seq![' ', '\n'] + narrow_rows(g, g.height)
}

/// The upper line of the first `n` cells of row `y` in the broad output.
pub open spec fn broad_top(g: GridView, y: int, n: int) -> Seq<char>
    decreases n,
{
    if n <= 0 {
        Seq::<char>::empty()
    } else {
        broad_top(g, y, n - 1) + seq![
            ' ',
            ' ',
            ' ',
            if g.open(n - 1, y, Pole::E) {
                ' '
            } else {
                '|'
            },
        ]
    }
}

/// The lower line of the first `n` cells of row `y` in the broad output.
pub open spec fn broad_bottom(g: GridView, y: int, n: int) -> Seq<char>
    decreases n,
{
    if n <= 0 {
        Seq::<char>::empty()
    } else {
        broad_bottom(g, y, n - 1) + (if g.open(n - 1, y, Pole::S) {
            seq![' ', ' ', ' ', '+']
        } else {
            seq!['-', '-', '-', '+']
        })
    }
}

/// The top border of the broad output for `n` columns.
pub open spec fn broad_border(n: int) -> Seq<char>
    decreases n,
{
    if n <= 0 {
        Seq::<char>::empty()
    } else {
        broad_border(n - 1) + seq!['-', '-', '-', '+']
    }
}

/// The first `n` rows in the broad output, two lines each.
pub open spec fn broad_rows(g: GridView, n: int) -> Seq<char>
    decreases n,
{
    if n <= 0 {
        Seq::<char>::empty()
    } else {
        broad_rows(g, n - 1) + seq!['|'] + broad_top(g, n - 1, g.width) + seq!['\n', '+']
            + broad_bottom(g, n - 1, g.width) + seq!['\n']
    }
}

/// The broad output of a grid: the top border, then the rows.
pub open spec fn broad_text(g: GridView) -> Seq<char> {
    seq!['+'] + broad_border(g.width) + seq!['\n'] + broad_rows(g, g.height)
}

/// Renders a grid in the narrow form.
pub fn render_narrow(grid: &Grid) -> (r: String)
    requires
        grid@.wf(),
    ensures
        r@ == narrow_text(grid@),
{
    let ghost g = grid@;
    let w = grid.width();
    let h = grid.height();
    let mut text = String::new();
    text.push(' ');
    let mut i: usize = 0;
    while i < w
        invariant
            i <= w,
            text@ == seq![' '] + underscores(
                if i == 0 {
                    0
                } else {
                    2 * i - 1
                },
            ),
        decreases w - i,
    {
        let ghost before = text@;
        if i > 0 {
            text.push('_');
        }
        text.push('_');
        proof {
            let n = if i == 0 {
                0
            } else {
                2 * i - 1
            };
            assert(underscores(2 * (i + 1) - 1) == underscores(2 * i).push('_'));
            if i > 0 {
                assert(underscores(2 * i) == underscores(2 * i - 1).push('_'));
            }
            assert(text@ =~= seq![' '] + underscores(2 * (i + 1) - 1));
        }
        i += 1;
    }
    text.push(' ');
    text.push('\n');
    let ghost head = seq![' '] + underscores(2 * g.width - 1) + seq![' ', '\n'];
    assert(text@ =~= head);
    let mut y: usize = 0;
    while y < h
        invariant
            y <= h,
            g == grid@,
            g.wf(),
            w == g.width,
            h == g.height,
            text@ == head + narrow_rows(g, y as int),
        decreases h - y,
    {
        let ghost row_start = text@;
        text.push('|');
        let mut x: usize = 0;
        while x < w
            invariant
                x <= w,
                y < h,
                g == grid@,
                g.wf(),
                w == g.width,
                h == g.height,
                text@ == row_start + seq!['|'] + narrow_cells(g, y as int, x as int),
            decreases w - x,
        {
            let ghost before = text@;
            let south = grid.is_carved((x, y), Cell::south());
            if south {
                text.push(' ');
            } else {
                text.push('_');
            }
            if grid.is_carved((x, y), Cell::east()) {
                assert(g.mirrored(x as int, y as int, Pole::E));
                if south || grid.is_carved((x + 1, y), Cell::south()) {
                    text.push(' ');
                } else {
                    text.push('_');
                }
            } else {
                text.push('|');
            }
            proof {
                assert(text@ =~= before + narrow_cell(g, x as int, y as int));
                assert(row_start + seq!['|'] + narrow_cells(g, y as int, x as int) + narrow_cell(
                    g,
                    x as int,
                    y as int,
                ) =~= row_start + seq!['|'] + narrow_cells(g, y as int, x + 1));
            }
            x += 1;
        }
        text.push('\n');
        proof {
            assert(text@ =~= head + narrow_rows(g, y + 1));
        }
        y += 1;
    }
    text
}

/// Renders a grid in the broad form.
pub fn render_broad(grid: &Grid) -> (r: String)
    requires
        grid@.wf(),
    ensures
        r@ == broad_text(grid@),
{
    let ghost g = grid@;
    let w = grid.width();
    let h = grid.height();
    let mut output = String::new();
    output.push('+');
    let mut i: usize = 0;
    while i < w
        invariant
            i <= w,
            output@ == seq!['+'] + broad_border(i as int),
        decreases w - i,
    {
        output.push('-');
        output.push('-');
        output.push('-');
        output.push('+');
        assert(output@ =~= seq!['+'] + broad_border(i + 1));
        i += 1;
    }
    output.push('\n');
    let ghost head = seq!['+'] + broad_border(g.width) + seq!['\n'];
    assert(output@ =~= head);
    let mut y: usize = 0;
    while y < h
        invariant
            y <= h,
            g == grid@,
            g.wf(),
            w == g.width,
            h == g.height,
            output@ == head + broad_rows(g, y as int),
        decreases h - y,
    {
        let mut top_line = String::new();
        top_line.push('|');
        let mut bottom_line = String::new();
        bottom_line.push('+');
        let mut x: usize = 0;
        while x < w
            invariant
                x <= w,
                y < h,
                g == grid@,
                g.wf(),
                w == g.width,
                h == g.height,
                top_line@ == seq!['|'] + broad_top(g, y as int, x as int),
                bottom_line@ == seq!['+'] + broad_bottom(g, y as int, x as int),
            decreases w - x,
        {
            top_line.push(' ');
            top_line.push(' ');
            top_line.push(' ');
            if grid.is_carved((x, y), Cell::east()) {
                top_line.push(' ');
            } else {
                top_line.push('|');
            }
            if grid.is_carved((x, y), Cell::south()) {
                bottom_line.push(' ');
                bottom_line.push(' ');
                bottom_line.push(' ');
            } else {
                bottom_line.push('-');
                bottom_line.push('-');
                bottom_line.push('-');
            }
            bottom_line.push('+');
            proof {
                assert(top_line@ =~= seq!['|'] + broad_top(g, y as int, x + 1));
                assert(bottom_line@ =~= seq!['+'] + broad_bottom(g, y as int, x + 1));
            }
            x += 1;
        }
        let ghost before = output@;
        output.append(top_line.as_str());
        output.push('\n');
        output.append(bottom_line.as_str());
        output.push('\n');
        proof {
            assert(output@ =~= head + broad_rows(g, y + 1));
        }
        y += 1;
    }
    output
}

impl Ascii<Narrow> {
    /// Returns the formatter for the narrow output.
    pub fn new() -> (r: Ascii<Narrow>) {
        Ascii { t: core::marker::PhantomData }
    }

    /// Returns the formatter for the narrow output.
    pub fn narrow() -> (r: Ascii<Narrow>) {
        Ascii { t: core::marker::PhantomData }
    }
}

impl Ascii<Broad> {
    /// Returns the formatter for the broad output.
    pub fn broad() -> (r: Ascii<Broad>) {
        Ascii { t: core::marker::PhantomData }
    }
}

impl Formatter<StringWrapper> for Ascii<Narrow> {
    open spec fn fits(&self, g: GridView) -> bool {
        true
    }

    open spec fn formats(&self, g: GridView, out: StringWrapper) -> bool {
        out.0@ == narrow_text(g)
    }

    fn format(&self, grid: &Grid) -> (r: StringWrapper) {
        StringWrapper(render_narrow(grid))
    }
}

impl Formatter<StringWrapper> for Ascii<Broad> {
    open spec fn fits(&self, g: GridView) -> bool {
        true
    }

    open spec fn formats(&self, g: GridView, out: StringWrapper) -> bool {
        out.0@ == broad_text(g)
    }

    fn format(&self, grid: &Grid) -> (r: StringWrapper) {
        StringWrapper(render_broad(grid))
    }
}

} // verus!
