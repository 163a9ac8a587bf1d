//! How a terminal shows the canvas: the canvas at the top, the status
//! window at the bottom, and one line between the two.
//!
//! Nothing here draws. These functions say what is to be drawn where, from
//! the size that the terminal reports.

use vstd::prelude::*;

use crate::canvas::{Canvas, Grid};

verus! {

/// The part of a terminal of `rows` lines and `cols` columns that is left
/// for the canvas, as lines and columns, where the status window takes
/// `status_h` lines and the boundary one more.
pub fn canvas_bounds(rows: usize, cols: usize, status_h: usize) -> (bounds: (usize, usize))
    requires
        status_h < rows,
    ensures
        bounds.0 == rows - (status_h + 1),
        bounds.1 == cols,
{
    (rows - (status_h + 1), cols)
}

/// The line of the boundary between the canvas and the status window: the
/// one above the `status_h` lines at the bottom.
pub fn boundary_row(rows: usize, status_h: usize) -> (row: usize)
    requires
        status_h <= rows,
    ensures
        row == rows - status_h,
{
    rows - status_h
}

/// One character at its place on the screen.
#[derive(Debug, Clone, Copy, PartialEq, Eq, Structural)]
pub struct Glyph {
    /// The line, counted from the top.
    pub y: usize,
    /// The column, counted from the left.
    pub x: usize,
    /// The character.
    pub c: char,
}

/// The cells of `canvas` in the columns from `min_x` up to `max_x` of line
/// `y`, left to right, each at the place of its own coordinates.
pub open spec fn visible_row(canvas: Grid, y: int, min_x: int, max_x: int) -> Seq<Glyph> {
    Seq::new(
        if min_x < max_x {
            (max_x - min_x) as nat
        } else {
            0
        },
        |i: int| Glyph { y: y as usize, x: (min_x + i) as usize, c: canvas.cell(min_x + i, y) },
    )
}

/// The cells of `canvas` in the lines from `min_y` up to `max_y` and the
/// columns from `min_x` up to `max_x`, line by line from the top.
pub open spec fn visible(canvas: Grid, min_y: int, min_x: int, max_y: int, max_x: int) -> Seq<
    Glyph,
> {
    Seq::new(
        if min_y < max_y {
            (max_y - min_y) as nat
        } else {
            0
        },
        |j: int| visible_row(canvas, min_y + j, min_x, max_x),
    ).flatten()
}

/// What is to be drawn of the canvas: its cells from the line and column of
/// `view` up to, and without, the line and column of `bounds`.
pub fn visible_cells(canvas: &Canvas, view: (usize, usize), bounds: (usize, usize)) -> (glyphs:
    Vec<Glyph>)
    requires
        view.0 < bounds.0 && view.1 < bounds.1 ==> bounds.0 <= canvas@.height && bounds.1
            <= canvas@.width,
    ensures
        glyphs@ == visible(canvas@, view.0 as int, view.1 as int, bounds.0 as int, bounds.1 as int),
{
    let (min_y, min_x) = view;
    let (max_y, max_x) = bounds;
    let ghost lines = Seq::new(
        if min_y < max_y {
            (max_y - min_y) as nat
        } else {
            0
        },
        |j: int| visible_row(canvas@, min_y + j, min_x as int, max_x as int),
    );
    let mut glyphs: Vec<Glyph> = Vec::new();
    if min_y >= max_y || min_x >= max_x {
        proof {
            assert(lines.flatten() =~= Seq::<Glyph>::empty()) by {
                lemma_flatten_of_empty_rows(lines);
            }
        }
        return glyphs;
    }
    let mut y = min_y;
    while y < max_y
        invariant
            min_y <= y <= max_y <= canvas@.height,
            min_x < max_x <= canvas@.width,
            lines.len() == max_y - min_y,
            forall|j: int|
                0 <= j < lines.len() ==> #[trigger] lines[j] == visible_row(
                    canvas@,
                    min_y + j,
                    min_x as int,
                    max_x as int,
                ),
            glyphs@ == lines.take(y - min_y).flatten(),
        decreases max_y - y,
    {
        let ghost done = glyphs@;
        let ghost line = visible_row(canvas@, y as int, min_x as int, max_x as int);
        let mut x = min_x;
        while x < max_x
            invariant
                y < canvas@.height,
                min_x <= x <= max_x <= canvas@.width,
                line == visible_row(canvas@, y as int, min_x as int, max_x as int),
                glyphs@ == done + line.take(x - min_x),
            decreases max_x - x,
        {
            glyphs.push(Glyph { y, x, c: canvas.get(x, y) });
            x += 1;
        }
        proof {
            assert(lines.take(y + 1 - min_y) =~= lines.take(y - min_y).push(line));
            lines.take(y - min_y).lemma_flatten_push(line);
        }
        y += 1;
    }
    assert(lines.take(y - min_y) =~= lines);
    glyphs
}

/// Lines without characters make a text without characters.
proof fn lemma_flatten_of_empty_rows(lines: Seq<Seq<Glyph>>)
    requires
        forall|j: int| 0 <= j < lines.len() ==> (#[trigger] lines[j]).len() == 0,
    ensures
        lines.flatten().len() == 0,
    decreases lines.len(),
{
    if lines.len() > 0 {
        let rest = lines.drop_first();
        assert forall|j: int| 0 <= j < rest.len() implies (#[trigger] rest[j]).len() == 0 by {}
        lemma_flatten_of_empty_rows(rest);
    }
}

} // verus!
