//! The shared character grid.

use vstd::prelude::*;
use vstd::std_specs::iter::IteratorSpec;
use vstd::std_specs::cmp::PartialEqSpecImpl;

use crate::text::lemma_utf8_len;

verus! {

/// The mathematical value of a canvas: its dimensions and its rows, top to
/// bottom, each row read left to right.
pub struct Grid {
    pub width: nat,
    pub height: nat,
    pub rows: Seq<Seq<char>>,
}

impl Grid {
    /// There are `height` rows and each of them has `width` cells.
    pub open spec fn wf(self) -> bool {
        &&& self.rows.len() == self.height
        &&& forall|y: int| 0 <= y < self.height ==> (#[trigger] self.rows[y]).len() == self.width
    }

    /// `(x, y)` names a cell of the grid.
    pub open spec fn contains(self, x: int, y: int) -> bool {
        0 <= x < self.width && 0 <= y < self.height
    }

    /// The character in column `x` of row `y`.
    pub open spec fn cell(self, x: int, y: int) -> char
        recommends
            self.contains(x, y),
    {
        self.rows[y][x]
    }

    /// The grid of the given size whose cells all hold a space.
    pub open spec fn blank(width: nat, height: nat) -> Grid {
        Grid {
            width,
            height,
            rows: Seq::new(height, |y: int| Seq::new(width, |x: int| ' ')),
        }
    }

    /// The grid with the cell at `(x, y)` replaced by `c`.
    pub open spec fn set(self, x: int, y: int, c: char) -> Grid
        recommends
            self.contains(x, y),
    {
        Grid {
            width: self.width,
            height: self.height,
            rows: self.rows.update(y, self.rows[y].update(x, c)),
        }
    }

    /// The cells in row-major order: the rows one after another, with
    /// nothing between them.
    pub open spec fn cells(self) -> Seq<char> {
        self.rows.flatten()
    }

    /// The rows one below the other: a line feed between two rows, none
    /// after the last.
    pub open spec fn render(self) -> Seq<char> {
        join_lines(self.rows)
    }

    /// How many characters of `text` find room in the grid.
    pub open spec fn placed(self, text: Seq<char>) -> nat {
        if text.len() <= self.width * self.height {
            text.len()
        } else {
            self.width * self.height
        }
    }

    /// The grid after `text` has been written over it from the top left
    /// corner, row by row: the character at index `y * width + x` of `text`
    /// lands at `(x, y)`, and cells past the end of `text` keep what they
    /// held.
    pub open spec fn insert(self, text: Seq<char>) -> Grid {
        Grid {
            width: self.width,
            height: self.height,
            rows: Seq::new(
                self.height,
                |y: int|
                    Seq::new(
                        self.width,
                        |x: int|
                            if y * self.width + x < text.len() {
                                text[y * self.width + x]
                            } else {
                                self.rows[y][x]
                            },
                    ),
            ),
        }
    }
}

/// The lines with a line feed between each two of them.
pub open spec fn join_lines(lines: Seq<Seq<char>>) -> Seq<char>
    decreases lines.len(),
{
    if lines.len() == 0 {
        Seq::empty()
    } else if lines.len() == 1 {
        lines[0]
    } else {
        join_lines(lines.drop_last()) + seq!['\n'] + lines.last()
    }
}

/// A fixed-size grid of characters.
#[derive(Debug)]
pub struct Canvas {
    width: usize,
    height: usize,
    rows: Vec<Vec<char>>,
}

impl View for Canvas {
    type V = Grid;

    closed spec fn view(&self) -> Grid {
        Grid {
            width: self.width as nat,
            height: self.height as nat,
            rows: Seq::new(self.rows@.len(), |y: int| self.rows@[y]@),
        }
    }
}

impl Canvas {
    /// All rows are there and have the full width: this holds of every
    /// canvas that exists at run time.
    #[verifier::type_invariant]
    pub closed spec fn wf(self) -> bool {
        &&& self.rows@.len() == self.height
        &&& forall|y: int| 0 <= y < self.rows@.len() ==> (#[trigger] self.rows@[y])@.len() == self.width
    }

    /// The value of a canvas is a grid with rows of one width.
    pub proof fn lemma_wf(self)
        requires
            self.wf(),
        ensures
            self@.wf(),
    {
    }

    /// A canvas of the given size, every cell holding a space.
    pub fn new(width: usize, height: usize) -> (canvas: Canvas)
        ensures
            canvas@ == Grid::blank(width as nat, height as nat),
    {
        let mut rows: Vec<Vec<char>> = Vec::with_capacity(height);
        let mut y: usize = 0;
        while y < height
            invariant
                y <= height,
                rows@.len() == y,
                forall|j: int| 0 <= j < y ==> (#[trigger] rows@[j])@ == Seq::new(width as nat, |x: int| ' '),
            decreases height - y,
        {
            let mut row: Vec<char> = Vec::with_capacity(width);
            let mut x: usize = 0;
            while x < width
                invariant
                    x <= width,
                    row@ == Seq::new(x as nat, |i: int| ' '),
                decreases width - x,
            {
                row.push(' ');
                x += 1;
            }
            rows.push(row);
            y += 1;
        }
        let canvas = Canvas { width, height, rows };
        assert(canvas@.rows =~= Grid::blank(width as nat, height as nat).rows);
        canvas
    }

    /// The number of columns.
    pub fn width(&self) -> (w: usize)
        ensures
            w == self@.width,
    {
        self.width
    }

    /// The number of rows.
    pub fn height(&self) -> (h: usize)
        ensures
            h == self@.height,
    {
        self.height
    }

    /// Whether `(x, y)` names a cell of this canvas.
    pub fn is_in(&self, x: usize, y: usize) -> (inside: bool)
        ensures
            inside == self@.contains(x as int, y as int),
    {
        x < self.width && y < self.height
    }

    /// The character at `(x, y)`.
    pub fn get(&self, x: usize, y: usize) -> (c: char)
        requires
            self@.contains(x as int, y as int),
        ensures
            c == self@.cell(x as int, y as int),
    {
        proof {
            use_type_invariant(self);
        }
        self.rows[y][x]
    }

    /// Puts `val` at `(x, y)` and leaves every other cell as it was.
    pub fn set(&mut self, x: usize, y: usize, val: char)
        requires
            old(self)@.contains(x as int, y as int),
        ensures
            final(self)@ == old(self)@.set(x as int, y as int, val),
    {
        proof {
            use_type_invariant(&*self);
        }
        put(&mut self.rows, x, y, val);
        assert(self@.rows =~= old(self)@.set(x as int, y as int, val).rows);
    }

    /// Writes `s` over the canvas from the top left corner, one cell for
    /// each character, row by row, until the text or the canvas ends.
    /// Returns how many characters were written.
    pub fn insert(&mut self, s: &str) -> (count: usize)
        ensures
            final(self)@ == old(self)@.insert(s@),
            count == old(self)@.placed(s@),
    {
        let ghost before = self@;
        let ghost w = self.width as int;
        let ghost h = self.height as int;
        proof {
            use_type_invariant(&*self);
        }
        if self.width == 0 || self.height == 0 {
            proof {
                let after = before.insert(s@);
                assert forall|j: int| 0 <= j < h implies #[trigger] self@.rows[j] =~= after.rows[j] by {}
                assert(self@.rows =~= after.rows);
                assert(w * h == 0) by (nonlinear_arith)
                    requires
                        w == 0 || h == 0,
                ;
            }
            return 0;
        }
        // a text has no more characters than bytes: counting them cannot
        // overflow
        let limit = s.as_bytes().len();
        proof {
            lemma_utf8_len(s@);
        }
        let mut x: usize = 0;
        let mut y: usize = 0;
        let mut count: usize = 0;
        let mut it = s.chars();
        loop
            invariant_except_break
                it.remaining() == s@.skip(count as int),
            invariant
                w == self.width,
                h == self.height,
                w > 0,
                self@.width == before.width,
                self@.height == before.height,
                self@.wf(),
                0 <= x <= w,
                0 <= y < h,
                count == y * w + x,
                count <= s@.len() <= limit,
                forall|i: int, j: int|
                    0 <= i < w && 0 <= j < h ==> #[trigger] self@.rows[j][i] == if j * w + i
                        < count {
                        s@[j * w + i]
                    } else {
                        before.rows[j][i]
                    },
            ensures
                count == before.placed(s@),
                count == s@.len() || count == h * w,
            decreases s@.len() - count,
        {
            let next = it.next();
            match next {
                None => {
                    proof {
                        assert((y + 1) * w <= h * w) by (nonlinear_arith)
                            requires
                                y + 1 <= h,
                                0 <= w,
                        ;
                        assert((y + 1) * w == y * w + w) by (nonlinear_arith);
                    }
                    break ;
                },
                Some(c) => {
                    if x >= self.width {
                        assert((y + 1) * w == y * w + w) by (nonlinear_arith);
                        if y + 1 >= self.height {
                            break ;
                        }
                        x = 0;
                        y += 1;
                    }
                    let ghost prior = self@;
                    self.set(x, y, c);
                    proof {
                        use_type_invariant(&*self);
                        assert forall|i: int, j: int| 0 <= i < w && 0 <= j < h implies #[trigger] self@.rows[j][i]
                            == if j * w + i < count + 1 {
                            s@[j * w + i]
                        } else {
                            before.rows[j][i]
                        } by {
                            lemma_row_major_order(w, i, j, x as int, y as int);
                            lemma_row_major_order(w, i, j, x + 1, y as int);
                            assert(prior.rows[j][i] == if j * w + i < count {
                                s@[j * w + i]
                            } else {
                                before.rows[j][i]
                            });
                        }
                    }
                    x += 1;
                    count += 1;
                },
            }
        }
        proof {
            let after = before.insert(s@);
            assert forall|j: int| 0 <= j < h implies #[trigger] self@.rows[j] =~= after.rows[j] by {
                assert forall|i: int| 0 <= i < w implies self@.rows[j][i] == after.rows[j][i] by {
                    lemma_row_major_order(w, i, j, 0, h);
                    assert(self@.rows[j][i] == if j * w + i < count {
                        s@[j * w + i]
                    } else {
                        before.rows[j][i]
                    });
                }
            }
            assert(self@.rows =~= after.rows);
        }
        count
    }

    /// The cells as one text in row-major order, with nothing between the
    /// rows.
    pub fn serialize(&self) -> (text: String)
        ensures
            text@ == self@.cells(),
    {
        proof {
            use_type_invariant(self);
        }
        let mut text = String::new();
        let mut y: usize = 0;
        while y < self.height
            invariant
                self@.wf(),
                self@.height == self.height,
                self@.width == self.width,
                self.rows@.len() == self.height,
                forall|j: int| 0 <= j < self.rows@.len() ==> self@.rows[j] == (#[trigger] self.rows@[j])@,
                y <= self.height,
                text@ == self@.rows.take(y as int).flatten(),
            decreases self.height - y,
        {
            let row = &self.rows[y];
            let mut x: usize = 0;
            while x < self.width
                invariant
                    row@.len() == self.width,
                    x <= self.width,
                    text@ == self@.rows.take(y as int).flatten() + row@.take(x as int),
                decreases self.width - x,
            {
                text.push(row[x]);
                x += 1;
            }
            proof {
                assert(self@.rows.take(y + 1) =~= self@.rows.take(y as int).push(row@));
                self@.rows.take(y as int).lemma_flatten_push(row@);
            }
            y += 1;
        }
        assert(self@.rows.take(y as int) =~= self@.rows);
        text
    }

    /// The canvas as lines of text, one for each row, with a line feed
    /// between two rows and none after the last.
    pub fn render(&self) -> (text: String)
        ensures
            text@ == self@.render(),
    {
        proof {
            use_type_invariant(self);
        }
        let mut text = String::new();
        let mut y: usize = 0;
        while y < self.height
            invariant
                self@.wf(),
                self@.height == self.height,
                self@.width == self.width,
                self.rows@.len() == self.height,
                forall|j: int| 0 <= j < self.rows@.len() ==> self@.rows[j] == (#[trigger] self.rows@[j])@,
                y <= self.height,
                text@ == join_lines(self@.rows.take(y as int)),
            decreases self.height - y,
        {
            let ghost head = text@;
            if y > 0 {
                text.push('\n');
            }
            let ghost start = text@;
            let row = &self.rows[y];
            let mut x: usize = 0;
            while x < self.width
                invariant
                    row@.len() == self.width,
                    x <= self.width,
                    text@ == start + row@.take(x as int),
                decreases self.width - x,
            {
                text.push(row[x]);
                x += 1;
            }
            proof {
                let upto = self@.rows.take(y + 1);
                assert(upto.drop_last() =~= self@.rows.take(y as int));
            }
            y += 1;
        }
        assert(self@.rows.take(y as int) =~= self@.rows);
        text
    }
}

/// Writes one cell of a table of rows.
fn put(rows: &mut Vec<Vec<char>>, x: usize, y: usize, val: char)
    requires
        y < old(rows)@.len(),
        x < old(rows)@[y as int]@.len(),
    ensures
        final(rows)@.len() == old(rows)@.len(),
        final(rows)@[y as int]@ == old(rows)@[y as int]@.update(x as int, val),
        forall|j: int| 0 <= j < old(rows)@.len() && j != y ==> final(rows)@[j] == old(rows)@[j],
    no_unwind
{
    rows[y][x] = val;
}

impl Clone for Canvas {
    /// A canvas of the same size with the same characters.
    fn clone(&self) -> (copy: Canvas)
        ensures
            copy@ == self@,
    {
        proof {
            use_type_invariant(self);
        }
        let mut rows: Vec<Vec<char>> = Vec::with_capacity(self.height);
        let mut y: usize = 0;
        while y < self.height
            invariant
                self.rows@.len() == self.height,
                forall|j: int| 0 <= j < self.rows@.len() ==> (#[trigger] self.rows@[j])@.len() == self.width,
                y <= self.height,
                rows@.len() == y,
                forall|j: int| 0 <= j < y ==> (#[trigger] rows@[j])@ == self.rows@[j]@,
            decreases self.height - y,
        {
            let source = &self.rows[y];
            let mut row: Vec<char> = Vec::with_capacity(self.width);
            let mut x: usize = 0;
            while x < self.width
                invariant
                    source@.len() == self.width,
                    x <= self.width,
                    row@ == source@.take(x as int),
                decreases self.width - x,
            {
                row.push(source[x]);
                x += 1;
            }
            rows.push(row);
            y += 1;
        }
        let copy = Canvas { width: self.width, height: self.height, rows };
        assert(copy@.rows =~= self@.rows);
        copy
    }
}

impl PartialEq for Canvas {
    /// Two canvases are equal when they have the same size and hold the same
    /// character in every cell.
    fn eq(&self, other: &Canvas) -> (equal: bool) {
        proof {
            use_type_invariant(self);
            use_type_invariant(other);
        }
        if self.width != other.width || self.height != other.height {
            return false;
        }
        let mut y: usize = 0;
        while y < self.height
            invariant
                self.width == other.width,
                self.height == other.height,
                self.rows@.len() == self.height,
                other.rows@.len() == self.height,
                forall|j: int| 0 <= j < self.rows@.len() ==> (#[trigger] self.rows@[j])@.len() == self.width,
                forall|j: int| 0 <= j < other.rows@.len() ==> (#[trigger] other.rows@[j])@.len() == self.width,
                y <= self.height,
                forall|j: int| 0 <= j < y ==> (#[trigger] self.rows@[j])@ == other.rows@[j]@,
            decreases self.height - y,
        {
            let left = &self.rows[y];
            let right = &other.rows[y];
            let mut x: usize = 0;
            while x < self.width
                invariant
                    y < self.rows@.len(),
                    y < other.rows@.len(),
                    left@ == self.rows@[y as int]@,
                    right@ == other.rows@[y as int]@,
                    left@.len() == self.width,
                    right@.len() == self.width,
                    x <= self.width,
                    left@.take(x as int) == right@.take(x as int),
                decreases self.width - x,
            {
                if left[x] != right[x] {
                    assert(self@.rows[y as int][x as int] != other@.rows[y as int][x as int]);
                    return false;
                }
                x += 1;
            }
            assert(left@.take(x as int) =~= left@);
            y += 1;
        }
        assert(self@.rows =~= other@.rows);
        true
    }
}

impl PartialEqSpecImpl for Canvas {
    open spec fn obeys_eq_spec() -> bool {
        true
    }

    open spec fn eq_spec(&self, other: &Canvas) -> bool {
        self@ == other@
    }
}

/// In a grid `w` cells wide, row-major order of the indices is the order of
/// the rows first and of the columns within a row second.
pub proof fn lemma_row_major_order(w: int, i: int, j: int, x: int, y: int)
    requires
        0 <= i < w,
        0 <= x <= w,
        0 <= j,
        0 <= y,
    ensures
        j * w + i < y * w + x <==> j < y || (j == y && i < x),
{
    if j < y {
        assert((j + 1) * w <= y * w) by (nonlinear_arith)
            requires
                j + 1 <= y,
                0 <= w,
        ;
        assert((j + 1) * w == j * w + w) by (nonlinear_arith);
    } else if j > y {
        assert((y + 1) * w <= j * w) by (nonlinear_arith)
            requires
                y + 1 <= j,
                0 <= w,
        ;
        assert((y + 1) * w == y * w + w) by (nonlinear_arith);
    }
}

/// Rows of one width, laid end to end: the cell in column `x` of row `y`
/// stands at index `y * w + x`.
proof fn lemma_flatten_rows(rows: Seq<Seq<char>>, w: int)
    requires
        forall|y: int| 0 <= y < rows.len() ==> (#[trigger] rows[y]).len() == w,
    ensures
        rows.flatten().len() == rows.len() * w,
        forall|x: int, y: int|
            0 <= x < w && 0 <= y < rows.len() ==> #[trigger] rows[y][x] == rows.flatten()[y * w
                + x],
    decreases rows.len(),
{
    if rows.len() == 0 {
        assert(rows.len() * w == 0) by (nonlinear_arith)
            requires
                rows.len() == 0,
        ;
    } else {
        let head = rows.drop_last();
        let n = head.len() as int;
        lemma_flatten_rows(head, w);
        head.lemma_flatten_push(rows.last());
        assert(head.push(rows.last()) =~= rows);
        assert((n + 1) * w == n * w + w) by (nonlinear_arith);
        assert forall|x: int, y: int| 0 <= x < w && 0 <= y < rows.len() implies #[trigger] rows[y][x]
            == rows.flatten()[y * w + x] by {
            lemma_row_major_order(w, x, y, 0, n);
        }
    }
}

/// The cells of a grid in row-major order are as many as the grid is wide
/// times high, and the cell at `(x, y)` is the one at index `y * width + x`.
pub proof fn lemma_cells(grid: Grid)
    requires
        grid.wf(),
    ensures
        grid.cells().len() == grid.width * grid.height,
        forall|x: int, y: int|
            #![trigger grid.contains(x, y)]
            #![trigger grid.rows[y][x]]
            grid.contains(x, y) ==> 0 <= y * grid.width + x < grid.cells().len()
                && grid.rows[y][x] == grid.cells()[y * grid.width + x],
{
    let w = grid.width as int;
    let h = grid.height as int;
    lemma_flatten_rows(grid.rows, w);
    assert forall|x: int, y: int| #[trigger] grid.contains(x, y) implies 0 <= y * grid.width + x
        < grid.cells().len() && grid.rows[y][x] == grid.cells()[y * grid.width + x] by {
        lemma_row_major_order(w, x, y, 0, h);
        assert(0 <= y * w) by (nonlinear_arith)
            requires
                0 <= y,
                0 <= w,
        ;
    }
}

/// Writing the cells of a grid over a grid of the same size gives the first
/// grid again, and every character finds room: `insert` undoes `serialize`.
pub proof fn lemma_insert_cells(grid: Grid, onto: Grid)
    requires
        grid.wf(),
        onto.wf(),
        onto.width == grid.width,
        onto.height == grid.height,
    ensures
        onto.insert(grid.cells()) == grid,
        onto.placed(grid.cells()) == grid.cells().len(),
{
    lemma_cells(grid);
    let after = onto.insert(grid.cells());
    assert forall|y: int| 0 <= y < grid.height implies #[trigger] after.rows[y] =~= grid.rows[y] by {
        assert forall|x: int| 0 <= x < grid.width implies after.rows[y][x] == grid.rows[y][x] by {
            let _ = grid.rows[y][x];
        }
    }
    assert(after.rows =~= grid.rows);
}

} // verus!
