//! A small virtual terminal screen: bytes that a program writes become a grid
//! of styled cells. Plain text, colours, boldness, cursor movement and erasing
//! are understood; there is no scrollback and no alternate screen.
use crate::vt;
use vstd::prelude::*;
use vte::Parser;

verus! {

/// The eight standard colours, and the default of the display.
#[derive(Debug, Clone, Copy, PartialEq, Eq, Default, Structural)]
pub enum Color {
    #[default]
    Default,
    Black,
    Red,
    Green,
    Yellow,
    Blue,
    Magenta,
    Cyan,
    White,
}

/// One character of the screen with its style.
#[derive(Debug, Clone, Copy, PartialEq)]
pub struct Cell {
    pub ch: char,
    pub fg: Color,
    pub bold: bool,
}

/// The colour that a graphic rendition code selects.
pub open spec fn color_of(code: u16) -> Option<Color> {
    if code == 30 {
        Some(Color::Black)
    } else if code == 31 {
        Some(Color::Red)
    } else if code == 32 {
        Some(Color::Green)
    } else if code == 33 {
        Some(Color::Yellow)
    } else if code == 34 {
        Some(Color::Blue)
    } else if code == 35 {
        Some(Color::Magenta)
    } else if code == 36 {
        Some(Color::Cyan)
    } else if code == 37 {
        Some(Color::White)
    } else if code == 39 {
        Some(Color::Default)
    } else {
        None
    }
}

/// The red, green and blue parts of a colour.
pub open spec fn rgb_of(color: Color) -> Option<(u8, u8, u8)> {
    match color {
        Color::Default => None,
        Color::Black => Some((0u8, 0u8, 0u8)),
        Color::Red => Some((205u8, 49u8, 49u8)),
        Color::Green => Some((13u8, 188u8, 121u8)),
        Color::Yellow => Some((229u8, 229u8, 16u8)),
        Color::Blue => Some((36u8, 114u8, 200u8)),
        Color::Magenta => Some((188u8, 63u8, 188u8)),
        Color::Cyan => Some((17u8, 168u8, 205u8)),
        Color::White => Some((229u8, 229u8, 229u8)),
    }
}

impl Color {
    /// The colour that a graphic rendition code selects, if it selects one.
    pub fn from_sgr(code: u16) -> (r: Option<Color>)
        ensures
            r == color_of(code),
    {
        match code {
            30 => Some(Color::Black),
            31 => Some(Color::Red),
            32 => Some(Color::Green),
            33 => Some(Color::Yellow),
            34 => Some(Color::Blue),
            35 => Some(Color::Magenta),
            36 => Some(Color::Cyan),
            37 => Some(Color::White),
            39 => Some(Color::Default),
            _ => None,
        }
    }

    /// The red, green and blue parts to draw the colour with; none for the
    /// default, which leaves the display its own.
    pub fn rgb(self) -> (r: Option<(u8, u8, u8)>)
        ensures
            r == rgb_of(self),
    {
        match self {
            Color::Default => None,
            Color::Black => Some((0, 0, 0)),
            Color::Red => Some((205, 49, 49)),
            Color::Green => Some((13, 188, 121)),
            Color::Yellow => Some((229, 229, 16)),
            Color::Blue => Some((36, 114, 200)),
            Color::Magenta => Some((188, 63, 188)),
            Color::Cyan => Some((17, 168, 205)),
            Color::White => Some((229, 229, 229)),
        }
    }
}

/// A space in the default style.
pub open spec fn blank() -> Cell {
    Cell { ch: ' ', fg: Color::Default, bold: false }
}

impl Default for Cell {
    fn default() -> (r: Self)
        ensures
            r == blank(),
    {
        Cell { ch: ' ', fg: Color::Default, bold: false }
    }
}

// ---------------------------------------------------------------------------
// The screen as a mathematical value
// ---------------------------------------------------------------------------

/// What a screen shows and where the next character goes.
pub struct Screen {
    /// The rows from the top, each from the left.
    pub grid: Seq<Seq<Cell>>,
    pub cols: nat,
    pub rows: nat,
    /// The row of the cursor.
    pub row: int,
    /// The column of the cursor; one past the last where a line is full.
    pub col: int,
    /// The style of the next character.
    pub fg: Color,
    pub bold: bool,
    /// Something has changed since it was last asked.
    pub dirty: bool,
}

/// A row of blanks.
pub open spec fn blank_row(cols: nat) -> Seq<Cell> {
    Seq::new(cols, |i: int| blank())
}

/// The number nearest to `x` from 0 to `max`.
pub open spec fn clamped(x: int, max: int) -> int {
    if x < 0 {
        0
    } else if x > max {
        max
    } else {
        x
    }
}

/// `row` with blanks from column `from` up to, but not with, column `to`.
pub open spec fn row_erased(row: Seq<Cell>, from: int, to: int) -> Seq<Cell> {
    Seq::new(row.len(), |c: int| if from <= c < to { blank() } else { row[c] })
}

/// The first number of the `i`th parameter.
pub open spec fn param(params: Seq<Seq<u16>>, i: int) -> Option<u16> {
    if i < params.len() && params[i].len() > 0 {
        Some(params[i][0])
    } else {
        None
    }
}

/// The count that the `i`th parameter gives; one where it gives none, or zero.
pub open spec fn count(params: Seq<Seq<u16>>, i: int) -> int {
    match param(params, i) {
        Some(v) => if v == 0 { 1 } else { v as int },
        None => 1,
    }
}

/// The mode that the first parameter gives; zero where it gives none.
pub open spec fn mode(params: Seq<Seq<u16>>) -> u16 {
    match param(params, 0) {
        Some(v) => v,
        None => 0,
    }
}

/// The numbers of all parameters one after the other.
pub open spec fn codes_of(params: Seq<Seq<u16>>) -> Seq<u16>
    decreases params.len(),
{
    if params.len() == 0 {
        seq![]
    } else {
        codes_of(params.drop_last()) + params.last()
    }
}

impl Screen {
    /// The grid has the stated size, at least one cell, and the cursor is in
    /// it or right behind a full line.
    pub open spec fn ok(self) -> bool {
        &&& 1 <= self.cols <= 0xffff
        &&& 1 <= self.rows <= 0xffff
        &&& self.grid.len() == self.rows
        &&& forall|r: int| 0 <= r < self.rows ==> (#[trigger] self.grid[r]).len() == self.cols
        &&& 0 <= self.row < self.rows
        &&& 0 <= self.col <= self.cols
    }

    /// An empty screen; each side has at least one cell.
    pub open spec fn empty(cols: u16, rows: u16) -> Screen {
        let c: nat = if cols == 0 { 1 } else { cols as nat };
        let r: nat = if rows == 0 { 1 } else { rows as nat };
        Screen {
            grid: Seq::new(r, |i: int| blank_row(c)),
            cols: c,
            rows: r,
            row: 0,
            col: 0,
            fg: Color::Default,
            bold: false,
            dirty: false,
        }
    }

    /// The screen in another size: what fits stays where it is, seen from the
    /// top left, the rest is blank, and the cursor is brought inside.
    pub open spec fn resized(self, cols: u16, rows: u16) -> Screen {
        let c: nat = if cols == 0 { 1 } else { cols as nat };
        let r: nat = if rows == 0 { 1 } else { rows as nat };
        Screen {
            grid: Seq::new(
                r,
                |i: int| Seq::new(c, |j: int| if i < self.rows && j < self.cols { self.grid[i][j] } else { blank() }),
            ),
            cols: c,
            rows: r,
            row: clamped(self.row, r - 1),
            col: clamped(self.col, c - 1),
            dirty: true,
            ..self
        }
    }

    /// The cursor one row down; at the bottom everything moves up by a row.
    pub open spec fn line_fed(self) -> Screen {
        if self.row + 1 >= self.rows {
            Screen { grid: self.grid.skip(1).push(blank_row(self.cols)), dirty: true, ..self }
        } else {
            Screen { row: self.row + 1, dirty: true, ..self }
        }
    }

    /// A character at the cursor, in the current style, and the cursor behind
    /// it; a full line goes over to the next one first.
    pub open spec fn printed(self, ch: char) -> Screen {
        let s = if self.col >= self.cols { (Screen { col: 0, ..self }).line_fed() } else { self };
        let cell = Cell { ch: ch, fg: s.fg, bold: s.bold };
        Screen { grid: s.grid.update(s.row, s.grid[s.row].update(s.col, cell)), col: s.col + 1, dirty: true, ..s }
    }

    /// A control character obeyed: line feed, carriage return and backspace.
    pub open spec fn executed(self, byte: u8) -> Screen {
        if byte == 10 {
            self.line_fed()
        } else if byte == 13 {
            Screen { col: 0, ..self }
        } else if byte == 8 && self.col > 0 {
            Screen { col: self.col - 1, ..self }
        } else {
            self
        }
    }

    /// The cursor moved, but not out of the grid.
    pub open spec fn moved(self, down: int, right: int) -> Screen {
        Screen {
            row: clamped(self.row + down, self.rows - 1),
            col: clamped(self.col + right, self.cols - 1),
            ..self
        }
    }

    /// The cursor at a row and column, or as near as the grid allows.
    pub open spec fn placed(self, row: int, col: int) -> Screen {
        Screen { row: clamped(row, self.rows - 1), col: clamped(col, self.cols - 1), ..self }
    }

    /// The line of the cursor erased: from the cursor on, up to it and with
    /// it, or the whole.
    pub open spec fn line_erased(self, mode: u16) -> Screen {
        let row = self.grid[self.row];
        let erased = if mode == 0 {
            row_erased(row, self.col, self.cols as int)
        } else if mode == 1 {
            row_erased(row, 0, self.col + 1)
        } else if mode == 2 {
            row_erased(row, 0, self.cols as int)
        } else {
            row
        };
        Screen { grid: self.grid.update(self.row, erased), dirty: true, ..self }
    }

    /// The screen erased: from the cursor on, up to it and with it, or the
    /// whole, which also takes the cursor to the top left.
    pub open spec fn erased(self, mode: u16) -> Screen {
        if mode == 0 {
            let s = self.line_erased(0);
            Screen {
                grid: Seq::new(self.rows, |r: int| if r > self.row { blank_row(self.cols) } else { s.grid[r] }),
                ..s
            }
        } else if mode == 1 {
            let s = self.line_erased(1);
            Screen {
                grid: Seq::new(self.rows, |r: int| if r < self.row { blank_row(self.cols) } else { s.grid[r] }),
                ..s
            }
        } else if mode == 2 || mode == 3 {
            Screen {
                grid: Seq::new(self.rows, |r: int| blank_row(self.cols)),
                row: 0,
                col: 0,
                dirty: true,
                ..self
            }
        } else {
            Screen { dirty: true, ..self }
        }
    }

    /// One graphic rendition code obeyed: reset, bold on and off, and colours.
    pub open spec fn styled(self, code: u16) -> Screen {
        if code == 0 {
            Screen { fg: Color::Default, bold: false, ..self }
        } else if code == 1 {
            Screen { bold: true, ..self }
        } else if code == 22 {
            Screen { bold: false, ..self }
        } else {
            match color_of(code) {
                Some(color) => Screen { fg: color, ..self },
                None => self,
            }
        }
    }

    /// Graphic rendition codes obeyed one after the other.
    pub open spec fn styled_all(self, codes: Seq<u16>) -> Screen
        decreases codes.len(),
    {
        if codes.len() == 0 {
            self
        } else {
            self.styled_all(codes.drop_last()).styled(codes.last())
        }
    }

    /// A control sequence obeyed.
    pub open spec fn controlled(self, params: Seq<Seq<u16>>, action: char) -> Screen {
        if action == 'A' {
            self.moved(-count(params, 0), 0)
        } else if action == 'B' {
            self.moved(count(params, 0), 0)
        } else if action == 'C' {
            self.moved(0, count(params, 0))
        } else if action == 'D' {
            self.moved(0, -count(params, 0))
        } else if action == 'H' || action == 'f' {
            self.placed(count(params, 0) - 1, count(params, 1) - 1)
        } else if action == 'J' {
            self.erased(mode(params))
        } else if action == 'K' {
            self.line_erased(mode(params))
        } else if action == 'm' {
            if codes_of(params).len() == 0 {
                self.styled(0)
            } else {
                self.styled_all(codes_of(params))
            }
        } else {
            self
        }
    }

    /// An operation performed.
    pub open spec fn performed(self, op: vt::TermOp) -> Screen {
        match op {
            vt::TermOp::Print(ch) => self.printed(ch),
            vt::TermOp::Execute(byte) => self.executed(byte),
            vt::TermOp::Csi { params, action } => self.controlled(params, action),
        }
    }

    /// Operations performed one after the other.
    pub open spec fn performed_all(self, ops: Seq<vt::TermOp>) -> Screen
        decreases ops.len(),
    {
        if ops.len() == 0 {
            self
        } else {
            self.performed_all(ops.drop_last()).performed(ops.last())
        }
    }

    /// Bytes fed one after the other, after the parser has been given `seen`.
    pub open spec fn fed(self, seen: Seq<u8>, bytes: Seq<u8>) -> Screen
        decreases bytes.len(),
    {
        if bytes.len() == 0 {
            self
        } else {
            let before = bytes.drop_last();
            self.fed(seen, before).performed_all(vt::dispatched(seen + before, bytes.last()))
        }
    }

    /// Plain text written: each byte shown, or obeyed if it is a control
    /// character.
    pub open spec fn written(self, bytes: Seq<u8>) -> Screen
        decreases bytes.len(),
    {
        if bytes.len() == 0 {
            self
        } else {
            self.written(bytes.drop_last()).performed(vt::text_op(bytes.last()))
        }
    }
}

// ---------------------------------------------------------------------------
// The screen as it is held
// ---------------------------------------------------------------------------

/// Cells in one row after the other, read as a grid.
pub open spec fn grid_of(cells: Seq<Cell>, cols: nat, rows: nat) -> Seq<Seq<Cell>> {
    Seq::new(rows, |r: int| Seq::new(cols, |c: int| cells[r * cols + c]))
}

proof fn lemma_index(r: int, c: int, rows: int, cols: int)
    by (nonlinear_arith)
    requires
        0 <= r < rows,
        0 <= c < cols,
    ensures
        0 <= r * cols + c < rows * cols,
        r * cols + cols <= rows * cols,
        0 <= r * cols,
{
}

proof fn lemma_index_unique(r: int, c: int, r2: int, c2: int, cols: int)
    by (nonlinear_arith)
    requires
        0 <= c < cols,
        0 <= c2 < cols,
        r * cols + c == r2 * cols + c2,
    ensures
        r == r2,
        c == c2,
{
}

proof fn lemma_grid_update(cells: Seq<Cell>, cols: nat, rows: nat, r: int, c: int, x: Cell)
    requires
        cells.len() == rows * cols,
        0 <= r < rows,
        0 <= c < cols,
    ensures
        0 <= r * cols + c < cells.len(),
        grid_of(cells.update(r * cols + c, x), cols, rows) == grid_of(cells, cols, rows).update(
            r,
            grid_of(cells, cols, rows)[r].update(c, x),
        ),
{
    lemma_index(r, c, rows as int, cols as int);
    let a = grid_of(cells.update(r * cols + c, x), cols, rows);
    let g = grid_of(cells, cols, rows);
    let b = g.update(r, g[r].update(c, x));
    assert forall|i: int| 0 <= i < rows implies a[i] == b[i] by {
        assert forall|j: int| 0 <= j < cols implies a[i][j] == b[i][j] by {
            lemma_index(i, j, rows as int, cols as int);
            if i * cols + j == r * cols + c {
                lemma_index_unique(i, j, r, c, cols as int);
            }
        }
        assert(a[i] =~= b[i]);
    }
    assert(a =~= b);
}

/// The parts of a row of cells that have one style each: the text of the part,
/// its colour and its boldness.
pub open spec fn runs_of(row: Seq<Cell>) -> Seq<(Seq<char>, Color, bool)>
    decreases row.len(),
{
    if row.len() == 0 {
        seq![]
    } else {
        let before = runs_of(row.drop_last());
        let cell = row.last();
        if before.len() > 0 && before.last().1 == cell.fg && before.last().2 == cell.bold {
            before.drop_last().push((before.last().0.push(cell.ch), cell.fg, cell.bold))
        } else {
            before.push((seq![cell.ch], cell.fg, cell.bold))
        }
    }
}

/// The contents of each of a list of runs.
pub open spec fn run_views(runs: Seq<(String, Color, bool)>) -> Seq<(Seq<char>, Color, bool)> {
    runs.map_values(|r: (String, Color, bool)| (r.0@, r.1, r.2))
}

/// A grid of styled cells of a fixed size with a cursor, fed with the bytes
/// that a terminal program writes.
pub struct ScreenBuffer {
    cols: usize,
    rows: usize,
    cells: Vec<Cell>,
    cursor_row: usize,
    cursor_col: usize,
    cur_fg: Color,
    cur_bold: bool,
    parser: Parser,
    dirty: bool,
}

impl View for ScreenBuffer {
    type V = Screen;

    closed spec fn view(&self) -> Screen {
        Screen {
            grid: grid_of(self.cells@, self.cols as nat, self.rows as nat),
            cols: self.cols as nat,
            rows: self.rows as nat,
            row: self.cursor_row as int,
            col: self.cursor_col as int,
            fg: self.cur_fg,
            bold: self.cur_bold,
            dirty: self.dirty,
        }
    }
}

impl ScreenBuffer {
    /// Every screen buffer that its methods make satisfies this.
    pub closed spec fn wf(&self) -> bool {
        &&& self@.ok()
        &&& self.cells@.len() == self.rows * self.cols
    }

    /// What a screen buffer shows is a well-formed screen.
    pub proof fn lemma_wf(&self)
        requires
            self.wf(),
        ensures
            self@.ok(),
    {
    }

    /// The bytes that the buffer has been fed with.
    pub closed spec fn input(&self) -> Seq<u8> {
        vt::consumed(self.parser)
    }

    /// An empty screen of `cols` by `rows` cells; each side has at least one.
    pub fn new(cols: u16, rows: u16) -> (r: Self)
        ensures
            r.wf(),
            r@ == Screen::empty(cols, rows),
            r.input() == Seq::<u8>::empty(),
    {
        let cols: usize = if cols == 0 { 1 } else { cols as usize };
        let rows: usize = if rows == 0 { 1 } else { rows as usize };
        proof {
            lemma_size(rows as int, cols as int);
        }
        let cells: Vec<Cell> = blank_cells(rows * cols);
        let r = ScreenBuffer {
            cols: cols,
            rows: rows,
            cells: cells,
            cursor_row: 0,
            cursor_col: 0,
            cur_fg: Color::Default,
            cur_bold: false,
            parser: vt::new_parser(),
            dirty: false,
        };
        proof {
            lemma_blank_grid(cells@, cols as nat, rows as nat);
        }
        r
    }

    /// The number of columns.
    pub fn cols(&self) -> (r: usize)
        ensures
            r == self@.cols,
    {
        self.cols
    }

    /// The number of rows.
    pub fn rows(&self) -> (r: usize)
        ensures
            r == self@.rows,
    {
        self.rows
    }

    /// Tells whether anything has changed since this was last asked.
    pub fn take_dirty(&mut self) -> (r: bool)
        ensures
            r == old(self)@.dirty,
            final(self)@ == (Screen { dirty: false, ..old(self)@ }),
            final(self).input() == old(self).input(),
            old(self).wf() ==> final(self).wf(),
    {
        let r = self.dirty;
        self.dirty = false;
        r
    }

    fn newline(&mut self)
        requires
            old(self).wf(),
        ensures
            final(self).wf(),
            final(self)@ == old(self)@.line_fed(),
            final(self).input() == old(self).input(),
    {
        let ghost before = self@;
        if self.cursor_row + 1 >= self.rows {
            proof {
                lemma_size(self.rows as int, self.cols as int);
                lemma_index(0, 0, self.rows as int, self.cols as int);
            }
            let ghost old_cells = self.cells@;
            let mut kept: Vec<Cell> = self.cells.split_off(self.cols);
            let ghost rest = kept@;
            kept.resize(self.rows * self.cols, Cell { ch: ' ', fg: Color::Default, bold: false });
            assert(forall|k: int| 0 <= k < rest.len() ==> kept@[k] == rest[k]) by {
                assert(kept@.subrange(0, rest.len() as int) == rest);
                assert forall|k: int| 0 <= k < rest.len() implies kept@[k] == rest[k] by {
                    assert(kept@.subrange(0, rest.len() as int)[k] == kept@[k]);
                }
            }
            self.cells = kept;
            proof {
                assert forall|k: int| 0 <= k < old_cells.len() - self.cols implies self.cells@[k] == old_cells[k
                    + self.cols] by {
                    assert(rest[k] == old_cells[k + self.cols]);
                }
                lemma_scrolled(old_cells, self.cells@, self.cols as nat, self.rows as nat);
            }
        } else {
            self.cursor_row += 1;
        }
        self.dirty = true;
    }

    fn put_char(&mut self, ch: char)
        requires
            old(self).wf(),
        ensures
            final(self).wf(),
            final(self)@ == old(self)@.printed(ch),
            final(self).input() == old(self).input(),
    {
        if self.cursor_col >= self.cols {
            self.cursor_col = 0;
            self.newline();
        }
        let cell = Cell { ch: ch, fg: self.cur_fg, bold: self.cur_bold };
        self.set_cell(self.cursor_row, self.cursor_col, cell);
        self.cursor_col += 1;
        self.dirty = true;
    }

    fn set_cell(&mut self, row: usize, col: usize, cell: Cell)
        requires
            old(self).wf(),
            row < old(self)@.rows,
            col < old(self)@.cols,
        ensures
            final(self).wf(),
            final(self)@ == (Screen {
                grid: old(self)@.grid.update(row as int, old(self)@.grid[row as int].update(col as int, cell)),
                ..old(self)@
            }),
            final(self).input() == old(self).input(),
    {
        proof {
            lemma_size(self.rows as int, self.cols as int);
            lemma_index(row as int, col as int, self.rows as int, self.cols as int);
            lemma_grid_update(self.cells@, self.cols as nat, self.rows as nat, row as int, col as int, cell);
        }
        let idx: usize = row * self.cols + col;
        self.cells[idx] = cell;
    }

    fn carriage_return(&mut self)
        requires
            old(self).wf(),
        ensures
            final(self).wf(),
            final(self)@ == (Screen { col: 0, ..old(self)@ }),
            final(self).input() == old(self).input(),
    {
        self.cursor_col = 0;
    }

    fn backspace(&mut self)
        requires
            old(self).wf(),
        ensures
            final(self).wf(),
            final(self)@ == (Screen {
                col: if old(self)@.col > 0 { old(self)@.col - 1 } else { 0 },
                ..old(self)@
            }),
            final(self).input() == old(self).input(),
    {
        if self.cursor_col > 0 {
            self.cursor_col -= 1;
        }
    }

    fn move_cursor(&mut self, row_delta: i32, col_delta: i32)
        requires
            old(self).wf(),
            -0xffff <= row_delta <= 0xffff,
            -0xffff <= col_delta <= 0xffff,
        ensures
            final(self).wf(),
            final(self)@ == old(self)@.moved(row_delta as int, col_delta as int),
            final(self).input() == old(self).input(),
    {
        let new_row: i32 = clamp(self.cursor_row as i32 + row_delta, self.rows as i32 - 1);
        let new_col: i32 = clamp(self.cursor_col as i32 + col_delta, self.cols as i32 - 1);
        self.cursor_row = new_row as usize;
        self.cursor_col = new_col as usize;
    }

    fn set_cursor(&mut self, row: usize, col: usize)
        requires
            old(self).wf(),
        ensures
            final(self).wf(),
            final(self)@ == old(self)@.placed(row as int, col as int),
            final(self).input() == old(self).input(),
    {
        self.cursor_row = if row < self.rows { row } else { self.rows - 1 };
        self.cursor_col = if col < self.cols { col } else { self.cols - 1 };
    }

    /// Blanks the cells of one row from column `from` up to `to`.
    fn blank_part(&mut self, row: usize, from: usize, to: usize)
        requires
            old(self).wf(),
            row < old(self)@.rows,
        ensures
            final(self).wf(),
            final(self)@ == (Screen {
                grid: old(self)@.grid.update(
                    row as int,
                    row_erased(old(self)@.grid[row as int], from as int, to as int),
                ),
                ..old(self)@
            }),
            final(self).input() == old(self).input(),
    {
        let ghost before = self@;
        let end: usize = if to < self.cols { to } else { self.cols };
        let mut c: usize = from;
        let ghost r = row as int;
        assert(row_erased(before.grid[r], from as int, c as int) =~= before.grid[r]);
        assert(before.grid.update(r, before.grid[r]) =~= before.grid);
        while c < end
            invariant
                self.wf(),
                r == row,
                before.ok(),
                row < before.rows,
                from <= c,
                end <= before.cols,
                from < end ==> c <= end,
                from >= end ==> c == from,
                self.input() == old(self).input(),
                self@ == (Screen {
                    grid: before.grid.update(r, row_erased(before.grid[r], from as int, c as int)),
                    ..before
                }),
            decreases end - c,
        {
            let blank_cell = Cell { ch: ' ', fg: Color::Default, bold: false };
            self.set_cell(row, c, blank_cell);
            assert(row_erased(before.grid[r], from as int, c + 1) =~= row_erased(
                before.grid[r],
                from as int,
                c as int,
            ).update(c as int, blank()));
            assert(before.grid.update(r, row_erased(before.grid[r], from as int, c as int)).update(
                r,
                row_erased(before.grid[r], from as int, c + 1),
            ) =~= before.grid.update(r, row_erased(before.grid[r], from as int, c + 1)));
            c += 1;
        }
        assert(before.grid[r].len() == before.cols);
        assert(row_erased(before.grid[r], from as int, c as int) =~= row_erased(
            before.grid[r],
            from as int,
            to as int,
        ));
    }

    fn erase_line(&mut self, mode: u16)
        requires
            old(self).wf(),
        ensures
            final(self).wf(),
            final(self)@ == old(self)@.line_erased(mode),
            final(self).input() == old(self).input(),
    {
        let row: usize = self.cursor_row;
        if mode == 0 {
            self.blank_part(row, self.cursor_col, self.cols);
        } else if mode == 1 {
            self.blank_part(row, 0, self.cursor_col + 1);
        } else if mode == 2 {
            self.blank_part(row, 0, self.cols);
        } else {
            assert(self@.grid.update(self@.row, self@.grid[self@.row]) =~= self@.grid);
        }
        self.dirty = true;
    }

    /// Blanks the rows from `from` up to, but not with, `to`.
    fn blank_rows(&mut self, from: usize, to: usize)
        requires
            old(self).wf(),
            to <= old(self)@.rows,
        ensures
            final(self).wf(),
            final(self)@ == (Screen {
                grid: Seq::new(
                    old(self)@.rows,
                    |r: int| if from <= r < to { blank_row(old(self)@.cols) } else { old(self)@.grid[r] },
                ),
                ..old(self)@
            }),
            final(self).input() == old(self).input(),
    {
        let ghost before = self@;
        let mut r: usize = from;
        let ghost g0 = Seq::new(
            before.rows,
            |k: int| if from <= k < r { blank_row(before.cols) } else { before.grid[k] },
        );
        assert(g0 =~= before.grid);
        while r < to
            invariant
                self.wf(),
                before.ok(),
                to <= before.rows,
                from <= r,
                from < to ==> r <= to,
                from >= to ==> r == from,
                self.input() == old(self).input(),
                self@ == (Screen {
                    grid: Seq::new(
                        before.rows,
                        |k: int| if from <= k < r { blank_row(before.cols) } else { before.grid[k] },
                    ),
                    ..before
                }),
            decreases to - r,
        {
            let ghost g = self@.grid;
            assert(g[r as int] == before.grid[r as int]);
            self.blank_part(r, 0, self.cols);
            assert(row_erased(g[r as int], 0, before.cols as int) =~= blank_row(before.cols));
            assert(self@.grid =~= Seq::new(
                before.rows,
                |k: int| if from <= k < r + 1 { blank_row(before.cols) } else { before.grid[k] },
            ));
            r += 1;
        }
        assert(self@.grid =~= Seq::new(
            before.rows,
            |k: int| if from <= k < to { blank_row(before.cols) } else { before.grid[k] },
        ));
    }

    fn erase_screen(&mut self, mode: u16)
        requires
            old(self).wf(),
        ensures
            final(self).wf(),
            final(self)@ == old(self)@.erased(mode),
            final(self).input() == old(self).input(),
    {
        let ghost before = self@;
        if mode == 0 {
            self.erase_line(0);
            let from: usize = self.cursor_row + 1;
            self.blank_rows(from, self.rows);
            assert(self@.grid =~= before.erased(0).grid);
        } else if mode == 1 {
            self.erase_line(1);
            self.blank_rows(0, self.cursor_row);
            assert(self@.grid =~= before.erased(1).grid);
        } else if mode == 2 || mode == 3 {
            self.blank_rows(0, self.rows);
            self.cursor_row = 0;
            self.cursor_col = 0;
            assert(self@.grid =~= before.erased(mode).grid);
        }
        self.dirty = true;
    }

    fn apply_sgr(&mut self, params: &Vec<Vec<u16>>)
        requires
            old(self).wf(),
        ensures
            final(self).wf(),
            final(self)@ == old(self)@.controlled(vt::param_views(params@), 'm'),
            final(self).input() == old(self).input(),
    {
        let ghost v = vt::param_views(params@);
        let ghost before = self@;
        let mut codes: Vec<u16> = Vec::new();
        let mut k: usize = 0;
        while k < params.len()
            invariant
                v == vt::param_views(params@),
                k <= params@.len(),
                codes@ == codes_of(v.take(k as int)),
            decreases params@.len() - k,
        {
            let p: &Vec<u16> = &params[k];
            let ghost so_far = codes@;
            let mut j: usize = 0;
            assert(p@.take(0) =~= seq![]);
            while j < p.len()
                invariant
                    j <= p@.len(),
                    codes@ == so_far + p@.take(j as int),
                decreases p@.len() - j,
            {
                codes.push(p[j]);
                j += 1;
                assert(p@.take(j as int) =~= p@.take(j - 1).push(p@[j - 1]));
            }
            assert(p@.take(j as int) =~= p@);
            assert(v.take(k + 1).drop_last() =~= v.take(k as int));
            assert(v.take(k + 1).last() == p@);
            k += 1;
        }
        assert(v.take(k as int) =~= v);
        if codes.len() == 0 {
            self.cur_fg = Color::Default;
            self.cur_bold = false;
            return;
        }
        let mut i: usize = 0;
        assert(before.styled_all(codes@.take(0)) == before);
        while i < codes.len()
            invariant
                self.wf(),
                i <= codes@.len(),
                self@ == before.styled_all(codes@.take(i as int)),
                self.input() == old(self).input(),
            decreases codes@.len() - i,
        {
            assert(codes@.take(i + 1).drop_last() =~= codes@.take(i as int));
            let code: u16 = codes[i];
            if code == 0 {
                self.cur_fg = Color::Default;
                self.cur_bold = false;
            } else if code == 1 {
                self.cur_bold = true;
            } else if code == 22 {
                self.cur_bold = false;
            } else {
                match Color::from_sgr(code) {
                    Some(color) => {
                        self.cur_fg = color;
                    },
                    None => {},
                }
            }
            i += 1;
        }
        assert(codes@.take(i as int) =~= codes@);
    }

    fn execute(&mut self, byte: u8)
        requires
            old(self).wf(),
        ensures
            final(self).wf(),
            final(self)@ == old(self)@.executed(byte),
            final(self).input() == old(self).input(),
    {
        if byte == 10 {
            self.newline();
        } else if byte == 13 {
            self.carriage_return();
        } else if byte == 8 {
            self.backspace();
        }
    }

    fn csi_dispatch(&mut self, params: &Vec<Vec<u16>>, action: char)
        requires
            old(self).wf(),
        ensures
            final(self).wf(),
            final(self)@ == old(self)@.controlled(vt::param_views(params@), action),
            final(self).input() == old(self).input(),
    {
        match action {
            'A' => self.move_cursor(-nth(params, 0), 0),
            'B' => self.move_cursor(nth(params, 0), 0),
            'C' => self.move_cursor(0, nth(params, 0)),
            'D' => self.move_cursor(0, -nth(params, 0)),
            'H' | 'f' => {
                let row: usize = nth(params, 0) as usize - 1;
                let col: usize = nth(params, 1) as usize - 1;
                self.set_cursor(row, col);
            },
            'J' => {
                let m: u16 = first_mode(params);
                self.erase_screen(m);
            },
            'K' => {
                let m: u16 = first_mode(params);
                self.erase_line(m);
            },
            'm' => self.apply_sgr(params),
            _ => {},
        }
    }

    /// Performs one operation that the parser asks for.
    pub fn perform(&mut self, event: &vt::TermEvent)
        requires
            old(self).wf(),
        ensures
            final(self).wf(),
            final(self)@ == old(self)@.performed(event@),
            final(self).input() == old(self).input(),
    {
        match event {
            vt::TermEvent::Print(c) => self.put_char(*c),
            vt::TermEvent::Execute(byte) => self.execute(*byte),
            vt::TermEvent::Csi { params, action } => self.csi_dispatch(params, *action),
        }
    }

    fn perform_all(&mut self, events: &Vec<vt::TermEvent>)
        requires
            old(self).wf(),
        ensures
            final(self).wf(),
            final(self)@ == old(self)@.performed_all(vt::event_views(events@)),
            final(self).input() == old(self).input(),
    {
        let ghost before = self@;
        let ghost ops = vt::event_views(events@);
        let mut i: usize = 0;
        assert(before.performed_all(ops.take(0)) == before);
        while i < events.len()
            invariant
                self.wf(),
                ops == vt::event_views(events@),
                i <= events@.len(),
                self@ == before.performed_all(ops.take(i as int)),
                self.input() == old(self).input(),
            decreases events@.len() - i,
        {
            assert(ops.take(i + 1).drop_last() =~= ops.take(i as int));
            self.perform(&events[i]);
            i += 1;
        }
        assert(ops.take(i as int) =~= ops);
    }

    /// Feeds bytes that a program has written to the screen, wherever they
    /// were cut off before. ASCII text without control sequences is written
    /// as it stands.
    pub fn feed(&mut self, bytes: &[u8])
        requires
            old(self).wf(),
        ensures
            final(self).wf(),
            final(self)@ == old(self)@.fed(old(self).input(), bytes@),
            final(self).input() == old(self).input() + bytes@,
            vt::text_only(final(self).input()) ==> final(self)@ == old(self)@.written(bytes@),
    {
        let ghost before = self@;
        let ghost seen = self.input();
        let mut i: usize = 0;
        assert(seen + bytes@.take(0) =~= seen);
        assert(before.fed(seen, bytes@.take(0)) == before);
        assert(before.written(bytes@.take(0)) == before);
        while i < bytes.len()
            invariant
                self.wf(),
                i <= bytes@.len(),
                self.input() == seen + bytes@.take(i as int),
                self@ == before.fed(seen, bytes@.take(i as int)),
                vt::text_only(self.input()) ==> self@ == before.written(bytes@.take(i as int)),
            decreases bytes@.len() - i,
        {
            let byte: u8 = bytes[i];
            let ghost prior = self.input();
            let ghost now = bytes@.take(i + 1);
            assert(now.drop_last() =~= bytes@.take(i as int));
            assert(now.last() == byte);
            let mut sink = vt::EventSink { events: Vec::new() };
            assert(vt::event_views(sink.events@) =~= seq![]);
            vt::advance(&mut self.parser, &mut sink, byte);
            let ghost ops = vt::event_views(sink.events@);
            assert(ops =~= vt::dispatched(prior, byte));
            assert(prior.push(byte) =~= seen + now);
            self.perform_all(&sink.events);
            proof {
                if vt::text_only(self.input()) {
                    assert(vt::text_only(prior)) by {
                        assert forall|k: int| 0 <= k < prior.len() implies #[trigger] prior[k] < 0x80 && prior[k]
                            != 0x1b by {
                            assert(self.input()[k] == prior[k]);
                        }
                    }
                    assert(ops =~= seq![vt::text_op(byte)]);
                    assert(ops.drop_last() =~= seq![]);
                    let s = before.written(bytes@.take(i as int));
                    assert(s.performed_all(ops.drop_last()) == s);
                }
            }
            i += 1;
        }
        assert(bytes@.take(i as int) =~= bytes@);
    }

    /// Changes the size of the grid. What fits stays in place, seen from the
    /// top left; what does not is dropped.
    pub fn resize(&mut self, cols: u16, rows: u16)
        requires
            old(self).wf(),
        ensures
            final(self).wf(),
            final(self)@ == old(self)@.resized(cols, rows),
            final(self).input() == old(self).input(),
    {
        let ghost before = self@;
        let ghost target = before.resized(cols, rows);
        let cols: usize = if cols == 0 { 1 } else { cols as usize };
        let rows: usize = if rows == 0 { 1 } else { rows as usize };
        proof {
            lemma_size(rows as int, cols as int);
            lemma_size(self.rows as int, self.cols as int);
        }
        let mut cells: Vec<Cell> = Vec::with_capacity(rows * cols);
        let mut r: usize = 0;
        while r < rows
            invariant
                self.wf(),
                self@ == before,
                before.ok(),
                1 <= cols <= 0xffff,
                1 <= rows <= 0xffff,
                self.rows * self.cols <= 0xfffe_0001,
                target.cols == cols,
                target.rows == rows,
                target.grid.len() == rows,
                forall|i: int, j: int|
                    0 <= i < rows && 0 <= j < cols ==> #[trigger] target.grid[i][j] == (if i < before.rows && j
                        < before.cols {
                        before.grid[i][j]
                    } else {
                        blank()
                    }),
                r <= rows,
                cells@.len() == r * cols,
                forall|i: int, j: int|
                    0 <= i < r && 0 <= j < cols ==> cells@[i * cols + j] == #[trigger] target.grid[i][j],
            decreases rows - r,
        {
            let mut c: usize = 0;
            while c < cols
                invariant
                    self.wf(),
                    self@ == before,
                    before.ok(),
                    1 <= cols <= 0xffff,
                    1 <= rows <= 0xffff,
                    self.rows * self.cols <= 0xfffe_0001,
                    forall|i: int, j: int|
                        0 <= i < rows && 0 <= j < cols ==> #[trigger] target.grid[i][j] == (if i < before.rows && j
                            < before.cols {
                            before.grid[i][j]
                        } else {
                            blank()
                        }),
                    r < rows,
                    c <= cols,
                    cells@.len() == r * cols + c,
                    forall|i: int, j: int|
                        0 <= i < r && 0 <= j < cols ==> cells@[i * cols + j] == #[trigger] target.grid[i][j],
                    forall|j: int| 0 <= j < c ==> cells@[r * cols + j] == #[trigger] target.grid[r as int][j],
                decreases cols - c,
            {
                let ghost prior = cells@;
                assert(target.grid[r as int][c as int] == (if r < before.rows && c < before.cols {
                    before.grid[r as int][c as int]
                } else {
                    blank()
                }));
                if r < self.rows && c < self.cols {
                    proof {
                        lemma_index(r as int, c as int, self.rows as int, self.cols as int);
                    }
                    cells.push(self.cells[r * self.cols + c]);
                } else {
                    cells.push(Cell { ch: ' ', fg: Color::Default, bold: false });
                }
                proof {
                    assert forall|i: int, j: int| 0 <= i < r && 0 <= j < cols implies cells@[i * cols + j]
                        == #[trigger] target.grid[i][j] by {
                        lemma_index(i, j, r as int, cols as int);
                        assert(prior[i * cols + j] == target.grid[i][j]);
                    }
                    assert forall|j: int| 0 <= j < c + 1 implies cells@[r * cols + j] == #[trigger] target.grid[r as int][j] by {
                        if j < c {
                            assert(prior[r * cols + j] == target.grid[r as int][j]);
                            assert(0 <= r * cols) by (nonlinear_arith);
                        }
                    }
                }
                c += 1;
            }
            assert((r + 1) * cols == r * cols + cols) by (nonlinear_arith);
            r += 1;
        }
        self.cols = cols;
        self.rows = rows;
        self.cells = cells;
        self.cursor_row = if self.cursor_row < rows { self.cursor_row } else { rows - 1 };
        self.cursor_col = if self.cursor_col < cols { self.cursor_col } else { cols - 1 };
        self.dirty = true;
        proof {
            let g = self@.grid;
            assert forall|i: int| 0 <= i < rows implies g[i] == target.grid[i] by {
                assert forall|j: int| 0 <= j < cols implies g[i][j] == target.grid[i][j] by {
                    lemma_index(i, j, rows as int, cols as int);
                }
                assert(g[i] =~= target.grid[i]);
            }
            assert(g =~= target.grid);
        }
    }

    /// What the screen shows, row by row, as runs of cells of one style.
    pub fn rows_as_runs(&self) -> (r: Vec<Vec<(String, Color, bool)>>)
        requires
            self.wf(),
        ensures
            r@.len() == self@.rows,
            forall|i: int| 0 <= i < self@.rows ==> run_views(#[trigger] r@[i]@) == runs_of(self@.grid[i]),
    {
        let mut out: Vec<Vec<(String, Color, bool)>> = Vec::with_capacity(self.rows);
        let mut r: usize = 0;
        proof {
            lemma_size(self.rows as int, self.cols as int);
        }
        while r < self.rows
            invariant
                self.wf(),
                self.rows * self.cols <= 0xfffe_0001,
                r <= self.rows,
                out@.len() == r,
                forall|i: int| 0 <= i < r ==> run_views(#[trigger] out@[i]@) == runs_of(self@.grid[i]),
            decreases self.rows - r,
        {
            let ghost row = self@.grid[r as int];
            let mut runs: Vec<(String, Color, bool)> = Vec::new();
            let mut c: usize = 0;
            assert(run_views(runs@) =~= runs_of(row.take(0)));
            while c < self.cols
                invariant
                    self.wf(),
                    self.rows * self.cols <= 0xfffe_0001,
                    r < self.rows,
                    c <= self.cols,
                    row == self@.grid[r as int],
                    run_views(runs@) == runs_of(row.take(c as int)),
                decreases self.cols - c,
            {
                proof {
                    lemma_index(r as int, c as int, self.rows as int, self.cols as int);
                }
                let cell: Cell = self.cells[r * self.cols + c];
                assert(row.take(c + 1).drop_last() =~= row.take(c as int));
                assert(row.take(c + 1).last() == cell);
                push_cell(&mut runs, cell);
                c += 1;
            }
            assert(row.take(c as int) =~= row);
            out.push(runs);
            r += 1;
        }
        out
    }
}

/// Adds a cell to the runs of the cells before it.
fn push_cell(runs: &mut Vec<(String, Color, bool)>, cell: Cell)
    ensures
        forall|row: Seq<Cell>|
            row.len() > 0 && run_views(old(runs)@) == runs_of(row.drop_last()) && row.last() == cell ==> run_views(
                final(runs)@,
            ) == #[trigger] runs_of(row),
{
    let ghost before = run_views(runs@);
    let n: usize = runs.len();
    if n > 0 && runs[n - 1].1 == cell.fg && runs[n - 1].2 == cell.bold {
        match runs.pop() {
            Some(last) => {
                let mut text = last.0;
                text.push(cell.ch);
                runs.push((text, cell.fg, cell.bold));
                assert(run_views(runs@) =~= before.drop_last().push(
                    (before.last().0.push(cell.ch), cell.fg, cell.bold),
                ));
            },
            None => {},
        }
    } else {
        let mut text = String::new();
        text.push(cell.ch);
        assert(text@ =~= seq![cell.ch]);
        runs.push((text, cell.fg, cell.bold));
        assert(run_views(runs@) =~= before.push((seq![cell.ch], cell.fg, cell.bold)));
    }
}

fn clamp(x: i32, max: i32) -> (r: i32)
    requires
        0 <= max,
    ensures
        r == clamped(x as int, max as int),
        0 <= r <= max,
{
    if x < 0 {
        0
    } else if x > max {
        max
    } else {
        x
    }
}

fn first(params: &Vec<Vec<u16>>, i: usize) -> (r: Option<u16>)
    ensures
        r == param(vt::param_views(params@), i as int),
{
    if i < params.len() && params[i].len() > 0 {
        Some(params[i][0])
    } else {
        None
    }
}

fn nth(params: &Vec<Vec<u16>>, i: usize) -> (r: i32)
    ensures
        r == count(vt::param_views(params@), i as int),
        1 <= r <= 0xffff,
{
    match first(params, i) {
        Some(v) => if v == 0 {
            1
        } else {
            v as i32
        },
        None => 1,
    }
}

fn first_mode(params: &Vec<Vec<u16>>) -> (r: u16)
    ensures
        r == mode(vt::param_views(params@)),
{
    match first(params, 0) {
        Some(v) => v,
        None => 0,
    }
}

fn blank_cells(n: usize) -> (r: Vec<Cell>)
    ensures
        r@ == Seq::new(n as nat, |i: int| blank()),
{
    let r: Vec<Cell> = vec![Cell { ch: ' ', fg: Color::Default, bold: false }; n];
    assert(r@ =~= Seq::new(n as nat, |i: int| blank()));
    r
}

proof fn lemma_size(rows: int, cols: int)
    by (nonlinear_arith)
    requires
        1 <= rows <= 0xffff,
        1 <= cols <= 0xffff,
    ensures
        1 <= rows * cols <= 0xfffe_0001,
{
}

proof fn lemma_blank_grid(cells: Seq<Cell>, cols: nat, rows: nat)
    requires
        cells == Seq::new((rows * cols) as nat, |i: int| blank()),
    ensures
        grid_of(cells, cols, rows) == Seq::new(rows, |r: int| blank_row(cols)),
{
    let a = grid_of(cells, cols, rows);
    let b = Seq::new(rows, |r: int| blank_row(cols));
    assert forall|r: int| 0 <= r < rows implies a[r] == b[r] by {
        assert forall|c: int| 0 <= c < cols implies a[r][c] == b[r][c] by {
            lemma_index(r, c, rows as int, cols as int);
        }
        assert(a[r] =~= b[r]);
    }
    assert(a =~= b);
}

proof fn lemma_scrolled(before: Seq<Cell>, after: Seq<Cell>, cols: nat, rows: nat)
    requires
        cols >= 1,
        rows >= 1,
        before.len() == rows * cols,
        after.len() == rows * cols,
        forall|k: int| 0 <= k < before.len() - cols ==> after[k] == before[k + cols],
        forall|k: int| before.len() - cols <= k < after.len() ==> after[k] == blank(),
    ensures
        grid_of(after, cols, rows) == grid_of(before, cols, rows).skip(1).push(blank_row(cols)),
{
    let a = grid_of(after, cols, rows);
    let b = grid_of(before, cols, rows).skip(1).push(blank_row(cols));
    assert forall|r: int| 0 <= r < rows implies a[r] == b[r] by {
        assert forall|c: int| 0 <= c < cols implies a[r][c] == b[r][c] by {
            lemma_index(r, c, rows as int, cols as int);
            assert((r + 1) * cols == r * cols + cols) by (nonlinear_arith);
            if r < rows - 1 {
                lemma_index(r + 1, c, rows as int, cols as int);
            } else {
                assert(r * cols == rows * cols - cols) by (nonlinear_arith)
                    requires
                        r == rows - 1,
                ;
            }
        }
        assert(a[r] =~= b[r]);
    }
    assert(a =~= b);
}

// ---------------------------------------------------------------------------
// Laws
// ---------------------------------------------------------------------------

/// A character in a style.
pub open spec fn styled_cell(ch: char, fg: Color, bold: bool) -> Cell {
    Cell { ch: ch, fg: fg, bold: bold }
}

/// The cells that a run stands for.
pub open spec fn run_cells(run: (Seq<char>, Color, bool)) -> Seq<Cell> {
    run.0.map_values(|ch: char| styled_cell(ch, run.1, run.2))
}

/// The cells that runs of one style each stand for.
pub open spec fn cells_of(runs: Seq<(Seq<char>, Color, bool)>) -> Seq<Cell>
    decreases runs.len(),
{
    if runs.len() == 0 {
        seq![]
    } else {
        cells_of(runs.drop_last()) + run_cells(runs.last())
    }
}

/// The runs of a row hold its cells and nothing else, none of them is empty,
/// and no two neighbours have the same style.
pub proof fn lemma_runs(row: Seq<Cell>)
    ensures
        cells_of(runs_of(row)) == row,
        forall|i: int| 0 <= i < runs_of(row).len() ==> (#[trigger] runs_of(row)[i]).0.len() > 0,
        forall|i: int|
            0 < i < runs_of(row).len() ==> (runs_of(row)[i - 1].1 != (#[trigger] runs_of(row)[i]).1 || runs_of(
                row,
            )[i - 1].2 != runs_of(row)[i].2),
    decreases row.len(),
{
    if row.len() > 0 {
        lemma_runs(row.drop_last());
        let before = runs_of(row.drop_last());
        let runs = runs_of(row);
        let cell = row.last();
        if before.len() > 0 && before.last().1 == cell.fg && before.last().2 == cell.bold {
            assert(runs.drop_last() =~= before.drop_last());
            assert forall|i: int| 0 < i < runs.len() implies (runs[i - 1].1 != (#[trigger] runs[i]).1 || runs[i
                - 1].2 != runs[i].2) by {
                assert(runs[i].1 == before[i].1 && runs[i].2 == before[i].2);
                assert(runs[i - 1].1 == before[i - 1].1 && runs[i - 1].2 == before[i - 1].2);
            }
        } else {
            assert(runs.drop_last() =~= before);
        }
        assert(row =~= row.drop_last().push(cell));
        let head = cells_of(runs.drop_last());
        let tail = run_cells(runs.last());
        if runs.len() == before.len() {
            assert(tail =~= run_cells(before.last()).push(cell));
        } else {
            assert(tail =~= seq![cell]);
        }
        assert(head + tail =~= row);
    }
}

/// It makes no difference where the bytes are cut: to feed one piece and then
/// the next is to feed them together.
pub proof fn lemma_fed_in_pieces(s: Screen, seen: Seq<u8>, first: Seq<u8>, second: Seq<u8>)
    ensures
        s.fed(seen, first + second) == s.fed(seen, first).fed(seen + first, second),
    decreases second.len(),
{
    let all = first + second;
    if second.len() == 0 {
        assert(all =~= first);
    } else {
        let before = second.drop_last();
        lemma_fed_in_pieces(s, seen, first, before);
        assert(all.drop_last() =~= first + before);
        assert(seen + all.drop_last() =~= (seen + first) + before);
    }
}

/// An operation leaves the size of the grid as it is and keeps the cursor in
/// it.
pub proof fn lemma_performed_ok(s: Screen, op: vt::TermOp)
    requires
        s.ok(),
    ensures
        s.performed(op).ok(),
        s.performed(op).cols == s.cols,
        s.performed(op).rows == s.rows,
{
    match op {
        vt::TermOp::Print(_) => {},
        vt::TermOp::Execute(_) => {},
        vt::TermOp::Csi { params, action } => {
            lemma_styled_all(s, codes_of(params));
        },
    }
}

/// Graphic rendition codes change the style of what comes next and nothing
/// else.
pub proof fn lemma_styled_all(s: Screen, codes: Seq<u16>)
    ensures
        s.styled_all(codes) == (Screen { fg: s.styled_all(codes).fg, bold: s.styled_all(codes).bold, ..s }),
    decreases codes.len(),
{
    if codes.len() > 0 {
        lemma_styled_all(s, codes.drop_last());
    }
}

/// Whatever follows it, a screen keeps its size, and its cursor stays in it.
pub proof fn lemma_fed_ok(s: Screen, seen: Seq<u8>, bytes: Seq<u8>)
    requires
        s.ok(),
    ensures
        s.fed(seen, bytes).ok(),
        s.fed(seen, bytes).cols == s.cols,
        s.fed(seen, bytes).rows == s.rows,
    decreases bytes.len(),
{
    if bytes.len() > 0 {
        let before = bytes.drop_last();
        lemma_fed_ok(s, seen, before);
        lemma_performed_all_ok(s.fed(seen, before), vt::dispatched(seen + before, bytes.last()));
    }
}

proof fn lemma_performed_all_ok(s: Screen, ops: Seq<vt::TermOp>)
    requires
        s.ok(),
    ensures
        s.performed_all(ops).ok(),
        s.performed_all(ops).cols == s.cols,
        s.performed_all(ops).rows == s.rows,
    decreases ops.len(),
{
    if ops.len() > 0 {
        lemma_performed_all_ok(s, ops.drop_last());
        lemma_performed_ok(s.performed_all(ops.drop_last()), ops.last());
    }
}

/// A character goes to the cursor, in the current style, and the cursor behind
/// it. Where the line is full it goes to the first column of the next one, and
/// at the bottom every row moves up by one and leaves a blank row. No other cell
/// changes.
pub proof fn lemma_printed(s: Screen, ch: char, r: int, c: int)
    requires
        s.ok(),
        0 <= r < s.rows,
        0 <= c < s.cols,
    ensures
        ({
            let after = s.performed(vt::TermOp::Print(ch));
            let full = s.col == s.cols;
            let scrolls = full && s.row == s.rows - 1;
            let row = if full && !scrolls {
                s.row + 1
            } else {
                s.row
            };
            let col = if full {
                0
            } else {
                s.col
            };
            &&& after.row == row
            &&& after.col == col + 1
            &&& after.fg == s.fg && after.bold == s.bold && after.dirty
            &&& r == row && c == col ==> after.grid[r][c] == (Cell { ch: ch, fg: s.fg, bold: s.bold })
            &&& !(r == row && c == col) && !scrolls ==> after.grid[r][c] == s.grid[r][c]
            &&& !(r == row && c == col) && scrolls && r < s.rows - 1 ==> after.grid[r][c] == s.grid[r + 1][c]
            &&& !(r == row && c == col) && scrolls && r == s.rows - 1 ==> after.grid[r][c] == (Cell {
                ch: ' ',
                fg: Color::Default,
                bold: false,
            })
        }),
{
}

/// A line feed takes the cursor down, or, at the bottom, every row up, and
/// leaves its column. A carriage return takes it to the first column, and a
/// backspace one column back, unless it is there. Nothing else is obeyed, and
/// the style stays.
pub proof fn lemma_control(s: Screen, byte: u8, r: int, c: int)
    requires
        s.ok(),
        0 <= r < s.rows,
        0 <= c < s.cols,
    ensures
        ({
            let after = s.performed(vt::TermOp::Execute(byte));
            let scrolls = byte == 10 && s.row == s.rows - 1;
            &&& after.row == (if byte == 10 && !scrolls {
                s.row + 1
            } else {
                s.row
            })
            &&& after.col == (if byte == 13 {
                0
            } else if byte == 8 && s.col > 0 {
                s.col - 1
            } else {
                s.col
            })
            &&& after.fg == s.fg && after.bold == s.bold
            &&& byte == 10 ==> after.dirty
            &&& byte != 10 ==> after.dirty == s.dirty
            &&& !scrolls ==> after.grid == s.grid
            &&& scrolls && r < s.rows - 1 ==> after.grid[r] == s.grid[r + 1]
            &&& scrolls && r == s.rows - 1 ==> after.grid[r][c] == (Cell { ch: ' ', fg: Color::Default, bold: false })
        }),
{
}

/// The count of a control sequence is its parameter, and one where there is
/// none or it is zero.
pub proof fn lemma_count(params: Seq<Seq<u16>>, i: int)
    requires
        0 <= i,
    ensures
        count(params, i) == if i < params.len() && params[i].len() > 0 && params[i][0] > 0 {
            params[i][0] as int
        } else {
            1
        },
        mode(params) == if params.len() > 0 && params[0].len() > 0 {
            params[0][0]
        } else {
            0
        },
{
}

/// The four sequences that move the cursor move it up, down, right and left by
/// their count, and no further than to the edge; the two that place it place it
/// at a row and a column, counted from one, or as near as can be. They change
/// nothing else.
pub proof fn lemma_cursor(s: Screen, params: Seq<Seq<u16>>, action: char)
    requires
        s.ok(),
        action == 'A' || action == 'B' || action == 'C' || action == 'D' || action == 'H' || action == 'f',
    ensures
        ({
            let after = s.performed(vt::TermOp::Csi { params: params, action: action });
            let n = count(params, 0);
            let m = count(params, 1);
            let col = if s.col == s.cols {
                s.cols - 1
            } else {
                s.col
            };
            &&& action == 'A' ==> after.col == col && after.row == if s.row > n {
                s.row - n
            } else {
                0
            }
            &&& action == 'B' ==> after.col == col && after.row == if s.row + n < s.rows {
                s.row + n
            } else {
                s.rows - 1
            }
            &&& action == 'C' ==> after.row == s.row && after.col == if s.col + n < s.cols {
                s.col + n
            } else {
                s.cols - 1
            }
            &&& action == 'D' ==> after.row == s.row && after.col == if s.col > n {
                s.col - n
            } else {
                0
            }
            &&& action == 'H' || action == 'f' ==> after.row == (if n <= s.rows {
                n - 1
            } else {
                s.rows - 1
            }) && after.col == if m <= s.cols {
                m - 1
            } else {
                s.cols - 1
            }
            &&& after.grid == s.grid
            &&& after.fg == s.fg && after.bold == s.bold && after.dirty == s.dirty
        }),
{
    lemma_count(params, 0);
    lemma_count(params, 1);
}

/// To erase the screen or the line makes a cell blank exactly where it lies
/// after the cursor, before it, or anywhere, as the mode says; the cell under
/// the cursor goes either way. To erase the whole screen takes the cursor to the
/// top left, and nothing else moves it.
pub proof fn lemma_erased(s: Screen, params: Seq<Seq<u16>>, action: char, r: int, c: int)
    requires
        s.ok(),
        0 <= r < s.rows,
        0 <= c < s.cols,
        action == 'J' || action == 'K',
    ensures
        ({
            let after = s.performed(vt::TermOp::Csi { params: params, action: action });
            let m = mode(params);
            let home = action == 'J' && (m == 2 || m == 3);
            let in_line = r == s.row && ((m == 0 && c >= s.col) || (m == 1 && c <= s.col) || (m == 2));
            let in_screen = (m == 0 && (r > s.row || (r == s.row && c >= s.col))) || (m == 1 && (r < s.row || (r
                == s.row && c <= s.col))) || m == 2 || m == 3;
            let erased = if action == 'J' {
                in_screen
            } else {
                in_line
            };
            &&& erased ==> after.grid[r][c] == (Cell { ch: ' ', fg: Color::Default, bold: false })
            &&& !erased ==> after.grid[r][c] == s.grid[r][c]
            &&& after.row == (if home {
                0
            } else {
                s.row
            })
            &&& after.col == (if home {
                0
            } else {
                s.col
            })
            &&& after.fg == s.fg && after.bold == s.bold && after.dirty
        }),
{
}

/// What one graphic rendition code does to the style: zero resets it, one and
/// twenty-two turn boldness on and off, thirty to thirty-seven and thirty-nine
/// select a colour, and every other code does nothing.
pub proof fn lemma_style(s: Screen, codes: Seq<u16>, code: u16)
    ensures
        ({
            let before = s.styled_all(codes);
            let after = s.styled_all(codes.push(code));
            &&& after.bold == (if code == 0 || code == 22 {
                false
            } else if code == 1 {
                true
            } else {
                before.bold
            })
            &&& after.fg == (if code == 0 || code == 39 {
                Color::Default
            } else if code == 30 {
                Color::Black
            } else if code == 31 {
                Color::Red
            } else if code == 32 {
                Color::Green
            } else if code == 33 {
                Color::Yellow
            } else if code == 34 {
                Color::Blue
            } else if code == 35 {
                Color::Magenta
            } else if code == 36 {
                Color::Cyan
            } else if code == 37 {
                Color::White
            } else {
                before.fg
            })
            &&& s.styled_all(seq![]) == s
        }),
{
    assert(codes.push(code).drop_last() =~= codes);
}

/// A graphic rendition sequence obeys the codes of all its parameters, in their
/// order; without any it resets the style. A sequence that is not known does
/// nothing.
pub proof fn lemma_sequence(s: Screen, params: Seq<Seq<u16>>, more: Seq<u16>, action: char)
    ensures
        ({
            let after = s.performed(vt::TermOp::Csi { params: params, action: action });
            &&& action == 'm' && codes_of(params).len() == 0 ==> after == (Screen {
                fg: Color::Default,
                bold: false,
                ..s
            })
            &&& action == 'm' && codes_of(params).len() > 0 ==> after == s.styled_all(codes_of(params))
            &&& codes_of(params.push(more)) == codes_of(params) + more
            &&& codes_of(seq![]).len() == 0
            &&& action != 'A' && action != 'B' && action != 'C' && action != 'D' && action != 'H' && action != 'f'
                && action != 'J' && action != 'K' && action != 'm' ==> after == s
        }),
{
    assert(params.push(more).drop_last() =~= params);
}

/// A screen in another size has at least one cell to a side. What fits stays
/// where it is, the rest is blank, the cursor is brought inside, and the style
/// stays. An empty screen is blank, with the cursor at the top left.
pub proof fn lemma_resized(s: Screen, cols: u16, rows: u16, r: int, c: int)
    requires
        s.ok(),
        0 <= r < s.resized(cols, rows).rows,
        0 <= c < s.resized(cols, rows).cols,
    ensures
        ({
            let after = s.resized(cols, rows);
            let new = Screen::empty(cols, rows);
            &&& after.ok() && new.ok()
            &&& after.cols == (if cols == 0 {
                1
            } else {
                cols as nat
            })
            &&& after.rows == (if rows == 0 {
                1
            } else {
                rows as nat
            })
            &&& after.grid[r][c] == (if r < s.rows && c < s.cols {
                s.grid[r][c]
            } else {
                Cell { ch: ' ', fg: Color::Default, bold: false }
            })
            &&& after.row == (if s.row < after.rows {
                s.row
            } else {
                after.rows - 1
            })
            &&& after.col == (if s.col < after.cols {
                s.col
            } else {
                after.cols - 1
            })
            &&& after.fg == s.fg && after.bold == s.bold && after.dirty
            &&& new.cols == after.cols && new.rows == after.rows
            &&& new.grid[r][c] == (Cell { ch: ' ', fg: Color::Default, bold: false })
            &&& new.row == 0 && new.col == 0 && new.fg == Color::Default && !new.bold && !new.dirty
        }),
{
}

/// The parts of each colour; the default has none.
pub proof fn lemma_rgb(color: Color)
    ensures
        rgb_of(color) is None <==> color == Color::Default,
        rgb_of(Color::Black) == Some((0u8, 0u8, 0u8)),
        rgb_of(Color::Red) == Some((205u8, 49u8, 49u8)),
        rgb_of(Color::Green) == Some((13u8, 188u8, 121u8)),
        rgb_of(Color::Yellow) == Some((229u8, 229u8, 16u8)),
        rgb_of(Color::Blue) == Some((36u8, 114u8, 200u8)),
        rgb_of(Color::Magenta) == Some((188u8, 63u8, 188u8)),
        rgb_of(Color::Cyan) == Some((17u8, 168u8, 205u8)),
        rgb_of(Color::White) == Some((229u8, 229u8, 229u8)),
{
}

/// Operations are performed in their order, and bytes are obeyed in theirs.
pub proof fn lemma_one_more(s: Screen, ops: Seq<vt::TermOp>, op: vt::TermOp, seen: Seq<u8>, bytes: Seq<u8>, byte: u8)
    ensures
        s.performed_all(ops.push(op)) == s.performed_all(ops).performed(op),
        s.performed_all(seq![]) == s,
        s.fed(seen, bytes.push(byte)) == s.fed(seen, bytes).performed_all(vt::dispatched(seen + bytes, byte)),
        s.fed(seen, seq![]) == s,
{
    assert(ops.push(op).drop_last() =~= ops);
    assert(bytes.push(byte).drop_last() =~= bytes);
}

} // verus!
