//! Board model: cell colors, the growth-adjacency rule, legal-move
//! enumeration and the static material evaluation.
//!
//! A board is a square grid of `BOARD_SIZE` x `BOARD_SIZE` cells, each one
//! `Empty` or owned by one of the two players. A player may grow into an
//! empty cell when at least two of the four orthogonal neighbors, or at
//! least two of the four diagonal neighbors, already hold that player's
//! color (the two neighbor groups are thresholded separately, never as a
//! union). The specification layer models a board as a `Seq<Color>` of
//! `CELL_COUNT` cells in row-major order.

use vstd::prelude::*;
use vstd::string::StringExecFns;

verus! {

/// Side length of the square board, fixed for the whole program run.
pub const BOARD_SIZE: usize = 11;

/// Number of cells of the board.
pub const CELL_COUNT: usize = BOARD_SIZE * BOARD_SIZE;

/// Contents of one cell: free, or a stone of one of the two players.
/// `White` is the maximizing side of every search, `Black` the minimizing.
#[derive(Copy, Clone, PartialEq, Eq, Structural, Debug)]
pub enum Color {
    Empty,
    White,
    Black,
}

/// Zero-based row/column pair addressing one cell of the board.
#[derive(Copy, Clone, PartialEq, Eq, Structural, Debug)]
pub struct Position {
    pub row: usize,
    pub col: usize,
}

/// A board is modeled as a sequence of exactly `CELL_COUNT` cells.
pub open spec fn board_wf(b: Seq<Color>) -> bool {
    b.len() == CELL_COUNT
}

/// Whether `(row, col)` addresses a cell of the board.
pub open spec fn in_range(row: int, col: int) -> bool {
    0 <= row < BOARD_SIZE && 0 <= col < BOARD_SIZE
}

/// Flat row-major index of cell `(row, col)`.
pub open spec fn cell_index(row: int, col: int) -> int {
    row * (BOARD_SIZE as int) + col
}

/// Position addressing the cell with flat index `k`.
pub open spec fn position_at(k: int) -> Position {
    Position { row: (k / (BOARD_SIZE as int)) as usize, col: (k % (BOARD_SIZE as int)) as usize }
}

/// Color of cell `(row, col)`.
pub open spec fn cell_at(b: Seq<Color>, row: int, col: int) -> Color {
    b[cell_index(row, col)]
}

/// Whether `(row, col)` is on the board and holds `color`; offsets beyond
/// the grid bounds are simply absent and match nothing.
pub open spec fn color_matches(b: Seq<Color>, row: int, col: int, color: Color) -> bool {
    in_range(row, col) && cell_at(b, row, col) == color
}

pub open spec fn one_if(c: bool) -> int {
    if c {
        1
    } else {
        0
    }
}

/// How many of the four orthogonal neighbors of `(row, col)` hold `color`.
pub open spec fn orthogonal_support(b: Seq<Color>, row: int, col: int, color: Color) -> int {
    one_if(color_matches(b, row - 1, col, color)) + one_if(color_matches(b, row + 1, col, color))
        + one_if(color_matches(b, row, col - 1, color)) + one_if(
        color_matches(b, row, col + 1, color),
    )
}

/// How many of the four diagonal neighbors of `(row, col)` hold `color`.
pub open spec fn diagonal_support(b: Seq<Color>, row: int, col: int, color: Color) -> int {
    one_if(color_matches(b, row - 1, col - 1, color)) + one_if(
        color_matches(b, row - 1, col + 1, color),
    ) + one_if(color_matches(b, row + 1, col - 1, color)) + one_if(
        color_matches(b, row + 1, col + 1, color),
    )
}

/// The growth rule: an empty cell may be claimed by `color` when at least
/// two orthogonal neighbors or at least two diagonal neighbors hold that
/// color. One orthogonal plus one diagonal neighbor is not enough.
pub open spec fn growable(b: Seq<Color>, row: int, col: int, color: Color) -> bool {
    in_range(row, col) && cell_at(b, row, col) == Color::Empty && (orthogonal_support(
        b,
        row,
        col,
        color,
    ) >= 2 || diagonal_support(b, row, col, color) >= 2)
}

/// The growth rule at flat cell index `k`.
pub open spec fn growable_at(b: Seq<Color>, k: int, color: Color) -> bool {
    growable(b, k / (BOARD_SIZE as int), k % (BOARD_SIZE as int), color)
}

/// Legal moves of `color` among the first `k` cells, in row-major order.
pub open spec fn moves_upto(b: Seq<Color>, color: Color, k: int) -> Seq<Position>
    decreases k,
{
    if k <= 0 {
        Seq::empty()
    } else if growable_at(b, k - 1, color) {
        moves_upto(b, color, k - 1).push(position_at(k - 1))
    } else {
        moves_upto(b, color, k - 1)
    }
}

/// All legal moves of `color`: the growable cells in row-major scan order.
pub open spec fn legal_moves_spec(b: Seq<Color>, color: Color) -> Seq<Position> {
    moves_upto(b, color, CELL_COUNT as int)
}

/// Empty cells among the first `k` cells, in row-major order.
pub open spec fn empties_upto(b: Seq<Color>, k: int) -> Seq<Position>
    decreases k,
{
    if k <= 0 {
        Seq::empty()
    } else if b[k - 1] == Color::Empty {
        empties_upto(b, k - 1).push(position_at(k - 1))
    } else {
        empties_upto(b, k - 1)
    }
}

/// All empty cells in row-major scan order.
pub open spec fn empty_cells_spec(b: Seq<Color>) -> Seq<Position> {
    empties_upto(b, CELL_COUNT as int)
}

/// How many of the first `k` cells hold `color`.
pub open spec fn count_upto(b: Seq<Color>, color: Color, k: int) -> int
    decreases k,
{
    if k <= 0 {
        0
    } else {
        count_upto(b, color, k - 1) + one_if(b[k - 1] == color)
    }
}

/// Stone count of `color` over the whole board.
pub open spec fn color_count(b: Seq<Color>, color: Color) -> int {
    count_upto(b, color, CELL_COUNT as int)
}

/// Evaluation credit of `color` in the first `k` cells: one per cell owned
/// by `color`, plus one per empty cell that `color` could grow into.
pub open spec fn influence_upto(b: Seq<Color>, color: Color, k: int) -> int
    decreases k,
{
    if k <= 0 {
        0
    } else {
        influence_upto(b, color, k - 1) + one_if(b[k - 1] == color) + one_if(
            growable_at(b, k - 1, color),
        )
    }
}

/// Evaluation credit of `color` over the whole board.
pub open spec fn influence(b: Seq<Color>, color: Color) -> int {
    influence_upto(b, color, CELL_COUNT as int)
}

/// The static evaluation: White's credit minus Black's credit. White seeks
/// to maximize it, Black to minimize it.
pub open spec fn board_score(b: Seq<Color>) -> int {
    influence(b, Color::White) - influence(b, Color::Black)
}

/// A position is terminal when neither side has a legal move.
pub open spec fn is_terminal_spec(b: Seq<Color>) -> bool {
    legal_moves_spec(b, Color::White).len() == 0 && legal_moves_spec(b, Color::Black).len() == 0
}

/// The board equal to `b` except that cell `p` holds `c`.
pub open spec fn board_with(b: Seq<Color>, p: Position, c: Color) -> Seq<Color> {
    b.update(cell_index(p.row as int, p.col as int), c)
}

/// The grid of cell colors. Value type: derived boards are fresh copies,
/// so sibling search branches never alias.
pub struct State {
    grid: Vec<Color>,
}

impl View for State {
    type V = Seq<Color>;

    closed spec fn view(&self) -> Seq<Color> {
        self.grid@
    }
}

impl State {
    /// Structural invariant: the grid holds exactly `CELL_COUNT` cells.
    pub open spec fn wf(&self) -> bool {
        board_wf(self@)
    }

    /// The all-empty starting board.
    pub fn new() -> (s: State)
        ensures
            s.wf(),
            forall|k: int| 0 <= k < CELL_COUNT ==> s@[k] == Color::Empty,
    {
        let mut grid: Vec<Color> = Vec::new();
        let mut k: usize = 0;
        while k < CELL_COUNT
            invariant
                k <= CELL_COUNT,
                grid@.len() == k,
                forall|j: int| 0 <= j < k ==> grid@[j] == Color::Empty,
            decreases CELL_COUNT - k,
        {
            grid.push(Color::Empty);
            k = k + 1;
        }
        State { grid }
    }

    /// The cell at `(row, col)`, or `None` when the (signed) offsets point
    /// beyond the grid bounds.
    pub fn get_field(&self, row: i64, col: i64) -> (r: Option<Color>)
        requires
            self.wf(),
        ensures
            r == if in_range(row as int, col as int) {
                Some(cell_at(self@, row as int, col as int))
            } else {
                None::<Color>
            },
    {
        if row < 0 || row >= BOARD_SIZE as i64 || col < 0 || col >= BOARD_SIZE as i64 {
            None
        } else {
            Some(self.grid[(row as usize) * BOARD_SIZE + (col as usize)])
        }
    }

    /// Whether the cell at the (signed) offsets is on the board and holds
    /// `color`.
    fn neighbor_matches(&self, row: i64, col: i64, color: Color) -> (r: bool)
        requires
            self.wf(),
        ensures
            r == color_matches(self@, row as int, col as int, color),
    {
        match self.get_field(row, col) {
            Some(c) => c == color,
            None => false,
        }
    }

    /// The growth rule for `color` at `(row, col)`: the cell is empty and
    /// has at least two orthogonal or at least two diagonal neighbors of
    /// that color.
    pub fn adjacent_support(&self, row: usize, col: usize, color: Color) -> (r: bool)
        requires
            self.wf(),
            row < BOARD_SIZE,
            col < BOARD_SIZE,
        ensures
            r == growable(self@, row as int, col as int, color),
    {
        let r = row as i64;
        let c = col as i64;
        let mut ortho: u8 = 0;
        if self.neighbor_matches(r - 1, c, color) {
            ortho = ortho + 1;
        }
        if self.neighbor_matches(r + 1, c, color) {
            ortho = ortho + 1;
        }
        if self.neighbor_matches(r, c - 1, color) {
            ortho = ortho + 1;
        }
        if self.neighbor_matches(r, c + 1, color) {
            ortho = ortho + 1;
        }
        let mut diag: u8 = 0;
        if self.neighbor_matches(r - 1, c - 1, color) {
            diag = diag + 1;
        }
        if self.neighbor_matches(r - 1, c + 1, color) {
            diag = diag + 1;
        }
        if self.neighbor_matches(r + 1, c - 1, color) {
            diag = diag + 1;
        }
        if self.neighbor_matches(r + 1, c + 1, color) {
            diag = diag + 1;
        }
        let empty = self.grid[row * BOARD_SIZE + col] == Color::Empty;
        empty && (ortho >= 2 || diag >= 2)
    }

    /// Overwrite one cell. The caller is responsible for only placing into
    /// cells returned by move generation; the board itself checks nothing
    /// beyond the index range.
    pub fn place(&mut self, pos: Position, color: Color)
        requires
            old(self).wf(),
            pos.row < BOARD_SIZE,
            pos.col < BOARD_SIZE,
        ensures
            final(self).wf(),
            final(self)@ == board_with(old(self)@, pos, color),
    {
        let idx = pos.row * BOARD_SIZE + pos.col;
        self.grid.set(idx, color);
    }

    /// Pure variant of `place`: a fresh board equal to `self` except that
    /// cell `pos` holds `color`. `self` is left unmodified.
    pub fn with(&self, pos: Position, color: Color) -> (s: State)
        requires
            self.wf(),
            pos.row < BOARD_SIZE,
            pos.col < BOARD_SIZE,
        ensures
            s.wf(),
            s@ == board_with(self@, pos, color),
    {
        let mut grid: Vec<Color> = Vec::new();
        let mut k: usize = 0;
        while k < CELL_COUNT
            invariant
                k <= CELL_COUNT,
                self.wf(),
                grid@.len() == k,
                forall|j: int| 0 <= j < k ==> grid@[j] == self@[j],
            decreases CELL_COUNT - k,
        {
            grid.push(self.grid[k]);
            k = k + 1;
        }
        let mut s = State { grid };
        assert(s@ =~= self@);
        s.place(pos, color);
        s
    }

    /// All empty cells, in row-major scan order. Used only to seed opening
    /// positions, never for in-game moves.
    pub fn legal_empty_cells(&self) -> (r: Vec<Position>)
        requires
            self.wf(),
        ensures
            r@ == empty_cells_spec(self@),
    {
        let mut out: Vec<Position> = Vec::new();
        let mut k: usize = 0;
        while k < CELL_COUNT
            invariant
                k <= CELL_COUNT,
                self.wf(),
                out@ == empties_upto(self@, k as int),
            decreases CELL_COUNT - k,
        {
            if self.grid[k] == Color::Empty {
                out.push(Position { row: k / BOARD_SIZE, col: k % BOARD_SIZE });
            }
            k = k + 1;
        }
        out
    }

    /// All legal moves of `color`: the cells the growth rule admits, in
    /// row-major scan order. The only move generator used during search;
    /// its order fixes the tie-break order of every ranking.
    pub fn legal_moves(&self, color: Color) -> (r: Vec<Position>)
        requires
            self.wf(),
        ensures
            r@ == legal_moves_spec(self@, color),
    {
        let mut out: Vec<Position> = Vec::new();
        let mut k: usize = 0;
        while k < CELL_COUNT
            invariant
                k <= CELL_COUNT,
                self.wf(),
                out@ == moves_upto(self@, color, k as int),
            decreases CELL_COUNT - k,
        {
            let row = k / BOARD_SIZE;
            let col = k % BOARD_SIZE;
            if self.adjacent_support(row, col, color) {
                out.push(Position { row, col });
            }
            k = k + 1;
        }
        out
    }

    /// Whether the position is terminal: neither side has a legal move.
    pub fn is_terminal(&self) -> (r: bool)
        requires
            self.wf(),
        ensures
            r == is_terminal_spec(self@),
    {
        let black = self.legal_moves(Color::Black);
        let white = self.legal_moves(Color::White);
        black.len() == 0 && white.len() == 0
    }

    /// Raw stone counts, empty cells excluded: the side strictly ahead, or
    /// `None` on a tie. Classifies a terminal position's winner; never used
    /// by the interior evaluation.
    pub fn leader(&self) -> (r: Option<Color>)
        requires
            self.wf(),
        ensures
            r == if color_count(self@, Color::White) > color_count(self@, Color::Black) {
                Some(Color::White)
            } else if color_count(self@, Color::Black) > color_count(self@, Color::White) {
                Some(Color::Black)
            } else {
                None::<Color>
            },
    {
        let mut white: u32 = 0;
        let mut black: u32 = 0;
        let mut k: usize = 0;
        while k < CELL_COUNT
            invariant
                k <= CELL_COUNT,
                self.wf(),
                white as int == count_upto(self@, Color::White, k as int),
                black as int == count_upto(self@, Color::Black, k as int),
                white <= k,
                black <= k,
            decreases CELL_COUNT - k,
        {
            match self.grid[k] {
                Color::White => {
                    white = white + 1;
                },
                Color::Black => {
                    black = black + 1;
                },
                Color::Empty => {},
            }
            k = k + 1;
        }
        if white > black {
            Some(Color::White)
        } else if black > white {
            Some(Color::Black)
        } else {
            None
        }
    }

    /// Human-readable rendering of the board: a lettered column header, a
    /// separator, then one line per row with its 1-based number and one
    /// glyph per cell.
    pub fn render(&self) -> (r: String)
        requires
            self.wf(),
        ensures
            r@ == render_spec(self@),
    {
        let mut out = String::from_str("  |ABCDEFGHIJK\n");
        out.append("--------------\n");
        let ghost header = "  |ABCDEFGHIJK\n"@ + "--------------\n"@;
        proof {
            assert(out@ =~= header + rows_text(self@, 0));
        }
        let mut row: usize = 0;
        while row < BOARD_SIZE
            invariant
                self.wf(),
                row <= BOARD_SIZE,
                header == "  |ABCDEFGHIJK\n"@ + "--------------\n"@,
                out@ == header + rows_text(self@, row as int),
            decreases BOARD_SIZE - row,
        {
            out.append(row_label_str(row));
            proof {
                assert(out@ =~= header + rows_text(self@, row as int) + row_label(row as int)
                    + row_cells(self@, row as int, 0));
            }
            let mut col: usize = 0;
            while col < BOARD_SIZE
                invariant
                    self.wf(),
                    row < BOARD_SIZE,
                    col <= BOARD_SIZE,
                    header == "  |ABCDEFGHIJK\n"@ + "--------------\n"@,
                    out@ == header + rows_text(self@, row as int) + row_label(row as int)
                        + row_cells(self@, row as int, col as int),
                decreases BOARD_SIZE - col,
            {
                match self.grid[row * BOARD_SIZE + col] {
                    Color::White => out.append("o"),
                    Color::Black => out.append("x"),
                    Color::Empty => out.append("."),
                }
                proof {
                    assert(cell_index(row as int, col as int) == row * BOARD_SIZE + col);
                    assert(out@ =~= header + rows_text(self@, row as int) + row_label(row as int)
                        + row_cells(self@, row as int, col as int + 1));
                }
                col = col + 1;
            }
            out.append("\n");
            proof {
                assert(out@ =~= header + rows_text(self@, row as int + 1));
            }
            row = row + 1;
        }
        out
    }

    /// The static evaluation: each cell credits one point to its owner, and
    /// an empty cell credits one point to each side whose growth rule holds
    /// there (both may fire, or neither). Returns White's credit minus
    /// Black's credit.
    pub fn evaluate(&self) -> (r: i32)
        requires
            self.wf(),
        ensures
            r as int == board_score(self@),
            -(CELL_COUNT as int) <= r as int <= CELL_COUNT as int,
    {
        let mut white: u32 = 0;
        let mut black: u32 = 0;
        let mut k: usize = 0;
        while k < CELL_COUNT
            invariant
                k <= CELL_COUNT,
                self.wf(),
                white as int == influence_upto(self@, Color::White, k as int),
                black as int == influence_upto(self@, Color::Black, k as int),
                white <= k,
                black <= k,
            decreases CELL_COUNT - k,
        {
            let row = k / BOARD_SIZE;
            let col = k % BOARD_SIZE;
            proof {
                lemma_influence_upto_bounds(self@, Color::White, k as int);
                lemma_influence_upto_bounds(self@, Color::Black, k as int);
            }
            match self.grid[k] {
                Color::White => {
                    white = white + 1;
                },
                Color::Black => {
                    black = black + 1;
                },
                Color::Empty => {
                    if self.adjacent_support(row, col, Color::White) {
                        white = white + 1;
                    }
                    if self.adjacent_support(row, col, Color::Black) {
                        black = black + 1;
                    }
                },
            }
            k = k + 1;
        }
        proof {
            lemma_influence_upto_bounds(self@, Color::White, CELL_COUNT as int);
            lemma_influence_upto_bounds(self@, Color::Black, CELL_COUNT as int);
        }
        (white as i32) - (black as i32)
    }
}

/// The three-column label of row `r` in the rendering.
fn row_label_str(r: usize) -> (s: &'static str)
    requires
        r < BOARD_SIZE,
    ensures
        s@ == row_label(r as int),
{
    if r == 0 {
        " 1|"
    } else if r == 1 {
        " 2|"
    } else if r == 2 {
        " 3|"
    } else if r == 3 {
        " 4|"
    } else if r == 4 {
        " 5|"
    } else if r == 5 {
        " 6|"
    } else if r == 6 {
        " 7|"
    } else if r == 7 {
        " 8|"
    } else if r == 8 {
        " 9|"
    } else if r == 9 {
        "10|"
    } else {
        "11|"
    }
}

/// A cell credits at most one point per side, so a credit over `k` cells
/// lies between 0 and `k`.
pub proof fn lemma_influence_upto_bounds(b: Seq<Color>, color: Color, k: int)
    requires
        color != Color::Empty,
        0 <= k,
    ensures
        0 <= influence_upto(b, color, k),
        influence_upto(b, color, k) <= k,
    decreases k,
{
    if k > 0 {
        lemma_influence_upto_bounds(b, color, k - 1);
        assert(cell_index((k - 1) / (BOARD_SIZE as int), (k - 1) % (BOARD_SIZE as int)) == k - 1);
    }
}

/// Glyph of one cell in the rendering: `o` for White, `x` for Black, a
/// dot for an empty cell.
pub open spec fn glyph(c: Color) -> Seq<char> {
    match c {
        Color::White => "o"@,
        Color::Black => "x"@,
        Color::Empty => "."@,
    }
}

/// Row label of the rendering: the 1-based row number, right-aligned to
/// two columns, then the border.
pub open spec fn row_label(r: int) -> Seq<char> {
    if r == 0 {
        " 1|"@
    } else if r == 1 {
        " 2|"@
    } else if r == 2 {
        " 3|"@
    } else if r == 3 {
        " 4|"@
    } else if r == 4 {
        " 5|"@
    } else if r == 5 {
        " 6|"@
    } else if r == 6 {
        " 7|"@
    } else if r == 7 {
        " 8|"@
    } else if r == 8 {
        " 9|"@
    } else if r == 9 {
        "10|"@
    } else {
        "11|"@
    }
}

/// Glyphs of the first `c` cells of row `r`.
pub open spec fn row_cells(b: Seq<Color>, r: int, c: int) -> Seq<char>
    decreases c,
{
    if c <= 0 {
        Seq::empty()
    } else {
        row_cells(b, r, c - 1) + glyph(cell_at(b, r, c - 1))
    }
}

/// One rendered row: label, glyphs, newline.
pub open spec fn row_text(b: Seq<Color>, r: int) -> Seq<char> {
    row_label(r) + row_cells(b, r, BOARD_SIZE as int) + "\n"@
}

/// The first `r` rendered rows.
pub open spec fn rows_text(b: Seq<Color>, r: int) -> Seq<char>
    decreases r,
{
    if r <= 0 {
        Seq::empty()
    } else {
        rows_text(b, r - 1) + row_text(b, r - 1)
    }
}

/// The whole rendering: lettered column header, separator, one line per
/// row with numbered rows and one glyph per cell.
pub open spec fn render_spec(b: Seq<Color>) -> Seq<char> {
    "  |ABCDEFGHIJK\n"@ + "--------------\n"@ + rows_text(b, BOARD_SIZE as int)
}

/// Flat row-major index of position `p`.
pub open spec fn pos_index(p: Position) -> int {
    cell_index(p.row as int, p.col as int)
}

/// The growth rule at position `p`.
pub open spec fn growable_pos(b: Seq<Color>, p: Position, color: Color) -> bool {
    growable(b, p.row as int, p.col as int, color)
}

proof fn lemma_position_at(k: int)
    requires
        0 <= k < CELL_COUNT,
    ensures
        (position_at(k).row as int) < BOARD_SIZE as int,
        (position_at(k).col as int) < BOARD_SIZE as int,
        pos_index(position_at(k)) == k,
{
}

/// A position is determined by its flat index: positions on the board with
/// the same flat index are equal.
proof fn lemma_pos_index_injective(p: Position, k: int)
    requires
        0 <= k < CELL_COUNT,
        in_range(p.row as int, p.col as int),
        pos_index(p) == k,
    ensures
        p == position_at(k),
{
    assert(k / (BOARD_SIZE as int) == p.row as int && k % (BOARD_SIZE as int) == p.col as int) by {
        assert(k == (p.row as int) * (BOARD_SIZE as int) + (p.col as int));
    };
}

proof fn lemma_moves_upto_characterization(b: Seq<Color>, color: Color, k: int)
    requires
        board_wf(b),
        0 <= k <= CELL_COUNT,
    ensures
        forall|i: int|
            0 <= i < moves_upto(b, color, k).len() ==> growable_pos(
                b,
                #[trigger] moves_upto(b, color, k)[i],
                color,
            ) && pos_index(moves_upto(b, color, k)[i]) < k,
        forall|p: Position|
            growable_pos(b, p, color) && pos_index(p) < k ==> moves_upto(b, color, k).contains(p),
        forall|i: int, j: int|
            0 <= i < j < moves_upto(b, color, k).len() ==> pos_index(
                #[trigger] moves_upto(b, color, k)[i],
            ) < pos_index(#[trigger] moves_upto(b, color, k)[j]),
    decreases k,
{
    if k > 0 {
        lemma_moves_upto_characterization(b, color, k - 1);
        let prev = moves_upto(b, color, k - 1);
        let cur = moves_upto(b, color, k);
        if growable_at(b, k - 1, color) {
            lemma_position_at(k - 1);
            assert(cur == prev.push(position_at(k - 1)));
            assert(forall|i: int| 0 <= i < prev.len() ==> cur[i] == prev[i]);
            assert(cur[prev.len() as int] == position_at(k - 1));
            assert(growable_pos(b, position_at(k - 1), color));
            assert forall|p: Position|
                growable_pos(b, p, color) && pos_index(p) < k implies cur.contains(p) by {
                if pos_index(p) < k - 1 {
                    assert(prev.contains(p));
                    let i = choose|i: int| 0 <= i < prev.len() && prev[i] == p;
                    assert(cur[i] == p);
                } else {
                    assert(pos_index(p) == k - 1);
                    lemma_pos_index_injective(p, k - 1);
                    assert(cur[prev.len() as int] == p);
                }
            };
        } else {
            assert(cur == prev);
            assert forall|p: Position|
                growable_pos(b, p, color) && pos_index(p) < k implies cur.contains(p) by {
                if pos_index(p) == k - 1 {
                    lemma_pos_index_injective(p, k - 1);
                    assert(!growable_at(b, k - 1, color));
                    assert(false);
                }
            };
        }
    }
}

proof fn lemma_moves_upto_len(b: Seq<Color>, color: Color, k: int)
    requires
        0 <= k,
    ensures
        moves_upto(b, color, k).len() <= k,
    decreases k,
{
    if k > 0 {
        lemma_moves_upto_len(b, color, k - 1);
    }
}

/// A board has at most one legal move per cell.
pub proof fn lemma_legal_moves_len(b: Seq<Color>, color: Color)
    ensures
        legal_moves_spec(b, color).len() <= CELL_COUNT as int,
{
    lemma_moves_upto_len(b, color, CELL_COUNT as int);
}

/// Characterization of the legal-move list: it contains a position exactly
/// when the growth rule admits it (so in particular every listed cell is
/// empty), and it is strictly ordered by row-major scan position.
pub proof fn lemma_legal_moves_characterization(b: Seq<Color>, color: Color)
    requires
        board_wf(b),
    ensures
        forall|p: Position|
            #[trigger] legal_moves_spec(b, color).contains(p) <==> growable_pos(b, p, color),
        forall|p: Position|
            #[trigger] legal_moves_spec(b, color).contains(p) ==> cell_at(
                b,
                p.row as int,
                p.col as int,
            ) == Color::Empty,
        forall|i: int, j: int|
            0 <= i < j < legal_moves_spec(b, color).len() ==> pos_index(
                #[trigger] legal_moves_spec(b, color)[i],
            ) < pos_index(#[trigger] legal_moves_spec(b, color)[j]),
    decreases CELL_COUNT as int,
{
    lemma_moves_upto_characterization(b, color, CELL_COUNT as int);
    assert forall|p: Position| #[trigger] legal_moves_spec(b, color).contains(p) implies growable_pos(
        b,
        p,
        color,
    ) by {
        let i = choose|i: int|
            0 <= i < legal_moves_spec(b, color).len() && legal_moves_spec(b, color)[i] == p;
        assert(growable_pos(b, legal_moves_spec(b, color)[i], color));
    };
    assert forall|p: Position| growable_pos(b, p, color) implies legal_moves_spec(
        b,
        color,
    ).contains(p) by {
        assert(pos_index(p) < CELL_COUNT as int);
    };
}

proof fn lemma_empties_upto_characterization(b: Seq<Color>, k: int)
    requires
        board_wf(b),
        0 <= k <= CELL_COUNT,
    ensures
        forall|i: int|
            0 <= i < empties_upto(b, k).len() ==> in_range(
                (#[trigger] empties_upto(b, k)[i]).row as int,
                empties_upto(b, k)[i].col as int,
            ) && b[pos_index(empties_upto(b, k)[i])] == Color::Empty && pos_index(
                empties_upto(b, k)[i],
            ) < k,
        empties_upto(b, k).len() == count_upto(b, Color::Empty, k),
    decreases k,
{
    if k > 0 {
        lemma_empties_upto_characterization(b, k - 1);
        if b[k - 1] == Color::Empty {
            lemma_position_at(k - 1);
            assert(in_range(position_at(k - 1).row as int, position_at(k - 1).col as int));
        }
    }
}

/// The list of empty cells has exactly one entry per empty cell, each one
/// on the board and empty.
pub proof fn lemma_empty_cells_characterization(b: Seq<Color>)
    requires
        board_wf(b),
    ensures
        forall|i: int|
            0 <= i < empty_cells_spec(b).len() ==> in_range(
                (#[trigger] empty_cells_spec(b)[i]).row as int,
                empty_cells_spec(b)[i].col as int,
            ) && b[pos_index(empty_cells_spec(b)[i])] == Color::Empty,
        empty_cells_spec(b).len() == color_count(b, Color::Empty),
{
    lemma_empties_upto_characterization(b, CELL_COUNT as int);
}

/// How a stone count changes when one cell is overwritten.
pub proof fn lemma_count_update(b: Seq<Color>, j: int, c: Color, color: Color, k: int)
    requires
        0 <= j < b.len(),
        0 <= k <= b.len(),
    ensures
        count_upto(b.update(j, c), color, k) == count_upto(b, color, k) + if j < k {
            one_if(c == color) - one_if(b[j] == color)
        } else {
            0
        },
    decreases k,
{
    if k > 0 {
        lemma_count_update(b, j, c, color, k - 1);
    }
}

proof fn lemma_influence_empty_board(b: Seq<Color>, color: Color, k: int)
    requires
        board_wf(b),
        color != Color::Empty,
        0 <= k <= CELL_COUNT,
        forall|i: int| 0 <= i < CELL_COUNT ==> b[i] == Color::Empty,
    ensures
        influence_upto(b, color, k) == 0,
    decreases k,
{
    if k > 0 {
        lemma_influence_empty_board(b, color, k - 1);
        assert(!growable_at(b, k - 1, color)) by {
            let row = (k - 1) / (BOARD_SIZE as int);
            let col = (k - 1) % (BOARD_SIZE as int);
            assert(!color_matches(b, row - 1, col, color));
            assert(!color_matches(b, row + 1, col, color));
            assert(!color_matches(b, row, col - 1, color));
            assert(!color_matches(b, row, col + 1, color));
            assert(!color_matches(b, row - 1, col - 1, color));
            assert(!color_matches(b, row - 1, col + 1, color));
            assert(!color_matches(b, row + 1, col - 1, color));
            assert(!color_matches(b, row + 1, col + 1, color));
        };
    }
}

/// On the all-empty board the evaluation is zero: no side owns a stone and
/// no empty cell has the two same-color neighbors the growth rule asks for.
pub proof fn lemma_score_empty_board(b: Seq<Color>)
    requires
        board_wf(b),
        forall|i: int| 0 <= i < CELL_COUNT ==> b[i] == Color::Empty,
    ensures
        board_score(b) == 0,
{
    lemma_influence_empty_board(b, Color::White, CELL_COUNT as int);
    lemma_influence_empty_board(b, Color::Black, CELL_COUNT as int);
}

proof fn lemma_influence_full_board(b: Seq<Color>, color: Color, k: int)
    requires
        board_wf(b),
        0 <= k <= CELL_COUNT,
        forall|i: int| 0 <= i < CELL_COUNT ==> b[i] != Color::Empty,
    ensures
        influence_upto(b, color, k) == count_upto(b, color, k),
    decreases k,
{
    if k > 0 {
        lemma_influence_full_board(b, color, k - 1);
        assert(cell_index((k - 1) / (BOARD_SIZE as int), (k - 1) % (BOARD_SIZE as int)) == k - 1);
        assert(!growable_at(b, k - 1, color));
    }
}

/// On a board with no empty cell the evaluation is exactly White's stone
/// count minus Black's stone count.
pub proof fn lemma_score_full_board(b: Seq<Color>)
    requires
        board_wf(b),
        forall|i: int| 0 <= i < CELL_COUNT ==> b[i] != Color::Empty,
    ensures
        board_score(b) == color_count(b, Color::White) - color_count(b, Color::Black),
{
    lemma_influence_full_board(b, Color::White, CELL_COUNT as int);
    lemma_influence_full_board(b, Color::Black, CELL_COUNT as int);
}

/// The evaluation is bounded by the cell count in either direction.
pub proof fn lemma_board_score_bounds(b: Seq<Color>)
    ensures
        -(CELL_COUNT as int) <= board_score(b) <= CELL_COUNT as int,
{
    lemma_influence_upto_bounds(b, Color::White, CELL_COUNT as int);
    lemma_influence_upto_bounds(b, Color::Black, CELL_COUNT as int);
}

} // verus!
