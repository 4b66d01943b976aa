//! The board, whose turn it is, moves and the status of a position.
use vstd::prelude::*;

verus! {

/// The content of one cell of the grid.
#[derive(Clone, Copy, Debug, PartialEq, Eq, Structural)]
pub enum Cell {
    Empty,
    X,
    O,
}

/// The classification of a board: a completed line for either side, a full
/// board without such a line, or a game still running.
#[derive(Clone, Copy, Debug, PartialEq, Eq, Structural)]
pub enum GameStatus {
    XWins,
    OWins,
    CatsGame,
    NotOver,
}

/// A cell of the grid: column `x` and row `y`, row 0 at the top.
#[derive(Clone, Copy, Debug, PartialEq, Eq, Structural)]
pub struct BoardPos {
    pub x: u8,
    pub y: u8,
}

/// The game: the grid (indexed `board[row][column]`) and whether X, the side
/// that moves first, places the next mark.
pub struct Engine {
    pub board: [[Cell; 3]; 3],
    pub is_x_turn: bool,
}

/// The mark placed by the side on move.
pub open spec fn mark_of(x_turn: bool) -> Cell {
    if x_turn {
        Cell::X
    } else {
        Cell::O
    }
}

/// The mark of the other side.
pub open spec fn opponent(m: Cell) -> Cell {
    if m == Cell::X {
        Cell::O
    } else {
        Cell::X
    }
}

/// The status of a game won by the side that places `m`.
pub open spec fn win_for(m: Cell) -> GameStatus {
    if m == Cell::X {
        GameStatus::XWins
    } else {
        GameStatus::OWins
    }
}

impl BoardPos {
    pub open spec fn in_bounds(&self) -> bool {
        self.x < 3 && self.y < 3
    }

    /// The row-major index of the cell, from 0 to 8.
    pub open spec fn index(&self) -> int {
        3 * self.y + self.x
    }
}

/// The cells of a grid in row-major order.
pub open spec fn grid_cells(b: [[Cell; 3]; 3]) -> Seq<Cell> {
    Seq::new(9, |i: int| b[i / 3][i % 3])
}

/// The three row-major cell indices of line `l`: rows 0 to 2, then columns
/// 0 to 2, then the diagonal from the top left, then the one from the bottom left.
pub open spec fn line(l: int) -> (int, int, int) {
    if l < 3 {
        (3 * l, 3 * l + 1, 3 * l + 2)
    } else if l < 6 {
        (l - 3, l, l + 3)
    } else if l == 6 {
        (0, 4, 8)
    } else {
        (6, 4, 2)
    }
}

/// Every cell of line `l` holds `m`.
pub open spec fn line_filled(s: Seq<Cell>, l: int, m: Cell) -> bool {
    let (a, b, c) = line(l);
    s[a] == m && s[b] == m && s[c] == m
}

/// Some cell of the board is empty.
pub open spec fn has_empty(s: Seq<Cell>) -> bool {
    exists|k: int| 0 <= k < 9 && s[k] == Cell::Empty
}

/// The status found by scanning the lines from `l` on, X before O on each
/// line; with no complete line, a full board is a draw.
pub open spec fn scan_lines(s: Seq<Cell>, l: int) -> GameStatus
    decreases 8 - l,
{
    if l >= 8 {
        if has_empty(s) {
            GameStatus::NotOver
        } else {
            GameStatus::CatsGame
        }
    } else if line_filled(s, l, Cell::X) {
        GameStatus::XWins
    } else if line_filled(s, l, Cell::O) {
        GameStatus::OWins
    } else {
        scan_lines(s, l + 1)
    }
}

/// The status of a board: the first complete line of all eight decides.
pub open spec fn status_of(s: Seq<Cell>) -> GameStatus {
    scan_lines(s, 0)
}

/// The indices below `n` of the empty cells, in increasing order.
pub open spec fn empties_below(s: Seq<Cell>, n: int) -> Seq<int>
    decreases n,
{
    if n <= 0 {
        Seq::empty()
    } else if s[n - 1] == Cell::Empty {
        empties_below(s, n - 1).push(n - 1)
    } else {
        empties_below(s, n - 1)
    }
}

/// The candidate moves of a board: its empty cells in row-major order.
pub open spec fn candidates(s: Seq<Cell>) -> Seq<int> {
    empties_below(s, 9)
}

/// 1 when cell content `c` is `m`, else 0.
pub open spec fn is_one(c: Cell, m: Cell) -> int {
    if c == m {
        1
    } else {
        0
    }
}

/// The number of cells holding `m` on a board of nine cells.
pub open spec fn count_of(s: Seq<Cell>, m: Cell) -> int {
    is_one(s[0], m) + is_one(s[1], m) + is_one(s[2], m) + is_one(s[3], m) + is_one(s[4], m)
        + is_one(s[5], m) + is_one(s[6], m) + is_one(s[7], m) + is_one(s[8], m)
}

/// Writing `c` over cell `k` moves one count from the old content to `c`.
pub proof fn lemma_count_update(s: Seq<Cell>, k: int, c: Cell, m: Cell)
    requires
        s.len() == 9,
        0 <= k < 9,
    ensures
        count_of(s.update(k, c), m) == count_of(s, m) - is_one(s[k], m) + is_one(c, m),
{
    let t = s.update(k, c);
    assert forall|i: int| 0 <= i < 9 && i != k implies t[i] == s[i] by {}
    assert(t[k] == c);
}

/// The number of empty cells of a board of nine cells.
pub open spec fn empty_count(s: Seq<Cell>) -> int {
    count_of(s, Cell::Empty)
}

/// What `empties_below` holds: the empty cells below `n`, each once, in order.
pub proof fn lemma_empties_below(s: Seq<Cell>, n: int)
    requires
        s.len() == 9,
        0 <= n <= 9,
    ensures
        empties_below(s, n).len() <= n,
        forall|i: int|
            0 <= i < empties_below(s, n).len() ==> 0 <= #[trigger] empties_below(s, n)[i] < n
                && s[empties_below(s, n)[i]] == Cell::Empty,
        forall|i: int, j: int|
            0 <= i < j < empties_below(s, n).len() ==> empties_below(s, n)[i]
                < empties_below(s, n)[j],
        forall|k: int|
            0 <= k < n && s[k] == Cell::Empty ==> empties_below(s, n).contains(k),
    decreases n,
{
    if n > 0 {
        lemma_empties_below(s, n - 1);
        let p = empties_below(s, n - 1);
        if s[n - 1] == Cell::Empty {
            assert forall|k: int| 0 <= k < n && s[k] == Cell::Empty implies
                empties_below(s, n).contains(k) by {
                if k < n - 1 {
                    let i = choose|i: int| 0 <= i < p.len() && p[i] == k;
                    assert(empties_below(s, n)[i] == k);
                } else {
                    assert(empties_below(s, n)[p.len() as int] == k);
                }
            }
        }
    }
}

/// The candidate moves are exactly the empty cells, in increasing order.
pub proof fn lemma_candidates(s: Seq<Cell>)
    requires
        s.len() == 9,
    ensures
        candidates(s).len() <= 9,
        forall|i: int|
            0 <= i < candidates(s).len() ==> 0 <= #[trigger] candidates(s)[i] < 9
                && s[candidates(s)[i]] == Cell::Empty,
        forall|i: int, j: int|
            0 <= i < j < candidates(s).len() ==> candidates(s)[i] < candidates(s)[j],
        forall|k: int| 0 <= k < 9 && s[k] == Cell::Empty ==> candidates(s).contains(k),
        candidates(s).len() == 0 <==> !has_empty(s),
{
    lemma_empties_below(s, 9);
    if has_empty(s) {
        let k = choose|k: int| 0 <= k < 9 && s[k] == Cell::Empty;
        assert(candidates(s).contains(k));
    }
    if candidates(s).len() > 0 {
        assert(s[candidates(s)[0]] == Cell::Empty);
    }
}

/// A move followed by its undo restores the game exactly: `mid` is the game
/// after a successful `make_move` at `pos` on `before`, and `after` the game
/// after `undo_move` at `pos` on `mid`.
pub proof fn lemma_undo_restores(before: Engine, mid: Engine, after: Engine, pos: BoardPos)
    requires
        pos.in_bounds(),
        before.cells()[pos.index()] == Cell::Empty,
        mid.cells() == before.cells().update(pos.index(), mark_of(before.is_x_turn)),
        mid.is_x_turn == !before.is_x_turn,
        after.cells() == mid.cells().update(pos.index(), Cell::Empty),
        after.is_x_turn == !mid.is_x_turn,
    ensures
        after == before,
{
    assert(after.cells() =~= before.cells());
    lemma_same_cells(after, before);
}

/// The status of a game that has a line filled by `w` and none filled by the
/// other mark, among the lines from `m` on: `w` has won.
pub proof fn lemma_scan_winner(s: Seq<Cell>, m: int, w: Cell)
    requires
        0 <= m <= 8,
        w != Cell::Empty,
        forall|l: int| m <= l < 8 ==> !line_filled(s, l, opponent(w)),
        exists|l: int| m <= l < 8 && line_filled(s, l, w),
    ensures
        scan_lines(s, m) == win_for(w),
    decreases 8 - m,
{
    if !line_filled(s, m, w) {
        assert(!line_filled(s, m, opponent(w)));
        lemma_scan_winner(s, m + 1, w);
    }
}

/// A game without a filled line among the lines from `m` on, with an empty
/// cell, is still running.
pub proof fn lemma_scan_open(s: Seq<Cell>, m: int)
    requires
        0 <= m <= 8,
        forall|l: int| m <= l < 8 ==> !line_filled(s, l, Cell::X) && !line_filled(s, l, Cell::O),
        has_empty(s),
    ensures
        scan_lines(s, m) == GameStatus::NotOver,
    decreases 8 - m,
{
    if m < 8 {
        lemma_scan_open(s, m + 1);
    }
}

/// A running game has no filled line and an empty cell.
pub proof fn lemma_not_over(s: Seq<Cell>, m: int)
    requires
        0 <= m <= 8,
        scan_lines(s, m) == GameStatus::NotOver,
    ensures
        forall|l: int| m <= l < 8 ==> !line_filled(s, l, Cell::X) && !line_filled(s, l, Cell::O),
        has_empty(s),
    decreases 8 - m,
{
    if m < 8 {
        lemma_not_over(s, m + 1);
    }
}

proof fn lemma_cell_index(b: [[Cell; 3]; 3], y: int, x: int)
    requires
        0 <= y < 3,
        0 <= x < 3,
    ensures
        grid_cells(b)[3 * y + x] == b[y][x],
{
    let i = 3 * y + x;
    assert(i / 3 == y && i % 3 == x);
    assert(grid_cells(b)[i] == b[i / 3][i % 3]);
}

/// Two games with the same cells and the same side on move are equal.
pub proof fn lemma_same_cells(a: Engine, b: Engine)
    requires
        a.cells() == b.cells(),
        a.is_x_turn == b.is_x_turn,
    ensures
        a == b,
{
    assert forall|y: int| 0 <= y < 3 implies a.board[y] == b.board[y] by {
        assert forall|x: int| 0 <= x < 3 implies a.board[y][x] == b.board[y][x] by {
            lemma_cell_index(a.board, y, x);
            lemma_cell_index(b.board, y, x);
        }
        assert(a.board[y] =~= b.board[y]);
    }
    assert(a.board =~= b.board);
}

impl Engine {
    /// The cells of the grid in row-major order.
    pub open spec fn cells(&self) -> Seq<Cell> {
        grid_cells(self.board)
    }

    /// The turn agrees with the marks on the grid of a game that X opened: X
    /// has as many marks as O when X is on move, and one more when O is.
    pub open spec fn well_formed(&self) -> bool {
        count_of(self.cells(), Cell::X) == count_of(self.cells(), Cell::O) + if self.is_x_turn {
            0int
        } else {
            1int
        }
    }

    /// An empty board with X to move.
    pub fn new() -> (r: Engine)
        ensures
            forall|k: int| 0 <= k < 9 ==> r.cells()[k] == Cell::Empty,
            r.is_x_turn,
            r.well_formed(),
    {
        Engine { board: [[Cell::Empty; 3]; 3], is_x_turn: true }
    }

    /// The content of the cell at column `x`, row `y`.
    pub fn cell(&self, x: u8, y: u8) -> (r: Cell)
        requires
            x < 3,
            y < 3,
        ensures
            r == self.cells()[3 * y + x],
    {
        self.board[y as usize][x as usize]
    }

    /// Places the mark of the side on move at `pos` and passes the turn, if
    /// `pos` lies on the grid and its cell is empty; otherwise leaves the game
    /// as it was and returns false.
    pub fn make_move(&mut self, pos: &BoardPos) -> (r: bool)
        ensures
            r == (pos.in_bounds() && old(self).cells()[pos.index()] == Cell::Empty),
            r ==> final(self).cells() == old(self).cells().update(
                pos.index(),
                mark_of(old(self).is_x_turn),
            ),
            r ==> final(self).is_x_turn == !old(self).is_x_turn,
            !r ==> *final(self) == *old(self),
            old(self).well_formed() ==> final(self).well_formed(),
    {
        if pos.x > 2 || pos.y > 2 {
            return false;
        }
        let y = pos.y as usize;
        let x = pos.x as usize;
        if self.board[y][x] != Cell::Empty {
            return false;
        }
        let m = if self.is_x_turn {
            Cell::X
        } else {
            Cell::O
        };
        self.set_cell(x, y, m);
        self.is_x_turn = !self.is_x_turn;
        proof {
            lemma_count_update(old(self).cells(), pos.index(), m, Cell::X);
            lemma_count_update(old(self).cells(), pos.index(), m, Cell::O);
        }
        true
    }

    /// Clears the cell at `pos` and passes the turn back: the inverse of a
    /// successful `make_move` at `pos`.
    pub fn undo_move(&mut self, pos: &BoardPos)
        requires
            pos.in_bounds(),
        ensures
            final(self).cells() == old(self).cells().update(pos.index(), Cell::Empty),
            final(self).is_x_turn == !old(self).is_x_turn,
            old(self).well_formed() && old(self).cells()[pos.index()] == mark_of(
                !old(self).is_x_turn,
            ) ==> final(self).well_formed(),
    {
        self.set_cell(pos.x as usize, pos.y as usize, Cell::Empty);
        self.is_x_turn = !self.is_x_turn;
        proof {
            lemma_count_update(old(self).cells(), pos.index(), Cell::Empty, Cell::X);
            lemma_count_update(old(self).cells(), pos.index(), Cell::Empty, Cell::O);
        }
    }

    fn set_cell(&mut self, x: usize, y: usize, c: Cell)
        requires
            x < 3,
            y < 3,
        ensures
            final(self).cells() == old(self).cells().update(3 * y + x, c),
            final(self).is_x_turn == old(self).is_x_turn,
    {
        let mut row = self.board[y];
        row[x] = c;
        self.board[y] = row;
        assert(self.cells() =~= old(self).cells().update(3 * y + x, c));
    }

    /// The empty cells of the grid, in row-major order (row 0 to 2, column 0
    /// to 2 within a row).
    pub fn get_positions(&self) -> (r: Vec<BoardPos>)
        ensures
            r@.len() == candidates(self.cells()).len(),
            forall|i: int|
                0 <= i < r@.len() ==> (#[trigger] r@[i]).in_bounds() && r@[i].index()
                    == candidates(self.cells())[i],
            !has_empty(self.cells()) ==> r@.len() == 0,
    {
        let ghost s = self.cells();
        let mut positions: Vec<BoardPos> = Vec::new();
        let mut y: u8 = 0;
        while y < 3
            invariant
                0 <= y <= 3,
                s == self.cells(),
                positions@.len() == empties_below(s, 3 * y).len(),
                forall|i: int|
                    0 <= i < positions@.len() ==> (#[trigger] positions@[i]).in_bounds()
                        && positions@[i].index() == empties_below(s, 3 * y)[i],
            decreases 3 - y,
        {
            let mut x: u8 = 0;
            while x < 3
                invariant
                    0 <= y < 3,
                    0 <= x <= 3,
                    s == self.cells(),
                    positions@.len() == empties_below(s, 3 * y + x).len(),
                    forall|i: int|
                        0 <= i < positions@.len() ==> (#[trigger] positions@[i]).in_bounds()
                            && positions@[i].index() == empties_below(s, 3 * y + x)[i],
                decreases 3 - x,
            {
                assert(s[3 * y + x] == self.board[y as int][x as int]);
                if self.board[y as usize][x as usize] == Cell::Empty {
                    positions.push(BoardPos { x, y });
                }
                x = x + 1;
            }
            y = y + 1;
        }
        proof {
            lemma_candidates(s);
        }
        positions
    }

    /// Whether line `l` holds three times the mark `m`, `m` being X or O.
    fn line_is(&self, l: usize, m: Cell) -> (r: bool)
        requires
            l < 8,
        ensures
            r == line_filled(self.cells(), l as int, m),
    {
        let (a, b, c): (usize, usize, usize) = if l < 3 {
            (3 * l, 3 * l + 1, 3 * l + 2)
        } else if l < 6 {
            (l - 3, l, l + 3)
        } else if l == 6 {
            (0, 4, 8)
        } else {
            (6, 4, 2)
        };
        self.board[a / 3][a % 3] == m && self.board[b / 3][b % 3] == m && self.board[c / 3][c
            % 3] == m
    }

    /// The status of the game, computed afresh from the grid: the rows, then
    /// the columns, then the two diagonals are scanned, and the first line
    /// filled by one mark decides; without one, a full grid is a draw.
    pub fn get_game_status(&self) -> (r: GameStatus)
        ensures
            r == status_of(self.cells()),
    {
        let mut l: usize = 0;
        while l < 8
            invariant
                l <= 8,
                scan_lines(self.cells(), 0) == scan_lines(self.cells(), l as int),
            decreases 8 - l,
        {
            if self.line_is(l, Cell::X) {
                return GameStatus::XWins;
            }
            if self.line_is(l, Cell::O) {
                return GameStatus::OWins;
            }
            l = l + 1;
        }
        if self.get_positions().len() == 0 {
            proof {
                lemma_candidates(self.cells());
            }
            GameStatus::CatsGame
        } else {
            GameStatus::NotOver
        }
    }

    /// Whether the game has ended: a line is complete or the grid is full.
    pub fn is_game_over(&self) -> (r: bool)
        ensures
            r == (status_of(self.cells()) != GameStatus::NotOver),
    {
        match self.get_game_status() {
            GameStatus::NotOver => false,
            _ => true,
        }
    }
}

} // verus!
