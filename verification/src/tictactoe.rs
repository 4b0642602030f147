pub mod error;

use crate::board::grid::{grid_column_len, grid_rect, nested_cells, CellAdjacency, CellType, Grid, GridBuilder, GridExt};
use crate::tictactoe::error::Error;
use vstd::prelude::*;

verus! {

/// What one board cell holds.
#[derive(Clone, Copy, Debug, PartialEq, Eq, Structural)]
pub enum CellState {
    Empty,
    Circle,
    Cross,
}

/// One of the two players.
#[derive(Clone, Copy, Debug, PartialEq, Eq, Structural)]
pub enum PlayerId {
    Circle,
    Cross,
}

/// A cell address on the board.
#[derive(Clone, Copy, Debug, PartialEq, Eq, Structural)]
pub struct Position {
    pub row: usize,
    pub column: usize,
}

impl Position {
    pub fn new(row: usize, column: usize) -> (r: Self)
        ensures
            r.row == row,
            r.column == column,
    {
        Self { row, column }
    }
}

/// One discrete move of the game.
#[derive(Clone, Copy, Debug, PartialEq, Eq, Structural)]
pub enum Action {
    MarkBoard { player_id: PlayerId, pos: Position },
}

/// The end-game report: exactly one of not-over, a tie, or a winner.
#[derive(Clone, Copy, Debug, PartialEq, Eq, Structural)]
pub enum EndGameState {
    GameNotOver,
    Tie,
    Winner(PlayerId),
}

/// The mark a player places.
pub open spec fn mark_of(player: PlayerId) -> CellState {
    match player {
        PlayerId::Circle => CellState::Circle,
        PlayerId::Cross => CellState::Cross,
    }
}

/// The player whose turn follows.
pub open spec fn other_player(player: PlayerId) -> PlayerId {
    match player {
        PlayerId::Circle => PlayerId::Cross,
        PlayerId::Cross => PlayerId::Circle,
    }
}

/// The public state of one tic-tac-toe session: the board, the run length
/// required to win, and whose turn it is.
#[derive(Debug, PartialEq, Eq, Clone)]
pub struct TicTacToeState {
    board: Grid<CellState>,
    required_sequence_length: usize,
    current_player: PlayerId,
}

impl TicTacToeState {
    /// The board value.
    pub closed spec fn spec_board(&self) -> Grid<CellState> {
        self.board
    }

    /// The board's cells, row by row.
    pub open spec fn spec_cells(&self) -> Seq<Seq<CellState>> {
        self.spec_board().contents()
    }

    /// The configured winning-sequence length.
    pub closed spec fn spec_required(&self) -> int {
        self.required_sequence_length as int
    }

    /// Whose turn it is.
    pub closed spec fn spec_current(&self) -> PlayerId {
        self.current_player
    }

    /// A well-formed session state: a square board and a winning-sequence
    /// length between one and the board length.
    pub open spec fn wf(&self) -> bool {
        &&& grid_rect(self.spec_cells())
        &&& grid_column_len(self.spec_cells()) == self.spec_cells().len()
        &&& 1 <= self.spec_required() <= self.spec_cells().len()
    }

    /// A fresh board of `board_size` by `board_size` empty cells, rejected
    /// with `InvalidGameCondition` exactly when the requested
    /// winning-sequence length exceeds the board length. Cross moves first.
    pub fn new(board_size: usize, required_sequence_length: usize) -> (r: Result<Self, Error>)
        ensures
            r is Ok <==> required_sequence_length <= board_size,
            r matches Ok(s) ==> {
                &&& s.spec_cells().len() == board_size
                &&& grid_rect(s.spec_cells())
                &&& grid_column_len(s.spec_cells()) == board_size
                &&& forall|i: int, j: int|
                    0 <= i < board_size && 0 <= j < board_size ==> s.spec_cells()[i][j]
                        == CellState::Empty
                &&& s.spec_board().topology() == CellType::Square
                &&& s.spec_board().adjacency() == CellAdjacency::Side
                &&& s.spec_required() == required_sequence_length
                &&& s.spec_current() == PlayerId::Cross
                &&& (required_sequence_length >= 1 ==> s.wf())
            },
            r matches Err(e) ==> e == Error::InvalidGameCondition,
    {
        if required_sequence_length > board_size {
            return Err(Error::InvalidGameCondition);
        }

        let board = GridBuilder::new_square_grid()
            .with_rows(board_size)
            .with_columns(board_size)
            .with_initial_value(CellState::Empty)
            .build();

        let s = Self { board, required_sequence_length, current_player: PlayerId::Cross };
        proof {
            assert(forall|i: int|
                0 <= i < s.spec_cells().len() ==> (#[trigger] s.spec_cells()[i]).len()
                    == board_size);
        }
        Ok(s)
    }

    /// Wraps an already filled board with its rules; the counterpart of the
    /// accessors, used to restore or inject a mid-game position.
    pub fn from_parts(
        board: Grid<CellState>,
        required_sequence_length: usize,
        current_player: PlayerId,
    ) -> (r: Self)
        ensures
            r.spec_board() == board,
            r.spec_required() == required_sequence_length,
            r.spec_current() == current_player,
    {
        Self { board, required_sequence_length, current_player }
    }

    /// The board.
    pub fn board(&self) -> (r: &Grid<CellState>)
        ensures
            *r == self.spec_board(),
    {
        &self.board
    }

    /// The run length required to win.
    pub fn required_sequence_length(&self) -> (r: usize)
        ensures
            r == self.spec_required(),
    {
        self.required_sequence_length
    }

    /// Whose turn it is.
    pub fn current_player(&self) -> (r: PlayerId)
        ensures
            r == self.spec_current(),
    {
        self.current_player
    }
}

/// The cell `j` places to the right of `(r, c)`.
pub open spec fn row_cell(cells: Seq<Seq<CellState>>, r: int, c: int, j: int) -> CellState {
    cells[r][c + j]
}

/// The cell `j` places below `(r, c)`.
pub open spec fn col_cell(cells: Seq<Seq<CellState>>, r: int, c: int, j: int) -> CellState {
    cells[r + j][c]
}

/// The cell `j` places down-right of `(r, c)`.
pub open spec fn diag_cell(cells: Seq<Seq<CellState>>, r: int, c: int, j: int) -> CellState {
    cells[r + j][c + j]
}

/// The cell `j` places down-left of `(0, c)`.
pub open spec fn anti_cell(cells: Seq<Seq<CellState>>, c: int, j: int) -> CellState {
    cells[j][c - j]
}

/// `k` cells of `mark` in a row, rightward from `(r, c)`, inside the board.
pub open spec fn row_run(cells: Seq<Seq<CellState>>, mark: CellState, r: int, c: int, k: int) -> bool {
    &&& 0 <= r < cells.len()
    &&& 0 <= c
    &&& c + k <= cells[r].len()
    &&& forall|j: int| 0 <= j < k ==> row_cell(cells, r, c, j) == mark
}

/// `k` cells of `mark` in a column, downward from `(r, c)`, inside the board.
pub open spec fn col_run(cells: Seq<Seq<CellState>>, mark: CellState, r: int, c: int, k: int) -> bool {
    &&& 0 <= c < grid_column_len(cells)
    &&& 0 <= r
    &&& r + k <= cells.len()
    &&& forall|j: int| 0 <= j < k ==> col_cell(cells, r, c, j) == mark
}

/// `k` cells of `mark` down-right from `(r, c)`, inside the board.
pub open spec fn diag_run(cells: Seq<Seq<CellState>>, mark: CellState, r: int, c: int, k: int) -> bool {
    &&& 0 <= r
    &&& 0 <= c
    &&& r + k <= cells.len()
    &&& c + k <= grid_column_len(cells)
    &&& forall|j: int| 0 <= j < k ==> diag_cell(cells, r, c, j) == mark
}

/// `k` cells of `mark` down-left from `(0, c)`, inside the board. The scan
/// starts anti-diagonal runs at the top row only.
pub open spec fn anti_run(cells: Seq<Seq<CellState>>, mark: CellState, c: int, k: int) -> bool {
    &&& k - 1 <= c < grid_column_len(cells)
    &&& k <= cells.len()
    &&& forall|j: int| 0 <= j < k ==> anti_cell(cells, c, j) == mark
}

/// Some row holds `k` consecutive cells of `mark`.
pub open spec fn row_win(cells: Seq<Seq<CellState>>, mark: CellState, k: int) -> bool {
    exists|r: int, c: int| #[trigger] row_run(cells, mark, r, c, k)
}

/// Some column holds `k` consecutive cells of `mark`.
pub open spec fn col_win(cells: Seq<Seq<CellState>>, mark: CellState, k: int) -> bool {
    exists|r: int, c: int| #[trigger] col_run(cells, mark, r, c, k)
}

/// Some down-right diagonal holds `k` consecutive cells of `mark`.
pub open spec fn diag_win(cells: Seq<Seq<CellState>>, mark: CellState, k: int) -> bool {
    exists|r: int, c: int| #[trigger] diag_run(cells, mark, r, c, k)
}

/// Some down-left diagonal starting at the top row holds `k` consecutive
/// cells of `mark`.
pub open spec fn anti_win(cells: Seq<Seq<CellState>>, mark: CellState, k: int) -> bool {
    exists|c: int| #[trigger] anti_run(cells, mark, c, k)
}

/// The win condition: a required-length run in a row, a column, a
/// down-right diagonal, or a top-row-anchored down-left diagonal.
pub open spec fn wins(cells: Seq<Seq<CellState>>, mark: CellState, k: int) -> bool {
    ||| row_win(cells, mark, k)
    ||| col_win(cells, mark, k)
    ||| diag_win(cells, mark, k)
    ||| anti_win(cells, mark, k)
}

/// Some cell of the board is empty.
pub open spec fn has_empty(cells: Seq<Seq<CellState>>) -> bool {
    exists|r: int, c: int|
        0 <= r < cells.len() && 0 <= c < cells[r].len() && #[trigger] cells[r][c]
            == CellState::Empty
}

impl Default for TicTacToeState {
    /// The standard game: a 3 by 3 board, three in a row wins, Cross first.
    fn default() -> (r: Self)
        ensures
            r.wf(),
            r.spec_cells().len() == 3,
            grid_column_len(r.spec_cells()) == 3,
            forall|i: int, j: int|
                0 <= i < 3 && 0 <= j < 3 ==> r.spec_cells()[i][j] == CellState::Empty,
            r.spec_board().topology() == CellType::Square,
            r.spec_board().adjacency() == CellAdjacency::Side,
            r.spec_required() == 3,
            r.spec_current() == PlayerId::Cross,
    {
        let board = GridBuilder::new_square_grid()
            .with_rows(3)
            .with_columns(3)
            .with_initial_value(CellState::Empty)
            .build();
        let s = Self { board, required_sequence_length: 3, current_player: PlayerId::Cross };
        proof {
            assert(forall|i: int|
                0 <= i < s.spec_cells().len() ==> (#[trigger] s.spec_cells()[i]).len() == 3);
        }
        s
    }
}

/// True exactly when `k` cells of `mark` run rightward from `(r, c)`.
fn run_at_row(board: &Grid<CellState>, mark: CellState, r: usize, c: usize, k: usize) -> (b: bool)
    requires
        r < board.contents().len(),
        c + k <= board.contents()[r as int].len(),
    ensures
        b == row_run(board.contents(), mark, r as int, c as int, k as int),
{
    let ghost cells = board.contents();
    let row_ref = board.iter_row(r);
    let row_len = row_ref.len();
    let mut j: usize = 0;
    while j < k
        invariant
            cells == board.contents(),
            row_ref@ == cells[r as int],
            r < cells.len(),
            c + k <= cells[r as int].len(),
            row_len == cells[r as int].len(),
            j <= k,
            forall|jj: int| 0 <= jj < j ==> row_cell(cells, r as int, c as int, jj) == mark,
        decreases k - j,
    {
        if row_ref[c + j] != mark {
            proof {
                assert(row_cell(cells, r as int, c as int, j as int) != mark);
            }
            return false;
        }
        j = j + 1;
    }
    true
}

/// True exactly when `k` cells of `mark` run downward from `(r, c)`.
fn run_at_col(board: &Grid<CellState>, mark: CellState, r: usize, c: usize, k: usize) -> (b: bool)
    requires
        grid_rect(board.contents()),
        c < grid_column_len(board.contents()),
        r + k <= board.contents().len(),
    ensures
        b == col_run(board.contents(), mark, r as int, c as int, k as int),
{
    let ghost cells = board.contents();
    let n = board.row_len();
    let mut j: usize = 0;
    while j < k
        invariant
            cells == board.contents(),
            grid_rect(cells),
            c < grid_column_len(cells),
            r + k <= cells.len(),
            n == cells.len(),
            j <= k,
            forall|jj: int| 0 <= jj < j ==> col_cell(cells, r as int, c as int, jj) == mark,
        decreases k - j,
    {
        let row_ref = board.iter_row(r + j);
        if row_ref[c] != mark {
            proof {
                assert(col_cell(cells, r as int, c as int, j as int) != mark);
            }
            return false;
        }
        j = j + 1;
    }
    true
}

/// True exactly when `k` cells of `mark` run down-right from `(r, c)`.
fn run_at_diag(board: &Grid<CellState>, mark: CellState, r: usize, c: usize, k: usize) -> (b: bool)
    requires
        grid_rect(board.contents()),
        r + k <= board.contents().len(),
        c + k <= grid_column_len(board.contents()),
    ensures
        b == diag_run(board.contents(), mark, r as int, c as int, k as int),
{
    let ghost cells = board.contents();
    let n = board.row_len();
    let mut j: usize = 0;
    while j < k
        invariant
            cells == board.contents(),
            grid_rect(cells),
            r + k <= cells.len(),
            c + k <= grid_column_len(cells),
            n == cells.len(),
            j <= k,
            forall|jj: int| 0 <= jj < j ==> diag_cell(cells, r as int, c as int, jj) == mark,
        decreases k - j,
    {
        let row_ref = board.iter_row(r + j);
        let row_len = row_ref.len();
        proof {
            assert(cells[(r + j) as int].len() == grid_column_len(cells));
            assert(row_len == cells[(r + j) as int].len());
        }
        if row_ref[c + j] != mark {
            proof {
                assert(diag_cell(cells, r as int, c as int, j as int) != mark);
            }
            return false;
        }
        j = j + 1;
    }
    true
}

/// True exactly when `k` cells of `mark` run down-left from `(0, c)`.
fn run_at_anti(board: &Grid<CellState>, mark: CellState, c: usize, k: usize) -> (b: bool)
    requires
        grid_rect(board.contents()),
        k >= 1,
        k - 1 <= c < grid_column_len(board.contents()),
        k <= board.contents().len(),
    ensures
        b == anti_run(board.contents(), mark, c as int, k as int),
{
    let ghost cells = board.contents();
    let mut j: usize = 0;
    while j < k
        invariant
            cells == board.contents(),
            grid_rect(cells),
            k - 1 <= c < grid_column_len(cells),
            k <= cells.len(),
            j <= k,
            forall|jj: int| 0 <= jj < j ==> anti_cell(cells, c as int, jj) == mark,
        decreases k - j,
    {
        let row_ref = board.iter_row(j);
        if row_ref[c - j] != mark {
            proof {
                assert(anti_cell(cells, c as int, j as int) != mark);
            }
            return false;
        }
        j = j + 1;
    }
    true
}

/// Scans every row for a `k`-run of `mark`.
fn check_row_win(board: &Grid<CellState>, mark: CellState, k: usize) -> (b: bool)
    requires
        grid_rect(board.contents()),
        grid_column_len(board.contents()) == board.contents().len(),
        1 <= k <= board.contents().len(),
    ensures
        b == row_win(board.contents(), mark, k as int),
{
    let ghost cells = board.contents();
    let n = board.row_len();
    let limit = n - k + 1;
    let mut r: usize = 0;
    while r < n
        invariant
            cells == board.contents(),
            grid_rect(cells),
            grid_column_len(cells) == cells.len(),
            1 <= k <= cells.len(),
            n == cells.len(),
            limit == n - k + 1,
            r <= n,
            forall|rr: int, cc: int|
                0 <= rr < r ==> !#[trigger] row_run(cells, mark, rr, cc, k as int),
        decreases n - r,
    {
        let mut c: usize = 0;
        while c < limit
            invariant
                cells == board.contents(),
                grid_rect(cells),
                grid_column_len(cells) == cells.len(),
                1 <= k <= cells.len(),
                n == cells.len(),
                limit == n - k + 1,
                r < n,
                c <= limit,
                forall|cc: int| 0 <= cc < c ==> !#[trigger] row_run(cells, mark, r as int, cc, k as int),
            decreases limit - c,
        {
            proof {
                assert(cells[r as int].len() == grid_column_len(cells));
            }
            if run_at_row(board, mark, r, c, k) {
                proof {
                    assert(row_run(cells, mark, r as int, c as int, k as int));
                }
                return true;
            }
            c = c + 1;
        }
        proof {
            assert forall|cc: int| !#[trigger] row_run(cells, mark, r as int, cc, k as int) by {
                if 0 <= cc < limit {
                } else if row_run(cells, mark, r as int, cc, k as int) {
                    assert(cells[r as int].len() == grid_column_len(cells));
                }
            }
        }
        r = r + 1;
    }
    proof {
        if row_win(cells, mark, k as int) {
            let (rr, cc) = choose|rr: int, cc: int| #[trigger] row_run(cells, mark, rr, cc, k as int);
            assert(!row_run(cells, mark, rr, cc, k as int));
        }
    }
    false
}

/// Scans every column for a `k`-run of `mark`.
fn check_col_win(board: &Grid<CellState>, mark: CellState, k: usize) -> (b: bool)
    requires
        grid_rect(board.contents()),
        grid_column_len(board.contents()) == board.contents().len(),
        1 <= k <= board.contents().len(),
    ensures
        b == col_win(board.contents(), mark, k as int),
{
    let ghost cells = board.contents();
    let n = board.row_len();
    let limit = n - k + 1;
    let mut c: usize = 0;
    while c < n
        invariant
            cells == board.contents(),
            grid_rect(cells),
            grid_column_len(cells) == cells.len(),
            1 <= k <= cells.len(),
            n == cells.len(),
            limit == n - k + 1,
            c <= n,
            forall|rr: int, cc: int|
                0 <= cc < c ==> !#[trigger] col_run(cells, mark, rr, cc, k as int),
        decreases n - c,
    {
        let mut r: usize = 0;
        while r < limit
            invariant
                cells == board.contents(),
                grid_rect(cells),
                grid_column_len(cells) == cells.len(),
                1 <= k <= cells.len(),
                n == cells.len(),
                limit == n - k + 1,
                c < n,
                r <= limit,
                forall|rr: int| 0 <= rr < r ==> !#[trigger] col_run(cells, mark, rr, c as int, k as int),
            decreases limit - r,
        {
            if run_at_col(board, mark, r, c, k) {
                proof {
                    assert(col_run(cells, mark, r as int, c as int, k as int));
                }
                return true;
            }
            r = r + 1;
        }
        proof {
            assert(forall|rr: int| !#[trigger] col_run(cells, mark, rr, c as int, k as int));
        }
        c = c + 1;
    }
    proof {
        if col_win(cells, mark, k as int) {
            let (rr, cc) = choose|rr: int, cc: int| #[trigger] col_run(cells, mark, rr, cc, k as int);
            assert(!col_run(cells, mark, rr, cc, k as int));
        }
    }
    false
}

/// Scans every down-right diagonal start for a `k`-run of `mark`.
fn check_diag_win(board: &Grid<CellState>, mark: CellState, k: usize) -> (b: bool)
    requires
        grid_rect(board.contents()),
        grid_column_len(board.contents()) == board.contents().len(),
        1 <= k <= board.contents().len(),
    ensures
        b == diag_win(board.contents(), mark, k as int),
{
    let ghost cells = board.contents();
    let n = board.row_len();
    let limit = n - k + 1;
    let mut r: usize = 0;
    while r < limit
        invariant
            cells == board.contents(),
            grid_rect(cells),
            grid_column_len(cells) == cells.len(),
            1 <= k <= cells.len(),
            n == cells.len(),
            limit == n - k + 1,
            r <= limit,
            forall|rr: int, cc: int|
                0 <= rr < r ==> !#[trigger] diag_run(cells, mark, rr, cc, k as int),
        decreases limit - r,
    {
        let mut c: usize = 0;
        while c < limit
            invariant
                cells == board.contents(),
                grid_rect(cells),
                grid_column_len(cells) == cells.len(),
                1 <= k <= cells.len(),
                n == cells.len(),
                limit == n - k + 1,
                r < limit,
                c <= limit,
                forall|cc: int| 0 <= cc < c ==> !#[trigger] diag_run(cells, mark, r as int, cc, k as int),
            decreases limit - c,
        {
            if run_at_diag(board, mark, r, c, k) {
                proof {
                    assert(diag_run(cells, mark, r as int, c as int, k as int));
                }
                return true;
            }
            c = c + 1;
        }
        proof {
            assert(forall|cc: int| !#[trigger] diag_run(cells, mark, r as int, cc, k as int));
        }
        r = r + 1;
    }
    proof {
        if diag_win(cells, mark, k as int) {
            let (rr, cc) = choose|rr: int, cc: int| #[trigger] diag_run(cells, mark, rr, cc, k as int);
            assert(!diag_run(cells, mark, rr, cc, k as int));
        }
    }
    false
}

/// Scans every top-row anti-diagonal start for a `k`-run of `mark`.
fn check_anti_win(board: &Grid<CellState>, mark: CellState, k: usize) -> (b: bool)
    requires
        grid_rect(board.contents()),
        grid_column_len(board.contents()) == board.contents().len(),
        1 <= k <= board.contents().len(),
    ensures
        b == anti_win(board.contents(), mark, k as int),
{
    let ghost cells = board.contents();
    let n = board.row_len();
    let mut c: usize = k - 1;
    while c < n
        invariant
            cells == board.contents(),
            grid_rect(cells),
            grid_column_len(cells) == cells.len(),
            1 <= k <= cells.len(),
            n == cells.len(),
            k - 1 <= c,
            c <= n,
            forall|cc: int| cc < c ==> !#[trigger] anti_run(cells, mark, cc, k as int),
        decreases n - c,
    {
        if run_at_anti(board, mark, c, k) {
            proof {
                assert(anti_run(cells, mark, c as int, k as int));
            }
            return true;
        }
        c = c + 1;
    }
    proof {
        if anti_win(cells, mark, k as int) {
            let cc = choose|cc: int| #[trigger] anti_run(cells, mark, cc, k as int);
            assert(!anti_run(cells, mark, cc, k as int));
        }
    }
    false
}

/// The end-game report for one state: a winner if some player has a
/// required-length run, else a tie exactly when no empty cell remains,
/// else not-over. (Cross is examined first; a well-formed session never
/// has two winners.)
pub open spec fn results_spec(s: TicTacToeState) -> EndGameState {
    if wins(s.spec_cells(), mark_of(PlayerId::Cross), s.spec_required()) {
        EndGameState::Winner(PlayerId::Cross)
    } else if wins(s.spec_cells(), mark_of(PlayerId::Circle), s.spec_required()) {
        EndGameState::Winner(PlayerId::Circle)
    } else if !has_empty(s.spec_cells()) {
        EndGameState::Tie
    } else {
        EndGameState::GameNotOver
    }
}

/// The checks a submitted action passes, in order: the position on the
/// board, turn ownership, the target cell free, moves remaining, the game
/// not yet concluded. The first failing check's error is the result.
pub open spec fn validate_spec(s: TicTacToeState, action: Action) -> Result<(), Error> {
    match action {
        Action::MarkBoard { player_id, pos } => {
            if pos.row >= s.spec_cells().len() || pos.column >= grid_column_len(s.spec_cells()) {
                Err(Error::CellAlreadyMarked)
            } else if s.spec_current() != player_id {
                Err(Error::NotPlayerTurn)
            } else if s.spec_cells()[pos.row as int][pos.column as int] != CellState::Empty {
                Err(Error::CellAlreadyMarked)
            } else if !has_empty(s.spec_cells()) {
                Err(Error::NoMovesAvailable)
            } else if results_spec(s) != EndGameState::GameNotOver {
                Err(Error::GameOver)
            } else {
                Ok(())
            }
        },
    }
}

/// Placing a mark cannot create a run for the other mark: a run that holds
/// in the new board avoids the changed cell, so it already held before.
proof fn lemma_mark_keeps_other_loss(
    cells: Seq<Seq<CellState>>,
    cells2: Seq<Seq<CellState>>,
    mark: CellState,
    m: CellState,
    row: int,
    col: int,
    k: int,
)
    requires
        grid_rect(cells),
        0 <= row < cells.len(),
        0 <= col < cells[row].len(),
        cells2 == cells.update(row, cells[row].update(col, mark)),
        m != mark,
        !wins(cells, m, k),
    ensures
        !wins(cells2, m, k),
{
    assert(cells2.len() == cells.len());
    assert(forall|r: int| 0 <= r < cells.len() ==> (#[trigger] cells2[r]).len() == cells[r].len());
    assert(grid_column_len(cells2) == grid_column_len(cells));
    assert(cells2[row][col] == mark);
    assert forall|r: int, c: int|
        0 <= r < cells.len() && 0 <= c < cells[r].len() && !(r == row && c == col)
            implies #[trigger] cells2[r][c] == cells[r][c] by {
        if r != row {
            assert(cells2[r] == cells[r]);
        }
    }
    assert forall|r0: int, c0: int| #[trigger] row_run(cells2, m, r0, c0, k) implies row_run(
        cells,
        m,
        r0,
        c0,
        k,
    ) by {
        assert forall|j: int| 0 <= j < k implies row_cell(cells, r0, c0, j) == m by {
            assert(row_cell(cells2, r0, c0, j) == m);
            if r0 == row && c0 + j == col {
                assert(cells2[row][col] == mark);
                assert(false);
            }
        }
    }
    assert forall|r0: int, c0: int| #[trigger] col_run(cells2, m, r0, c0, k) implies col_run(
        cells,
        m,
        r0,
        c0,
        k,
    ) by {
        assert forall|j: int| 0 <= j < k implies col_cell(cells, r0, c0, j) == m by {
            assert(col_cell(cells2, r0, c0, j) == m);
            assert(0 <= c0 < grid_column_len(cells));
            assert(cells[r0 + j].len() == grid_column_len(cells));
            if r0 + j == row && c0 == col {
                assert(cells2[row][col] == mark);
                assert(false);
            } else {
                assert(cells2[r0 + j].len() == cells[r0 + j].len());
            }
        }
    }
    assert forall|r0: int, c0: int| #[trigger] diag_run(cells2, m, r0, c0, k) implies diag_run(
        cells,
        m,
        r0,
        c0,
        k,
    ) by {
        assert forall|j: int| 0 <= j < k implies diag_cell(cells, r0, c0, j) == m by {
            assert(diag_cell(cells2, r0, c0, j) == m);
            assert(cells[r0 + j].len() == grid_column_len(cells));
            if r0 + j == row && c0 + j == col {
                assert(cells2[row][col] == mark);
                assert(false);
            }
        }
    }
    assert forall|c0: int| #[trigger] anti_run(cells2, m, c0, k) implies anti_run(
        cells,
        m,
        c0,
        k,
    ) by {
        assert forall|j: int| 0 <= j < k implies anti_cell(cells, c0, j) == m by {
            assert(anti_cell(cells2, c0, j) == m);
            assert(cells[j].len() == grid_column_len(cells));
            if j == row && c0 - j == col {
                assert(cells2[row][col] == mark);
                assert(false);
            }
        }
    }
    if wins(cells2, m, k) {
        if row_win(cells2, m, k) {
            let (r0, c0) = choose|r0: int, c0: int| #[trigger] row_run(cells2, m, r0, c0, k);
            assert(row_run(cells, m, r0, c0, k));
        } else if col_win(cells2, m, k) {
            let (r0, c0) = choose|r0: int, c0: int| #[trigger] col_run(cells2, m, r0, c0, k);
            assert(col_run(cells, m, r0, c0, k));
        } else if diag_win(cells2, m, k) {
            let (r0, c0) = choose|r0: int, c0: int| #[trigger] diag_run(cells2, m, r0, c0, k);
            assert(diag_run(cells, m, r0, c0, k));
        } else {
            let c0 = choose|c0: int| #[trigger] anti_run(cells2, m, c0, k);
            assert(anti_run(cells, m, c0, k));
        }
        assert(false);
    }
}

/// An all-empty board holds no winning run for anybody, so a freshly set
/// up session satisfies the engine's invariant.
pub proof fn lemma_empty_board_has_no_winner(cells: Seq<Seq<CellState>>, mark: CellState, k: int)
    requires
        grid_rect(cells),
        k >= 1,
        mark != CellState::Empty,
        forall|i: int, j: int|
            0 <= i < cells.len() && 0 <= j < cells[i].len() ==> #[trigger] cells[i][j]
                == CellState::Empty,
    ensures
        !wins(cells, mark, k),
{
    if row_win(cells, mark, k) {
        let (r, c) = choose|r: int, c: int| #[trigger] row_run(cells, mark, r, c, k);
        assert(row_cell(cells, r, c, 0) == mark);
        assert(cells[r][c] == CellState::Empty);
    }
    if col_win(cells, mark, k) {
        let (r, c) = choose|r: int, c: int| #[trigger] col_run(cells, mark, r, c, k);
        assert(col_cell(cells, r, c, 0) == mark);
        assert(cells[r].len() == grid_column_len(cells));
        assert(cells[r][c] == CellState::Empty);
    }
    if diag_win(cells, mark, k) {
        let (r, c) = choose|r: int, c: int| #[trigger] diag_run(cells, mark, r, c, k);
        assert(diag_cell(cells, r, c, 0) == mark);
        assert(cells[r].len() == grid_column_len(cells));
        assert(cells[r][c] == CellState::Empty);
    }
    if anti_win(cells, mark, k) {
        let c = choose|c: int| #[trigger] anti_run(cells, mark, c, k);
        assert(anti_cell(cells, c, 0) == mark);
        assert(cells[0].len() == grid_column_len(cells));
        assert(cells[0][c] == CellState::Empty);
    }
}

/// An action that was just applied is rejected when validated again on the
/// resulting state: the turn has passed to the other player, so the check
/// on turn ownership fails (before the freshly occupied target cell would
/// be reported), and no double application is possible.
pub proof fn lemma_no_double_application(
    s: TicTacToeState,
    s2: TicTacToeState,
    player_id: PlayerId,
    pos: Position,
)
    requires
        s.wf(),
        validate_spec(s, Action::MarkBoard { player_id, pos }) is Ok,
        s2.spec_cells() == s.spec_cells().update(
            pos.row as int,
            s.spec_cells()[pos.row as int].update(pos.column as int, mark_of(player_id)),
        ),
        s2.spec_current() == other_player(player_id),
    ensures
        validate_spec(s2, Action::MarkBoard { player_id, pos }) == Err::<(), Error>(
            Error::NotPlayerTurn,
        ),
        s2.spec_cells()[pos.row as int][pos.column as int] != CellState::Empty,
{
    assert(s2.spec_cells().len() == s.spec_cells().len());
    assert(s2.spec_cells()[pos.row as int].len() == s.spec_cells()[pos.row as int].len());
    assert(grid_column_len(s2.spec_cells()) == grid_column_len(s.spec_cells()));
    assert(s2.spec_cells()[pos.row as int][pos.column as int] == mark_of(player_id));
}

/// The end-game report is exclusive and stable: a state never counts as
/// both won and drawn — a tie is reported exactly when nobody holds a
/// winning run and no empty cell remains — and the report is a function of
/// the state alone, so repeated queries with no intervening action agree.
pub proof fn lemma_results_exclusive_and_stable(
    s: TicTacToeState,
    first: EndGameState,
    second: EndGameState,
)
    requires
        first == results_spec(s),
        second == results_spec(s),
    ensures
        first == second,
        !(first is Winner && first is Tie),
        first is Tie ==> !wins(s.spec_cells(), mark_of(PlayerId::Cross), s.spec_required())
            && !wins(s.spec_cells(), mark_of(PlayerId::Circle), s.spec_required()) && !has_empty(
            s.spec_cells(),
        ),
        first matches EndGameState::Winner(p) ==> wins(
            s.spec_cells(),
            mark_of(p),
            s.spec_required(),
        ),
{
}

/// Drives one tic-tac-toe session: validates and applies actions against
/// its state and reports the end-game status.
pub struct TicTacToeEngine {
    state: TicTacToeState,
}

impl TicTacToeEngine {
    /// The session state the engine drives.
    pub closed spec fn spec_state(&self) -> TicTacToeState {
        self.state
    }

    /// A usable engine: a well-formed state on which the two players do not
    /// both hold a winning run.
    pub open spec fn inv(&self) -> bool {
        &&& self.spec_state().wf()
        &&& !(wins(
            self.spec_state().spec_cells(),
            mark_of(PlayerId::Cross),
            self.spec_state().spec_required(),
        ) && wins(
            self.spec_state().spec_cells(),
            mark_of(PlayerId::Circle),
            self.spec_state().spec_required(),
        ))
    }

    pub fn new(state: TicTacToeState) -> (r: Self)
        ensures
            r.spec_state() == state,
    {
        Self { state }
    }

    /// Whether `player_id` holds a winning run in the current state.
    fn player_result(&self, player_id: PlayerId) -> (r: EndGameState)
        requires
            self.spec_state().wf(),
        ensures
            r == (if wins(
                self.spec_state().spec_cells(),
                mark_of(player_id),
                self.spec_state().spec_required(),
            ) {
                EndGameState::Winner(player_id)
            } else {
                EndGameState::GameNotOver
            }),
    {
        let player_mark = match player_id {
            PlayerId::Circle => CellState::Circle,
            PlayerId::Cross => CellState::Cross,
        };

        let board = &self.state.board;
        let required_sequence_length = self.state.required_sequence_length;

        if check_row_win(board, player_mark, required_sequence_length) {
            return EndGameState::Winner(player_id);
        }
        if check_col_win(board, player_mark, required_sequence_length) {
            return EndGameState::Winner(player_id);
        }
        if check_diag_win(board, player_mark, required_sequence_length) {
            return EndGameState::Winner(player_id);
        }
        if check_anti_win(board, player_mark, required_sequence_length) {
            return EndGameState::Winner(player_id);
        }
        EndGameState::GameNotOver
    }

    /// Whether any cell of the board is still empty.
    pub fn has_empty_cell(&self) -> (b: bool)
        ensures
            b == has_empty(self.spec_state().spec_cells()),
    {
        let ghost cells = self.spec_state().spec_cells();
        let rows_ref = self.state.board.rows();
        let n = rows_ref.len();
        proof {
            assert(nested_cells(*rows_ref) == cells);
        }
        let mut i: usize = 0;
        while i < n
            invariant
                cells == self.spec_state().spec_cells(),
                nested_cells(*rows_ref) == cells,
                n == cells.len(),
                i <= n,
                forall|a: int, b: int|
                    0 <= a < i && 0 <= b < cells[a].len() ==> #[trigger] cells[a][b]
                        != CellState::Empty,
            decreases n - i,
        {
            let row = &rows_ref[i];
            proof {
                assert(row@ == cells[i as int]);
            }
            let m = row.len();
            let mut j: usize = 0;
            while j < m
                invariant
                    cells == self.spec_state().spec_cells(),
                    row@ == cells[i as int],
                    i < cells.len(),
                    m == cells[i as int].len(),
                    j <= m,
                    forall|b: int|
                        0 <= b < j ==> #[trigger] cells[i as int][b] != CellState::Empty,
                decreases m - j,
            {
                if row[j] == CellState::Empty {
                    proof {
                        assert(cells[i as int][j as int] == CellState::Empty);
                    }
                    return true;
                }
                j = j + 1;
            }
            i = i + 1;
        }
        proof {
            if has_empty(cells) {
                let (a, b) = choose|a: int, b: int|
                    0 <= a < cells.len() && 0 <= b < cells[a].len() && #[trigger] cells[a][b]
                        == CellState::Empty;
                assert(cells[a][b] != CellState::Empty);
            }
        }
        false
    }

    /// The publicly visible state; always available.
    pub fn public_state(&self) -> (r: &TicTacToeState)
        ensures
            *r == self.spec_state(),
    {
        &self.state
    }

    /// The hidden fragments visible to one player: tic-tac-toe has none.
    pub fn private_state(&self, _user: &PlayerId) -> (r: Vec<()>)
        ensures
            r@.len() == 0,
    {
        Vec::new()
    }

    /// The player eligible to act next; recomputed from state, not cached.
    pub fn current_players(&self) -> (r: PlayerId)
        ensures
            r == self.spec_state().spec_current(),
    {
        self.state.current_player
    }

    /// The current end-game status, evaluated afresh from the state.
    pub fn results(&self) -> (r: EndGameState)
        requires
            self.inv(),
        ensures
            r == results_spec(self.spec_state()),
    {
        let cross = self.player_result(PlayerId::Cross);
        let circle = self.player_result(PlayerId::Circle);
        let result = match (cross, circle) {
            (EndGameState::GameNotOver, EndGameState::Winner(p)) => EndGameState::Winner(p),
            (EndGameState::Winner(p), EndGameState::GameNotOver) => EndGameState::Winner(p),
            (EndGameState::GameNotOver, EndGameState::GameNotOver) => EndGameState::GameNotOver,
            _ => {
                proof {
                    assert(false);
                }
                EndGameState::GameNotOver
            },
        };

        if !matches!(result, EndGameState::Winner(_)) && !self.has_empty_cell() {
            return EndGameState::Tie;
        }

        result
    }

    /// Checks an action without mutating, returning the first failing
    /// check's error as `validate_spec` lays the checks out.
    pub fn validate_action(&self, action: &Action) -> (r: Result<(), Error>)
        requires
            self.inv(),
        ensures
            r == validate_spec(self.spec_state(), *action),
    {
        match *action {
            Action::MarkBoard { player_id, pos } => {
                let state = &self.state;

                if pos.row >= state.board.row_len() || pos.column >= state.board.column_len() {
                    return Err(Error::CellAlreadyMarked);
                }

                if state.current_player != player_id {
                    return Err(Error::NotPlayerTurn);
                }

                let cell = match state.board.get(&(pos.row, pos.column)) {
                    Some(c) => *c,
                    None => {
                        proof {
                            assert(false);
                        }
                        CellState::Empty
                    },
                };
                if cell != CellState::Empty {
                    return Err(Error::CellAlreadyMarked);
                }
            },
        }

        if !self.has_empty_cell() {
            return Err(Error::NoMovesAvailable);
        }

        if self.results() != EndGameState::GameNotOver {
            return Err(Error::GameOver);
        }

        Ok(())
    }

    /// Re-validates and then applies the action in place:
    /// validate-then-apply, with no partial mutation on any failure. On
    /// success the addressed cell takes the actor's mark and the turn
    /// passes to the other player, so the eligible player always changes.
    pub fn apply_action(&mut self, action: Action) -> (r: Result<(), Error>)
        requires
            old(self).inv(),
        ensures
            r == validate_spec(old(self).spec_state(), action),
            r is Err ==> final(self).spec_state() == old(self).spec_state(),
            r is Ok ==> (action matches Action::MarkBoard { player_id, pos } && {
                &&& final(self).spec_state().spec_cells() == old(self).spec_state().spec_cells()
                    .update(
                    pos.row as int,
                    old(self).spec_state().spec_cells()[pos.row as int].update(
                        pos.column as int,
                        mark_of(player_id),
                    ),
                )
                &&& final(self).spec_state().spec_required() == old(
                    self,
                ).spec_state().spec_required()
                &&& final(self).spec_state().spec_current() == other_player(player_id)
                &&& final(self).spec_state().spec_current() != old(
                    self,
                ).spec_state().spec_current()
                &&& final(self).inv()
            }),
    {
        match self.validate_action(&action) {
            Err(e) => {
                return Err(e);
            },
            Ok(()) => {},
        }

        let ghost s0 = self.spec_state();

        match action {
            Action::MarkBoard { player_id, pos } => {
                match player_id {
                    PlayerId::Circle => {
                        match self.state.board.get_mut(&(pos.row, pos.column)) {
                            Some(m) => {
                                *m = CellState::Circle;
                            },
                            None => {
                                proof {
                                    assert(false);
                                }
                            },
                        }
                        self.state.current_player = PlayerId::Cross;
                    },
                    PlayerId::Cross => {
                        match self.state.board.get_mut(&(pos.row, pos.column)) {
                            Some(m) => {
                                *m = CellState::Cross;
                            },
                            None => {
                                proof {
                                    assert(false);
                                }
                            },
                        }
                        self.state.current_player = PlayerId::Circle;
                    },
                }
                proof {
                    let cells = s0.spec_cells();
                    let cells2 = self.spec_state().spec_cells();
                    let k = s0.spec_required();
                    assert(cells2 == cells.update(
                        pos.row as int,
                        cells[pos.row as int].update(pos.column as int, mark_of(player_id)),
                    ));
                    assert(forall|i: int|
                        0 <= i < cells.len() ==> (#[trigger] cells2[i]).len() == cells[i].len());
                    assert(grid_column_len(cells2) == grid_column_len(cells));
                    assert(self.spec_state().wf());
                    assert(!wins(cells, mark_of(PlayerId::Cross), k));
                    assert(!wins(cells, mark_of(PlayerId::Circle), k));
                    lemma_mark_keeps_other_loss(
                        cells,
                        cells2,
                        mark_of(player_id),
                        mark_of(other_player(player_id)),
                        pos.row as int,
                        pos.column as int,
                        k,
                    );
                    assert(self.inv());
                }
                Ok(())
            },
        }
    }
}

} // verus!
