//! The two-player game state machine.
//!
//! A `Game` owns one board, the winning run length, the player whose turn
//! it is, and — once a line has been completed — the winner together with
//! the cells of the winning line. Accepted drops strictly alternate the
//! current player; a set winner never changes again; the game is over
//! exactly when a winner is set or no column has a free cell.

use vstd::prelude::*;

use crate::board::{
    first_free_row, free_cells, lemma_board_full_iff_top_filled, lemma_first_free_row_after_fill,
    lemma_free_cells_update, lemma_wf_congruent, Board, CellState, InvalidColumnError, Player,
    MAX_DIM,
};
use crate::search::{
    candidates, check_winner, coords_view, first_win_at, has_win_through, lemma_candidates_props,
    lemma_window_cells_distinct, line_filled, search_ranges, window, window_in_bounds, Dir,
};

verus! {

/// Returned by a drop attempted after the game has ended.
#[derive(Clone, Copy, PartialEq, Eq, Structural, Debug)]
pub struct GameOverError;

/// The two recoverable failures of the mutation path. Either way the
/// game is left entirely unmodified.
#[derive(Clone, Copy, PartialEq, Eq, Structural, Debug)]
pub enum DropError {
    /// The chosen column does not exist or is already full.
    InvalidColumn(InvalidColumnError),
    /// The game already has a winner or a full board.
    GameOver(GameOverError),
}

/// The canonical serialization of a board's cell contents: one byte per
/// cell — `0` empty, `1` first player, `2` second player — ordered by
/// column and, within a column, by row from the bottom.
pub type State = Vec<u8>;

/// The byte encoding one cell in a serialized state.
pub open spec fn cell_code(c: CellState) -> u8 {
    match c {
        CellState::Empty => 0,
        CellState::Filled(Player::Player1) => 1,
        CellState::Filled(Player::Player2) => 2,
    }
}

/// The serialized form of a grid: equal cell contents always serialize
/// equally, whatever order of moves produced them.
pub open spec fn state_of(grid: Seq<Seq<CellState>>) -> Seq<u8> {
    let rows = grid[0].len() as int;
    Seq::new((grid.len() * grid[0].len()) as nat, |i: int| cell_code(grid[i / rows][i % rows]))
}

/// A gravity-drop connection game in progress or finished.
pub struct Game {
    board: Board,
    win_len: usize,
    current_player: Player,
    winner: Option<(Player, Vec<(usize, usize)>)>,
}

impl Game {
    /// The board.
    pub closed spec fn spec_board(&self) -> Board {
        self.board
    }

    /// The cell contents, as a sequence of columns.
    pub open spec fn grid(&self) -> Seq<Seq<CellState>> {
        self.spec_board()@
    }

    /// The number of columns.
    pub open spec fn spec_cols(&self) -> usize {
        self.spec_board().spec_cols()
    }

    /// The number of rows.
    pub open spec fn spec_rows(&self) -> usize {
        self.spec_board().spec_rows()
    }

    /// The winning run length.
    pub closed spec fn spec_win_len(&self) -> usize {
        self.win_len
    }

    /// The player who moves next (meaningful only while no winner is set).
    pub closed spec fn spec_current(&self) -> Player {
        self.current_player
    }

    /// The winner and the cells of the winning line, if a line has been
    /// completed.
    pub closed spec fn spec_winner(&self) -> Option<(Player, Seq<(usize, usize)>)> {
        match self.winner {
            None => None,
            Some((p, cells)) => Some((p, cells@)),
        }
    }

    /// Column `c` has no free cell left.
    pub open spec fn column_full(&self, c: int) -> bool {
        self.grid()[c][self.spec_rows() - 1] is Filled
    }

    /// No column has a free cell left.
    pub open spec fn board_full(&self) -> bool {
        forall|c: int| 0 <= c < self.spec_cols() ==> #[trigger] self.column_full(c)
    }

    /// The game is over: a winner is set, or the board is full.
    pub open spec fn game_over(&self) -> bool {
        self.spec_winner() is Some || self.board_full()
    }

    /// Well-formedness: the board is well formed, the winning length is a
    /// bounded positive number, and a set winner really owns a completed
    /// in-bounds line of exactly that length.
    pub open spec fn wf(&self) -> bool {
        &&& self.spec_board().wf()
        &&& 1 <= self.spec_win_len() <= MAX_DIM
        &&& match self.spec_winner() {
            None => true,
            Some((p, cells)) => {
                &&& cells.len() == self.spec_win_len()
                &&& window_in_bounds(
                    coords_view(cells),
                    self.spec_cols() as int,
                    self.spec_rows() as int,
                )
                &&& line_filled(self.grid(), p, coords_view(cells))
                &&& exists|d: Dir, c0: int, r0: int|
                    coords_view(cells) == #[trigger] window(
                        c0,
                        r0,
                        d,
                        self.spec_win_len() as int,
                    )
            },
        }
    }

    /// Two games carry the same abstract state.
    pub open spec fn congruent(&self, other: &Game) -> bool {
        &&& self.grid() == other.grid()
        &&& self.spec_cols() == other.spec_cols()
        &&& self.spec_rows() == other.spec_rows()
        &&& self.spec_win_len() == other.spec_win_len()
        &&& self.spec_current() == other.spec_current()
        &&& self.spec_winner() == other.spec_winner()
    }

    /// Creates a game on a `cols x rows` board that is won by completing
    /// a line of `win_length` tokens. The first player opens.
    pub fn custom(cols: usize, rows: usize, win_length: usize) -> (g: Game)
        requires
            1 <= cols <= MAX_DIM,
            1 <= rows <= MAX_DIM,
            1 <= win_length <= MAX_DIM,
        ensures
            g.wf(),
            g.spec_cols() == cols,
            g.spec_rows() == rows,
            g.spec_win_len() == win_length,
            g.spec_current() == Player::Player1,
            g.spec_winner() is None,
            forall|c: int, r: int| 0 <= c < cols && 0 <= r < rows ==> g.grid()[c][r] is Empty,
    {
        let board = Board::new(cols, rows);
        let g = Game { board, win_len: win_length, current_player: Player::Player1, winner: None };
        proof {
            assert forall|c: int, r: int| 0 <= c < cols && 0 <= r < rows implies g.grid()[c][r]
                is Empty by {
                assert(g.spec_board().cell(c, r) is Empty);
            }
        }
        g
    }

    /// Creates the default game: seven columns, six rows, four in a row.
    pub fn new() -> (g: Game)
        ensures
            g.wf(),
            g.spec_cols() == 7,
            g.spec_rows() == 6,
            g.spec_win_len() == 4,
            g.spec_current() == Player::Player1,
            g.spec_winner() is None,
            forall|c: int, r: int| 0 <= c < 7 && 0 <= r < 6 ==> g.grid()[c][r] is Empty,
    {
        Game::custom(7, 6, 4)
    }

    /// The number of columns.
    pub fn cols(&self) -> (r: usize)
        ensures
            r == self.spec_cols(),
    {
        self.board.cols()
    }

    /// The number of rows.
    pub fn rows(&self) -> (r: usize)
        ensures
            r == self.spec_rows(),
    {
        self.board.rows()
    }

    /// The winning run length.
    pub fn win_len(&self) -> (r: usize)
        ensures
            r == self.spec_win_len(),
    {
        self.win_len
    }

    /// The player who moves next.
    pub fn current_player(&self) -> (r: Player)
        ensures
            r == self.spec_current(),
    {
        self.current_player
    }

    /// The winner together with the cells of the winning line, if any.
    pub fn winner(&self) -> (r: Option<(Player, Vec<(usize, usize)>)>)
        ensures
            match r {
                None => self.spec_winner() is None,
                Some((p, cells)) => self.spec_winner() == Some((p, cells@)),
            },
    {
        match &self.winner {
            None => None,
            Some((p, cells)) => Some((*p, crate::search::clone_coords(cells))),
        }
    }

    /// Whether the game has ended, by a completed line or by a full board.
    pub fn over(&self) -> (r: bool)
        requires
            self.wf(),
        ensures
            r == self.game_over(),
    {
        if self.winner.is_some() {
            return true;
        }
        let rows = self.board.rows();
        let cols = self.board.cols();
        let mut c: usize = 0;
        while c < cols
            invariant
                self.wf(),
                self.spec_winner() is None,
                cols == self.spec_cols(),
                rows == self.spec_rows(),
                c <= cols,
                forall|cc: int| 0 <= cc < c ==> #[trigger] self.column_full(cc),
            decreases cols - c,
        {
            match self.board.token_at(c, rows - 1) {
                None => {
                    proof {
                        assert(!self.column_full(c as int));
                    }
                    return false;
                },
                Some(_) => (),
            }
            c += 1;
        }
        true
    }

    /// The columns that can still take a token, in ascending order.
    pub fn valid_moves(&self) -> (r: Vec<usize>)
        requires
            self.wf(),
        ensures
            forall|j: int|
                0 <= j < r@.len() ==> (#[trigger] r@[j]) < self.spec_cols() && !self.column_full(
                    r@[j] as int,
                ),
            forall|c: usize|
                c < self.spec_cols() && !self.column_full(c as int) ==> r@.contains(c),
            forall|j1: int, j2: int| 0 <= j1 < j2 < r@.len() ==> r@[j1] < r@[j2],
            r@.len() <= self.spec_cols(),
    {
        let rows = self.board.rows();
        let cols = self.board.cols();
        let mut r: Vec<usize> = Vec::new();
        let mut c: usize = 0;
        while c < cols
            invariant
                self.wf(),
                cols == self.spec_cols(),
                rows == self.spec_rows(),
                c <= cols,
                forall|j: int|
                    0 <= j < r@.len() ==> (#[trigger] r@[j]) < c && !self.column_full(r@[j] as int),
                forall|cc: usize| cc < c && !self.column_full(cc as int) ==> r@.contains(cc),
                forall|j1: int, j2: int| 0 <= j1 < j2 < r@.len() ==> r@[j1] < r@[j2],
                r@.len() <= c,
            decreases cols - c,
        {
            let ghost before = r@;
            match self.board.token_at(c, rows - 1) {
                None => {
                    r.push(c);
                    proof {
                        assert forall|cc: usize|
                            cc < c + 1 && !self.column_full(cc as int) implies r@.contains(cc) by {
                            if cc < c {
                                let j = choose|j: int| 0 <= j < before.len() && before[j] == cc;
                                assert(r@[j] == cc);
                            } else {
                                assert(r@[r@.len() - 1] == cc);
                            }
                        }
                    }
                },
                Some(_) => (),
            }
            c += 1;
        }
        r
    }

    /// A snapshot of the board, decoupled from the live game.
    pub fn board(&self) -> (r: Board)
        ensures
            r@ == self.grid(),
            r.spec_cols() == self.spec_cols(),
            r.spec_rows() == self.spec_rows(),
    {
        self.board.clone()
    }

    /// The canonical serialization of the current cell contents. Equal
    /// grids always yield equal states, independent of move order.
    pub fn state(&self) -> (r: State)
        requires
            self.wf(),
        ensures
            r@ == state_of(self.grid()),
            r@.len() == self.spec_cols() * self.spec_rows(),
    {
        let cols = self.board.cols();
        let rows = self.board.rows();
        let mut r: Vec<u8> = Vec::new();
        let mut c: usize = 0;
        while c < cols
            invariant
                self.wf(),
                cols == self.spec_cols(),
                rows == self.spec_rows(),
                c <= cols,
                r@.len() == c * rows,
                forall|i: int|
                    0 <= i < r@.len() ==> #[trigger] r@[i] == cell_code(
                        self.grid()[i / (rows as int)][i % (rows as int)],
                    ),
            decreases cols - c,
        {
            let mut ro: usize = 0;
            while ro < rows
                invariant
                    self.wf(),
                    cols == self.spec_cols(),
                    rows == self.spec_rows(),
                    c < cols,
                    ro <= rows,
                    r@.len() == c * rows + ro,
                    forall|i: int|
                        0 <= i < r@.len() ==> #[trigger] r@[i] == cell_code(
                            self.grid()[i / (rows as int)][i % (rows as int)],
                        ),
                decreases rows - ro,
            {
                let code: u8 = match self.board.token_at(c, ro) {
                    None => 0,
                    Some(Player::Player1) => 1,
                    Some(Player::Player2) => 2,
                };
                proof {
                    let idx = (c * rows + ro) as int;
                    assert(idx / (rows as int) == c && idx % (rows as int) == ro)
                        by (nonlinear_arith)
                        requires
                            rows >= 1,
                            ro < rows,
                            idx == c * rows + ro,
                    ;
                    assert(code == cell_code(self.grid()[c as int][ro as int]));
                }
                r.push(code);
                ro += 1;
            }
            c += 1;
            proof {
                assert(c * rows == (c - 1) * rows + rows) by (nonlinear_arith);
            }
        }
        proof {
            assert(r@ =~= state_of(self.grid())) by {
                assert(self.grid()[0].len() == rows);
                assert(r@.len() == cols * rows);
            }
        }
        r
    }

    /// Every candidate line of the winning length through `(col, row)`,
    /// in the fixed order in which win detection tests them.
    pub fn search_ranges(&self, col: usize, row: usize) -> (r: Vec<Vec<(usize, usize)>>)
        requires
            self.wf(),
            col < self.spec_cols(),
            row < self.spec_rows(),
        ensures
            r@.len() == candidates(
                self.spec_cols() as int,
                self.spec_rows() as int,
                self.spec_win_len() as int,
                col as int,
                row as int,
            ).len(),
            forall|i: int|
                0 <= i < r@.len() ==> coords_view(#[trigger] r@[i]@) == candidates(
                    self.spec_cols() as int,
                    self.spec_rows() as int,
                    self.spec_win_len() as int,
                    col as int,
                    row as int,
                )[i],
    {
        search_ranges(self.board.cols(), self.board.rows(), self.win_len, col, row)
    }

    /// Attempts to drop the current player's token into `col`.
    ///
    /// On a finished game the call fails with `GameOver`; on a missing or
    /// full column it fails with `InvalidColumn`; either failure leaves
    /// the game unchanged. Otherwise the token fills the lowest empty
    /// cell of the column and that row is returned; if this completes a
    /// line of the winning length through the new cell, the mover and
    /// the first complete candidate line (in generation order) are
    /// recorded as the winner; and the turn passes to the other player.
    pub fn drop(&mut self, col: usize) -> (r: Result<usize, DropError>)
        requires
            old(self).wf(),
        ensures
            final(self).wf(),
            final(self).spec_cols() == old(self).spec_cols(),
            final(self).spec_rows() == old(self).spec_rows(),
            final(self).spec_win_len() == old(self).spec_win_len(),
            match r {
                Err(DropError::GameOver(_)) => old(self).game_over() && final(self).congruent(
                    old(self),
                ),
                Err(DropError::InvalidColumn(_)) => {
                    &&& !old(self).game_over()
                    &&& col >= old(self).spec_cols() || old(self).column_full(col as int)
                    &&& final(self).congruent(old(self))
                },
                Ok(row) => {
                    &&& !old(self).game_over()
                    &&& col < old(self).spec_cols()
                    &&& !old(self).column_full(col as int)
                    &&& row == first_free_row(old(self).grid()[col as int])
                    &&& row < old(self).spec_rows()
                    &&& old(self).grid()[col as int][row as int] is Empty
                    &&& final(self).grid() == old(self).grid().update(
                        col as int,
                        old(self).grid()[col as int].update(
                            row as int,
                            CellState::Filled(old(self).spec_current()),
                        ),
                    )
                    &&& final(self).spec_current() == old(self).spec_current().spec_other()
                    &&& match final(self).spec_winner() {
                        None => !has_win_through(
                            final(self).grid(),
                            old(self).spec_cols() as int,
                            old(self).spec_rows() as int,
                            old(self).spec_win_len() as int,
                            old(self).spec_current(),
                            col as int,
                            row as int,
                        ),
                        Some((p, cells)) => {
                            &&& p == old(self).spec_current()
                            &&& exists|i: int|
                                #[trigger] first_win_at(
                                    final(self).grid(),
                                    old(self).spec_cols() as int,
                                    old(self).spec_rows() as int,
                                    old(self).spec_win_len() as int,
                                    p,
                                    col as int,
                                    row as int,
                                    i,
                                ) && coords_view(cells) == candidates(
                                    old(self).spec_cols() as int,
                                    old(self).spec_rows() as int,
                                    old(self).spec_win_len() as int,
                                    col as int,
                                    row as int,
                                )[i]
                        },
                    }
                },
            },
    {
        if self.over() {
            return Err(DropError::GameOver(GameOverError));
        }
        let mover = self.current_player;
        let ghost oldgrid = self.grid();
        let cols = self.board.cols();
        let rows = self.board.rows();
        proof {
            if col < cols {
                lemma_board_full_iff_top_filled(&self.board, col as int);
            }
        }
        let row = match self.board.drop(col, mover) {
            Err(e) => {
                return Err(DropError::InvalidColumn(e));
            },
            Ok(row) => row,
        };
        proof {
            lemma_candidates_props(
                cols as int,
                rows as int,
                self.spec_win_len() as int,
                col as int,
                row as int,
            );
        }
        match check_winner(&self.board, mover, self.win_len, col, row) {
            Some(cells) => {
                self.winner = Some((mover, cells));
            },
            None => (),
        }
        self.current_player = mover.other();
        proof {
            let lenw = self.spec_win_len() as int;
            match self.spec_winner() {
                None => (),
                Some((p, cells)) => {
                    let i = choose|i: int|
                        #[trigger] first_win_at(
                            self.grid(),
                            cols as int,
                            rows as int,
                            lenw,
                            p,
                            col as int,
                            row as int,
                            i,
                        ) && coords_view(cells) == candidates(
                            cols as int,
                            rows as int,
                            lenw,
                            col as int,
                            row as int,
                        )[i];
                    let w = candidates(cols as int, rows as int, lenw, col as int, row as int)[i];
                    assert(window_in_bounds(w, cols as int, rows as int));
                    assert(line_filled(self.grid(), p, w));
                    let (d, c0, r0) = choose|d: Dir, c0: int, r0: int|
                        w == #[trigger] window(c0, r0, d, lenw);
                    assert(coords_view(cells) == window(c0, r0, d, lenw));
                },
            }
        }
        Ok(row)
    }
}

impl Clone for Game {
    /// A deep copy carrying the same abstract state.
    fn clone(&self) -> (r: Game)
        ensures
            r.congruent(self),
            self.wf() ==> r.wf(),
    {
        let g = Game {
            board: self.board.clone(),
            win_len: self.win_len,
            current_player: self.current_player,
            winner: match &self.winner {
                None => None,
                Some((p, cells)) => Some((*p, crate::search::clone_coords(cells))),
            },
        };
        proof {
            if self.wf() {
                lemma_wf_congruent(&self.board, &g.board);
            }
        }
        g
    }
}

/// A successful drop fills exactly one cell: the count of free cells
/// goes down by one.
pub proof fn lemma_drop_decreases_free(g0: &Game, g1: &Game, col: int, row: int)
    requires
        g0.wf(),
        0 <= col < g0.spec_cols(),
        row == first_free_row(g0.grid()[col]),
        0 <= row < g0.spec_rows(),
        g1.grid() == g0.grid().update(
            col,
            g0.grid()[col].update(row, CellState::Filled(g0.spec_current())),
        ),
    ensures
        free_cells(g1.grid()) == free_cells(g0.grid()) - 1,
{
    let column = g0.grid()[col];
    assert forall|r1: int, r2: int|
        0 <= r1 < r2 < column.len() && #[trigger] column[r2] is Filled implies #[trigger] column[r1]
        is Filled by {
        assert(g0.spec_board().cell(col, r2) is Filled);
        assert(g0.spec_board().cell(col, r1) is Filled);
    }
    let newcol = column.update(row, CellState::Filled(g0.spec_current()));
    lemma_first_free_row_after_fill(column, row, g0.spec_current());
    lemma_free_cells_update(g0.grid(), col, newcol);
}

/// Completing a line wins: when all `win_len` cells of an in-bounds
/// window of family `d` hold tokens of player `p`, the win is visible
/// through any cell of that window — in particular through the cell the
/// completing move filled — so the drop that completed it reports `p`
/// as the winner (by the contract of `Game::drop`, whose winner is set
/// exactly when `has_win_through` holds at the new cell).
pub proof fn lemma_completed_line_wins(
    g: &Game,
    p: Player,
    d: crate::search::Dir,
    c0: int,
    r0: int,
    k: int,
)
    requires
        g.wf(),
        0 <= k < g.spec_win_len(),
        window_in_bounds(
            crate::search::window(c0, r0, d, g.spec_win_len() as int),
            g.spec_cols() as int,
            g.spec_rows() as int,
        ),
        line_filled(g.grid(), p, crate::search::window(c0, r0, d, g.spec_win_len() as int)),
    ensures
        has_win_through(
            g.grid(),
            g.spec_cols() as int,
            g.spec_rows() as int,
            g.spec_win_len() as int,
            p,
            c0 + k * crate::search::dcol(d),
            r0 + k * crate::search::drow(d),
        ),
{
    crate::search::lemma_completed_line_is_detected(
        g.grid(),
        p,
        d,
        g.spec_cols() as int,
        g.spec_rows() as int,
        g.spec_win_len() as int,
        c0,
        r0,
        k,
    );
}

/// A winner, once set, owns one completed in-bounds line of exactly the
/// winning length: `winner()` reports that player with exactly
/// `win_len` pairwise distinct coordinates, forming one contiguous
/// window of one of the four families, all filled by the winner's
/// tokens.
pub proof fn lemma_winner_owns_full_length_line(g: &Game)
    requires
        g.wf(),
        g.spec_winner() is Some,
    ensures
        ({
            let (p, cells) = g.spec_winner()->Some_0;
            &&& cells.len() == g.spec_win_len()
            &&& window_in_bounds(
                coords_view(cells),
                g.spec_cols() as int,
                g.spec_rows() as int,
            )
            &&& line_filled(g.grid(), p, coords_view(cells))
            &&& exists|d: Dir, c0: int, r0: int|
                coords_view(cells) == #[trigger] window(c0, r0, d, g.spec_win_len() as int)
            &&& forall|j1: int, j2: int|
                0 <= j1 < j2 < cells.len() ==> cells[j1] != cells[j2]
        }),
{
    let (p, cells) = g.spec_winner()->Some_0;
    let lenw = g.spec_win_len() as int;
    let (d, c0, r0) = choose|d: Dir, c0: int, r0: int|
        coords_view(cells) == #[trigger] window(c0, r0, d, lenw);
    lemma_window_cells_distinct(c0, r0, d, lenw);
    assert forall|j1: int, j2: int| 0 <= j1 < j2 < cells.len() implies cells[j1] != cells[j2] by {
        assert(window(c0, r0, d, lenw)[j1] != window(c0, r0, d, lenw)[j2]);
        assert(coords_view(cells)[j1] == (cells[j1].0 as int, cells[j1].1 as int));
        assert(coords_view(cells)[j2] == (cells[j2].0 as int, cells[j2].1 as int));
    }
}

/// Occupancy is always bottom-up contiguous: in a well-formed game no
/// filled cell ever sits above an empty cell of the same column.
pub proof fn lemma_occupancy_contiguous(g: &Game)
    requires
        g.wf(),
    ensures
        forall|c: int, r1: int, r2: int|
            0 <= c < g.spec_cols() && 0 <= r1 < r2 < g.spec_rows() && #[trigger] g.grid()[c][r2]
                is Filled ==> #[trigger] g.grid()[c][r1] is Filled,
{
    assert forall|c: int, r1: int, r2: int|
        0 <= c < g.spec_cols() && 0 <= r1 < r2 < g.spec_rows() && #[trigger] g.grid()[c][r2]
            is Filled implies #[trigger] g.grid()[c][r1] is Filled by {
        assert(g.spec_board().cell(c, r2) is Filled);
        assert(g.spec_board().cell(c, r1) is Filled);
    }
}

/// A full column stays full, and has no free cell: its first free row is
/// past the last row, so by the drop contract every further drop into it
/// fails with `InvalidColumn`.
pub proof fn lemma_full_column_has_no_free_cell(g: &Game, col: int)
    requires
        g.wf(),
        0 <= col < g.spec_cols(),
        g.column_full(col),
    ensures
        first_free_row(g.grid()[col]) == g.spec_rows(),
{
    lemma_board_full_iff_top_filled(&g.spec_board(), col);
}

/// A full column stays full: a successful drop goes to some other,
/// non-full column and leaves the full one untouched, so — with the
/// drop contract, which rejects a full column with `InvalidColumn` —
/// every further drop into it keeps failing.
pub proof fn lemma_full_column_stays_full(g0: &Game, g1: &Game, col: int, row: int, c: int)
    requires
        g0.wf(),
        0 <= c < g0.spec_cols(),
        g0.column_full(c),
        0 <= col < g0.spec_cols(),
        !g0.column_full(col),
        g1.spec_cols() == g0.spec_cols(),
        g1.spec_rows() == g0.spec_rows(),
        g1.grid() == g0.grid().update(
            col,
            g0.grid()[col].update(row, CellState::Filled(g0.spec_current())),
        ),
    ensures
        g1.column_full(c),
{
    assert(c != col);
    assert(g1.grid()[c] == g0.grid()[c]);
}

/// Win detection depends only on the cell contents and the geometry of
/// the last move — never on the order of the moves that produced them:
/// two games with equal grids and equal winning lengths agree on every
/// win query through any cell.
pub proof fn lemma_detection_depends_only_on_cells(
    g1: &Game,
    g2: &Game,
    p: Player,
    col: int,
    row: int,
)
    requires
        g1.wf(),
        g2.wf(),
        g1.grid() == g2.grid(),
        g1.spec_cols() == g2.spec_cols(),
        g1.spec_rows() == g2.spec_rows(),
        g1.spec_win_len() == g2.spec_win_len(),
    ensures
        has_win_through(
            g1.grid(),
            g1.spec_cols() as int,
            g1.spec_rows() as int,
            g1.spec_win_len() as int,
            p,
            col,
            row,
        ) == has_win_through(
            g2.grid(),
            g2.spec_cols() as int,
            g2.spec_rows() as int,
            g2.spec_win_len() as int,
            p,
            col,
            row,
        ),
        forall|i: int|
            first_win_at(
                g1.grid(),
                g1.spec_cols() as int,
                g1.spec_rows() as int,
                g1.spec_win_len() as int,
                p,
                col,
                row,
                i,
            ) == first_win_at(
                g2.grid(),
                g2.spec_cols() as int,
                g2.spec_rows() as int,
                g2.spec_win_len() as int,
                p,
                col,
                row,
                i,
            ),
{
}

/// A full board with no completed line is a tie: the game is over and
/// reports no winner.
pub proof fn lemma_full_board_without_line_is_tie(g: &Game)
    requires
        g.wf(),
        g.board_full(),
        g.spec_winner() is None,
    ensures
        g.game_over(),
        g.spec_winner() is None,
{
}

/// The serialized state is a function of the cell contents alone: two
/// games whose grids hold bit-identical cells serialize identically,
/// whatever move orders produced them.
pub proof fn lemma_state_deterministic(g1: &Game, g2: &Game)
    requires
        g1.grid() == g2.grid(),
    ensures
        state_of(g1.grid()) == state_of(g2.grid()),
{
}

} // verus!
