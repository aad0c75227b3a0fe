//! The grid of a gravity-drop connection game.
//!
//! A board is a fixed `cols x rows` grid of cells, each empty or filled by
//! one of the two players. Row `0` is the bottom row; a drop into a column
//! fills the lowest empty cell of that column, so within every column the
//! filled cells always form a contiguous run from the bottom upward.

use vstd::prelude::*;

verus! {

/// The largest accepted board dimension (columns, rows) and winning run
/// length. Keeping every dimension below this bound lets all coordinate
/// arithmetic stay comfortably inside `usize`.
pub const MAX_DIM: usize = 0x1000_0000;

/// One of the two players of the game.
#[derive(Copy, Clone, PartialEq, Eq, Structural, Debug)]
pub enum Player {
    Player1,
    Player2,
}

impl Player {
    /// The opponent of this player.
    pub open spec fn spec_other(self) -> Player {
        match self {
            Player::Player1 => Player::Player2,
            Player::Player2 => Player::Player1,
        }
    }

    /// Returns the opponent of this player.
    pub fn other(self) -> (r: Player)
        ensures
            r == self.spec_other(),
    {
        match self {
            Player::Player1 => Player::Player2,
            Player::Player2 => Player::Player1,
        }
    }
}

/// The contents of one cell: empty, or filled by a player's token.
/// Within one game a cell never reverts from filled to empty.
#[derive(Copy, Clone, PartialEq, Eq, Structural, Debug)]
pub enum CellState {
    Empty,
    Filled(Player),
}

impl CellState {
    /// Whether this cell holds a token of exactly this player.
    pub fn has(&self, token: Player) -> (r: bool)
        ensures
            r == (*self == CellState::Filled(token)),
    {
        match self {
            CellState::Filled(p) => *p == token,
            CellState::Empty => false,
        }
    }
}

/// Returned by a drop into a column that does not exist or is already full.
#[derive(Clone, Copy, PartialEq, Eq, Structural, Debug)]
pub struct InvalidColumnError;

/// The lowest row index of `column` that holds no token, counting filled
/// cells from the bottom; equals `column.len()` when the column is full.
pub open spec fn first_free_row(column: Seq<CellState>) -> int
    decreases column.len(),
{
    if column.len() == 0 {
        0
    } else if column[0] is Empty {
        0
    } else {
        1 + first_free_row(column.drop_first())
    }
}

/// A `cols x rows` grid of cells. The abstract value (the view) is a
/// sequence of columns, each a sequence of `rows` cells from bottom to top.
pub struct Board {
    cols: usize,
    rows: usize,
    cells: Vec<Vec<CellState>>,
}

impl View for Board {
    type V = Seq<Seq<CellState>>;

    closed spec fn view(&self) -> Seq<Seq<CellState>> {
        self.cells@.map_values(|column: Vec<CellState>| column@)
    }
}

impl Board {
    /// The number of columns.
    pub closed spec fn spec_cols(&self) -> usize {
        self.cols
    }

    /// The number of rows.
    pub closed spec fn spec_rows(&self) -> usize {
        self.rows
    }

    /// The cell at column `c`, row `r`.
    pub open spec fn cell(&self, c: int, r: int) -> CellState {
        self@[c][r]
    }

    /// Well-formedness: the grid has the declared dimensions, both are
    /// positive and bounded, and every column respects gravity: a filled
    /// cell never sits above an empty one.
    pub open spec fn wf(&self) -> bool {
        &&& 1 <= self.spec_cols() <= MAX_DIM
        &&& 1 <= self.spec_rows() <= MAX_DIM
        &&& self@.len() == self.spec_cols()
        &&& forall|c: int|
            0 <= c < self.spec_cols() ==> (#[trigger] self@[c]).len() == self.spec_rows()
        &&& forall|c: int, r1: int, r2: int|
            0 <= c < self.spec_cols() && 0 <= r1 < r2 < self.spec_rows() && #[trigger] self.cell(
                c,
                r2,
            ) is Filled ==> #[trigger] self.cell(c, r1) is Filled
    }

    /// Creates a board with all cells empty.
    pub fn new(cols: usize, rows: usize) -> (r: Board)
        requires
            1 <= cols <= MAX_DIM,
            1 <= rows <= MAX_DIM,
        ensures
            r.wf(),
            r.spec_cols() == cols,
            r.spec_rows() == rows,
            forall|c: int, ro: int| 0 <= c < cols && 0 <= ro < rows ==> r.cell(c, ro) is Empty,
    {
        let mut cells: Vec<Vec<CellState>> = Vec::new();
        let mut c: usize = 0;
        while c < cols
            invariant
                c <= cols,
                cells@.len() == c,
                forall|i: int| 0 <= i < c ==> (#[trigger] cells@[i])@.len() == rows,
                forall|i: int, ro: int|
                    0 <= i < c && 0 <= ro < rows ==> #[trigger] cells@[i]@[ro] is Empty,
            decreases cols - c,
        {
            let mut column: Vec<CellState> = Vec::new();
            let mut r: usize = 0;
            while r < rows
                invariant
                    r <= rows,
                    column@.len() == r,
                    forall|ro: int| 0 <= ro < r ==> column@[ro] is Empty,
                decreases rows - r,
            {
                column.push(CellState::Empty);
                r += 1;
            }
            cells.push(column);
            c += 1;
        }
        let b = Board { cols, rows, cells };
        assert forall|c0: int| 0 <= c0 < cols implies (#[trigger] b@[c0]).len() == rows by {
            assert(b@[c0] == b.cells@[c0]@);
        }
        assert forall|c0: int, ro: int| 0 <= c0 < cols && 0 <= ro < rows implies b.cell(
            c0,
            ro,
        ) is Empty by {
            assert(b@[c0] == b.cells@[c0]@);
        }
        b
    }

    /// The number of columns.
    pub fn cols(&self) -> (r: usize)
        ensures
            r == self.spec_cols(),
    {
        self.cols
    }

    /// The number of rows.
    pub fn rows(&self) -> (r: usize)
        ensures
            r == self.spec_rows(),
    {
        self.rows
    }

    /// The lowest empty row of column `col`, or `None` when the column is
    /// full.
    pub fn top(&self, col: usize) -> (r: Option<usize>)
        requires
            self.wf(),
            col < self.spec_cols(),
        ensures
            match r {
                Some(row) => row == first_free_row(self@[col as int]) && row
                    < self.spec_rows() && self.cell(col as int, row as int) is Empty && forall|
                    ro: int,
                |
                    0 <= ro < row ==> #[trigger] self.cell(col as int, ro) is Filled,
                None => first_free_row(self@[col as int]) == self.spec_rows() && forall|ro: int|
                    0 <= ro < self.spec_rows() ==> #[trigger] self.cell(col as int, ro) is Filled,
            },
    {
        let column = &self.cells[col];
        let ghost colseq = self@[col as int];
        proof {
            assert(colseq == column@);
        }
        proof {
            lemma_first_free_row_bounds(colseq);
        }
        let mut i: usize = 0;
        while i < self.rows
            invariant
                i <= self.rows,
                self.wf(),
                col < self.spec_cols(),
                colseq == column@,
                colseq == self@[col as int],
                colseq.len() == self.rows,
                forall|ro: int| 0 <= ro < i ==> #[trigger] colseq[ro] is Filled,
                first_free_row(colseq) >= i,
            decreases self.rows - i,
        {
            match column[i] {
                CellState::Empty => {
                    proof {
                        lemma_first_free_row_at(colseq, i as int);
                        assert(self.cell(col as int, i as int) == colseq[i as int]);
                        assert forall|ro: int| 0 <= ro < i implies #[trigger] self.cell(
                            col as int,
                            ro,
                        ) is Filled by {
                            assert(colseq[ro] is Filled);
                        }
                    }
                    return Some(i);
                },
                CellState::Filled(_) => {
                    proof {
                        lemma_first_free_row_past(colseq, i as int);
                    }
                },
            }
            i += 1;
        }
        proof {
            lemma_first_free_row_bounds(colseq);
        }
        None
    }

    /// The occupant of the cell at (`col`, `row`), if any.
    pub fn token_at(&self, col: usize, row: usize) -> (r: Option<Player>)
        requires
            self.wf(),
            col < self.spec_cols(),
            row < self.spec_rows(),
        ensures
            match r {
                Some(p) => self.cell(col as int, row as int) == CellState::Filled(p),
                None => self.cell(col as int, row as int) is Empty,
            },
    {
        match self.cells[col][row] {
            CellState::Empty => None,
            CellState::Filled(p) => Some(p),
        }
    }

    /// Drops a token into `col`: the lowest empty cell of that column
    /// becomes filled, and its row is returned. Fails with
    /// `InvalidColumnError`, leaving the board unchanged, exactly when the
    /// column does not exist or is already full.
    pub fn drop(&mut self, col: usize, token: Player) -> (r: Result<usize, InvalidColumnError>)
        requires
            old(self).wf(),
        ensures
            final(self).wf(),
            final(self).spec_cols() == old(self).spec_cols(),
            final(self).spec_rows() == old(self).spec_rows(),
            match r {
                Ok(row) => {
                    &&& col < old(self).spec_cols()
                    &&& row == first_free_row(old(self)@[col as int])
                    &&& row < old(self).spec_rows()
                    &&& old(self).cell(col as int, row as int) is Empty
                    &&& final(self)@ == old(self)@.update(
                        col as int,
                        old(self)@[col as int].update(row as int, CellState::Filled(token)),
                    )
                },
                Err(_) => {
                    &&& col >= old(self).spec_cols() || first_free_row(old(self)@[col as int])
                        == old(self).spec_rows()
                    &&& final(self)@ == old(self)@
                },
            },
    {
        if col >= self.cols {
            return Err(InvalidColumnError);
        }
        let row = match self.top(col) {
            None => {
                return Err(InvalidColumnError);
            },
            Some(row) => row,
        };
        let ghost before = self@;
        let ghost dims = (self.spec_cols(), self.spec_rows());
        let column = &mut self.cells[col];
        column.set(row, CellState::Filled(token));
        proof {
            let updated = before.update(
                col as int,
                before[col as int].update(row as int, CellState::Filled(token)),
            );
            assert(self@ =~= updated);
            let cols = dims.0 as int;
            let rows = dims.1 as int;
            assert forall|c0: int| 0 <= c0 < cols implies (#[trigger] self@[c0]).len() == rows by {
                if c0 != col as int {
                    assert(self@[c0] == before[c0]);
                }
            }
            assert forall|c0: int, r1: int, r2: int|
                0 <= c0 < cols && 0 <= r1 < r2 < rows && #[trigger] self.cell(
                    c0,
                    r2,
                ) is Filled implies #[trigger] self.cell(c0, r1) is Filled by {
                if c0 != col as int {
                    assert(self@[c0] == before[c0]);
                    assert(old(self).cell(c0, r2) is Filled);
                    assert(old(self).cell(c0, r1) is Filled);
                } else {
                    if r2 == row as int {
                        assert(old(self).cell(c0, r1) is Filled);
                    } else {
                        assert(old(self).cell(c0, r2) is Filled);
                        if r2 > row as int {
                            assert(old(self).cell(c0, row as int) is Filled);
                            assert(false);
                        }
                        assert(old(self).cell(c0, r1) is Filled);
                    }
                }
            }
        }
        Ok(row)
    }
}

impl Clone for Board {
    /// A deep copy with the same dimensions and the same cell contents.
    fn clone(&self) -> (r: Board)
        ensures
            r@ == self@,
            r.spec_cols() == self.spec_cols(),
            r.spec_rows() == self.spec_rows(),
    {
        let mut cells: Vec<Vec<CellState>> = Vec::new();
        let mut c: usize = 0;
        while c < self.cells.len()
            invariant
                c <= self.cells@.len(),
                cells@.len() == c,
                forall|i: int| 0 <= i < c ==> #[trigger] cells@[i]@ == self.cells@[i]@,
            decreases self.cells@.len() - c,
        {
            let source = &self.cells[c];
            let mut column: Vec<CellState> = Vec::new();
            let mut r: usize = 0;
            while r < source.len()
                invariant
                    r <= source@.len(),
                    column@ == source@.subrange(0, r as int),
                decreases source@.len() - r,
            {
                column.push(source[r]);
                proof {
                    assert(column@ =~= source@.subrange(0, r + 1 as int));
                }
                r += 1;
            }
            proof {
                assert(column@ =~= source@);
            }
            cells.push(column);
            c += 1;
        }
        let b = Board { cols: self.cols, rows: self.rows, cells };
        proof {
            assert(b@ =~= self@);
        }
        b
    }
}

/// If the cells of `column` below `i` are filled and `column[i]` is empty,
/// then `i` is the first free row.
proof fn lemma_first_free_row_at(column: Seq<CellState>, i: int)
    requires
        0 <= i < column.len(),
        column[i] is Empty,
        forall|ro: int| 0 <= ro < i ==> #[trigger] column[ro] is Filled,
    ensures
        first_free_row(column) == i,
    decreases i,
{
    if i > 0 {
        assert(column[0] is Filled);
        let tail = column.drop_first();
        assert forall|ro: int| 0 <= ro < i - 1 implies #[trigger] tail[ro] is Filled by {
            assert(column[ro + 1] is Filled);
        }
        lemma_first_free_row_at(tail, i - 1);
    }
}

/// If the cells of `column` up to and including `i` are filled, the first
/// free row lies above `i`.
proof fn lemma_first_free_row_past(column: Seq<CellState>, i: int)
    requires
        0 <= i < column.len(),
        forall|ro: int| 0 <= ro <= i ==> #[trigger] column[ro] is Filled,
    ensures
        first_free_row(column) >= i + 1,
    decreases i,
{
    assert(column[0] is Filled);
    lemma_first_free_row_bounds(column.drop_first());
    if i > 0 {
        let tail = column.drop_first();
        assert forall|ro: int| 0 <= ro <= i - 1 implies #[trigger] tail[ro] is Filled by {
            assert(column[ro + 1] is Filled);
        }
        lemma_first_free_row_past(tail, i - 1);
    }
}

/// Every cell below the first free row is filled.
pub proof fn lemma_first_free_row_filled_below(column: Seq<CellState>)
    ensures
        forall|r: int| 0 <= r < first_free_row(column) ==> #[trigger] column[r] is Filled,
    decreases column.len(),
{
    lemma_first_free_row_bounds(column);
    if column.len() > 0 && !(column[0] is Empty) {
        let tail = column.drop_first();
        lemma_first_free_row_filled_below(tail);
        assert forall|r: int| 0 <= r < first_free_row(column) implies #[trigger] column[r]
            is Filled by {
            if r > 0 {
                assert(tail[r - 1] is Filled);
                assert(column[r] == tail[r - 1]);
            }
        }
    }
}

/// When a column is not full, the cell at its first free row is empty.
pub proof fn lemma_first_free_row_is_empty(column: Seq<CellState>)
    requires
        first_free_row(column) < column.len(),
    ensures
        column[first_free_row(column)] is Empty,
    decreases column.len(),
{
    if column.len() > 0 && !(column[0] is Empty) {
        let tail = column.drop_first();
        lemma_first_free_row_bounds(tail);
        lemma_first_free_row_is_empty(tail);
        assert(column[first_free_row(column)] == tail[first_free_row(tail)]);
    }
}

/// Under gravity, a column is full exactly when its top cell is filled.
pub proof fn lemma_full_iff_top_filled(column: Seq<CellState>)
    requires
        column.len() >= 1,
        forall|r1: int, r2: int|
            0 <= r1 < r2 < column.len() && #[trigger] column[r2] is Filled
                ==> #[trigger] column[r1] is Filled,
    ensures
        first_free_row(column) == column.len() <==> column[column.len() - 1] is Filled,
{
    let len = column.len() as int;
    if first_free_row(column) == len {
        lemma_first_free_row_filled_below(column);
        assert(column[len - 1] is Filled);
    }
    if column[len - 1] is Filled {
        assert forall|ro: int| 0 <= ro <= len - 1 implies #[trigger] column[ro] is Filled by {
            if ro < len - 1 {
                assert(column[len - 1] is Filled);
            }
        }
        lemma_first_free_row_past(column, len - 1);
        lemma_first_free_row_bounds(column);
    }
}

/// The number of free cells of a grid: per column, the cells at and
/// above the first free row.
pub open spec fn free_cells(grid: Seq<Seq<CellState>>) -> int
    decreases grid.len(),
{
    if grid.len() == 0 {
        0
    } else {
        free_cells(grid.drop_last()) + (grid.last().len() - first_free_row(grid.last()))
    }
}

/// A grid never has a negative number of free cells.
pub proof fn lemma_free_cells_nonneg(grid: Seq<Seq<CellState>>)
    ensures
        free_cells(grid) >= 0,
    decreases grid.len(),
{
    if grid.len() > 0 {
        lemma_free_cells_nonneg(grid.drop_last());
        lemma_first_free_row_bounds(grid.last());
    }
}

/// A column with a free cell makes the whole grid's count positive.
pub proof fn lemma_free_cells_positive(grid: Seq<Seq<CellState>>, c: int)
    requires
        0 <= c < grid.len(),
        first_free_row(grid[c]) < grid[c].len(),
    ensures
        free_cells(grid) > 0,
    decreases grid.len(),
{
    lemma_first_free_row_bounds(grid.last());
    if c == grid.len() - 1 {
        lemma_free_cells_nonneg(grid.drop_last());
    } else {
        lemma_free_cells_positive(grid.drop_last(), c);
    }
}

/// Replacing one column changes the count by that column's difference.
pub proof fn lemma_free_cells_update(grid: Seq<Seq<CellState>>, c: int, newcol: Seq<CellState>)
    requires
        0 <= c < grid.len(),
    ensures
        free_cells(grid.update(c, newcol)) == free_cells(grid) - (grid[c].len() - first_free_row(
            grid[c],
        )) + (newcol.len() - first_free_row(newcol)),
    decreases grid.len(),
{
    let upd = grid.update(c, newcol);
    if c == grid.len() - 1 {
        assert(upd.last() == newcol);
        assert(upd.drop_last() =~= grid.drop_last());
    } else {
        assert(upd.last() == grid.last());
        assert(upd.drop_last() =~= grid.drop_last().update(c, newcol));
        lemma_free_cells_update(grid.drop_last(), c, newcol);
    }
}

/// A grid of equal-height columns has at most `columns x rows` free
/// cells.
pub proof fn lemma_free_cells_bounded(grid: Seq<Seq<CellState>>, rows: int)
    requires
        rows >= 0,
        forall|c: int| 0 <= c < grid.len() ==> (#[trigger] grid[c]).len() == rows,
    ensures
        free_cells(grid) <= grid.len() * rows,
    decreases grid.len(),
{
    if grid.len() == 0 {
        assert(grid.len() * rows == 0) by (nonlinear_arith)
            requires
                grid.len() == 0,
        ;
    } else {
        let head = grid.drop_last();
        assert forall|c: int| 0 <= c < head.len() implies (#[trigger] head[c]).len() == rows by {
            assert(head[c] == grid[c]);
        }
        lemma_free_cells_bounded(head, rows);
        lemma_first_free_row_bounds(grid.last());
        assert(grid.last().len() == rows);
        assert(head.len() * rows + rows == grid.len() * rows) by (nonlinear_arith)
            requires
                head.len() == grid.len() - 1,
        ;
    }
}

/// Filling the first free cell of a gravity-respecting column raises its
/// first free row by exactly one.
pub proof fn lemma_first_free_row_after_fill(column: Seq<CellState>, row: int, p: Player)
    requires
        forall|r1: int, r2: int|
            0 <= r1 < r2 < column.len() && #[trigger] column[r2] is Filled
                ==> #[trigger] column[r1] is Filled,
        row == first_free_row(column),
        0 <= row < column.len(),
    ensures
        first_free_row(column.update(row, CellState::Filled(p))) == row + 1,
{
    let newcol = column.update(row, CellState::Filled(p));
    lemma_first_free_row_filled_below(column);
    lemma_first_free_row_is_empty(column);
    assert(column[row] is Empty);
    if row + 1 < column.len() {
        assert(newcol[row + 1] is Empty) by {
            if column[row + 1] is Filled {
                assert(column[row] is Filled);
            }
        }
        assert forall|ro: int| 0 <= ro < row + 1 implies #[trigger] newcol[ro] is Filled by {
            if ro < row {
                assert(column[ro] is Filled);
            }
        }
        lemma_first_free_row_at(newcol, row + 1);
    } else {
        assert forall|ro: int| 0 <= ro <= newcol.len() - 1 implies #[trigger] newcol[ro]
            is Filled by {
            if ro < row {
                assert(column[ro] is Filled);
            }
        }
        lemma_first_free_row_past(newcol, newcol.len() - 1);
        lemma_first_free_row_bounds(newcol);
    }
}

/// On a well-formed board, a column is full exactly when its top cell is
/// filled.
pub proof fn lemma_board_full_iff_top_filled(b: &Board, col: int)
    requires
        b.wf(),
        0 <= col < b.spec_cols(),
    ensures
        first_free_row(b@[col]) == b.spec_rows() <==> b@[col][b.spec_rows() - 1] is Filled,
{
    let column = b@[col];
    assert forall|r1: int, r2: int|
        0 <= r1 < r2 < column.len() && #[trigger] column[r2] is Filled implies #[trigger] column[r1]
        is Filled by {
        assert(b.cell(col, r2) is Filled);
        assert(b.cell(col, r1) is Filled);
    }
    lemma_full_iff_top_filled(column);
}

/// Well-formedness depends only on the abstract value: a board with the
/// same cells and the same dimensions as a well-formed board is itself
/// well formed.
pub proof fn lemma_wf_congruent(a: &Board, b: &Board)
    requires
        a.wf(),
        b@ == a@,
        b.spec_cols() == a.spec_cols(),
        b.spec_rows() == a.spec_rows(),
    ensures
        b.wf(),
{
    assert forall|c: int| 0 <= c < b.spec_cols() implies (#[trigger] b@[c]).len()
        == b.spec_rows() by {
        assert(b@[c] == a@[c]);
    }
    assert forall|c: int, r1: int, r2: int|
        0 <= c < b.spec_cols() && 0 <= r1 < r2 < b.spec_rows() && #[trigger] b.cell(c, r2)
            is Filled implies #[trigger] b.cell(c, r1) is Filled by {
        assert(a.cell(c, r2) == b.cell(c, r2));
        assert(a.cell(c, r1) == b.cell(c, r1));
    }
}

/// The first free row always lies between `0` and the column length.
pub proof fn lemma_first_free_row_bounds(column: Seq<CellState>)
    ensures
        0 <= first_free_row(column) <= column.len(),
    decreases column.len(),
{
    if column.len() > 0 && !(column[0] is Empty) {
        lemma_first_free_row_bounds(column.drop_first());
    }
}

} // verus!
