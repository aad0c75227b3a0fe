//! Win detection along the lines through the most recent move.
//!
//! After a token lands at `(col, row)`, only lines that pass through that
//! cell can have just been completed. This module enumerates, eagerly and
//! in a fixed deterministic order, every candidate line of the winning
//! length that passes through the cell and stays on the board, in four
//! families: vertical, horizontal, rising diagonal and falling diagonal.
//! A candidate is checked by testing whether all of its cells hold the
//! mover's token; the first complete candidate, in generation order, is
//! the reported win.

use vstd::prelude::*;

use crate::board::{Board, CellState, Player, MAX_DIM};

verus! {

/// One of the four line families through a cell.
#[derive(Copy, Clone, PartialEq, Eq, Structural, Debug)]
pub enum Dir {
    /// Same column, rows increasing.
    Vert,
    /// Same row, columns increasing.
    Horiz,
    /// Columns and rows both increasing.
    DiagUp,
    /// Columns increasing, rows decreasing.
    DiagDown,
}

/// Column step of a family.
pub open spec fn dcol(d: Dir) -> int {
    match d {
        Dir::Vert => 0,
        Dir::Horiz => 1,
        Dir::DiagUp => 1,
        Dir::DiagDown => 1,
    }
}

/// Row step of a family.
pub open spec fn drow(d: Dir) -> int {
    match d {
        Dir::Vert => 1,
        Dir::Horiz => 0,
        Dir::DiagUp => 1,
        Dir::DiagDown => -1,
    }
}

/// The `len` cells of the line starting at `(c0, r0)` and moving one step
/// of family `d` at a time.
pub open spec fn window(c0: int, r0: int, d: Dir, len: int) -> Seq<(int, int)> {
    Seq::new(len as nat, |j: int| (c0 + j * dcol(d), r0 + j * drow(d)))
}

/// The coordinates of an executable candidate, as mathematical integers.
pub open spec fn coords_view(s: Seq<(usize, usize)>) -> Seq<(int, int)> {
    Seq::new(s.len(), |i: int| (s[i].0 as int, s[i].1 as int))
}

/// Every cell of `w` lies on a `cols x rows` board.
pub open spec fn window_in_bounds(w: Seq<(int, int)>, cols: int, rows: int) -> bool {
    forall|j: int|
        0 <= j < w.len() ==> 0 <= (#[trigger] w[j]).0 < cols && 0 <= w[j].1 < rows
}

/// Every cell of `w` holds a token of player `p` on `grid`.
pub open spec fn line_filled(grid: Seq<Seq<CellState>>, p: Player, w: Seq<(int, int)>) -> bool {
    forall|j: int|
        0 <= j < w.len() ==> grid[(#[trigger] w[j]).0][w[j].1] == CellState::Filled(p)
}

/// A candidate window of family `d` through `(col, row)` is determined by
/// the offset `k` of `(col, row)` within it: the window starts `k` steps
/// before the cell. `k_lo` is the smallest offset whose window stays on
/// the board.
pub open spec fn k_lo(d: Dir, cols: int, rows: int, len: int, col: int, row: int) -> int {
    let c_bound = if dcol(d) == 1 {
        vstd::math::max(0, col + len - cols)
    } else {
        0
    };
    if drow(d) == 1 {
        vstd::math::max(c_bound, row + len - rows)
    } else if drow(d) == -1 {
        vstd::math::max(c_bound, len - 1 - row)
    } else {
        c_bound
    }
}

/// The largest offset of `(col, row)` whose window of family `d` stays on
/// the board.
pub open spec fn k_hi(d: Dir, cols: int, rows: int, len: int, col: int, row: int) -> int {
    let c_bound = if dcol(d) == 1 {
        vstd::math::min(len - 1, col)
    } else {
        len - 1
    };
    if drow(d) == 1 {
        vstd::math::min(c_bound, row)
    } else if drow(d) == -1 {
        vstd::math::min(c_bound, rows - 1 - row)
    } else {
        c_bound
    }
}

/// All candidate windows of family `d` through `(col, row)`, ordered by
/// ascending start coordinate (descending offset `k`).
pub open spec fn family(d: Dir, cols: int, rows: int, len: int, col: int, row: int) -> Seq<
    Seq<(int, int)>,
> {
    let lo = k_lo(d, cols, rows, len, col, row);
    let hi = k_hi(d, cols, rows, len, col, row);
    if lo <= hi {
        Seq::new(
            (hi + 1 - lo) as nat,
            |i: int| window(col - (hi - i) * dcol(d), row - (hi - i) * drow(d), d, len),
        )
    } else {
        Seq::empty()
    }
}

/// Every candidate line of length `len` through `(col, row)`, all four
/// families concatenated in the fixed generation order: vertical,
/// horizontal, rising diagonal, falling diagonal.
pub open spec fn candidates(cols: int, rows: int, len: int, col: int, row: int) -> Seq<
    Seq<(int, int)>,
> {
    family(Dir::Vert, cols, rows, len, col, row) + family(Dir::Horiz, cols, rows, len, col, row)
        + family(Dir::DiagUp, cols, rows, len, col, row) + family(
        Dir::DiagDown,
        cols,
        rows,
        len,
        col,
        row,
    )
}

/// Some candidate line of length `len` through `(col, row)` is completely
/// filled by player `p` on `grid`.
pub open spec fn has_win_through(
    grid: Seq<Seq<CellState>>,
    cols: int,
    rows: int,
    len: int,
    p: Player,
    col: int,
    row: int,
) -> bool {
    exists|i: int|
        0 <= i < candidates(cols, rows, len, col, row).len() && line_filled(
            grid,
            p,
            #[trigger] candidates(cols, rows, len, col, row)[i],
        )
}

/// Basic facts about every candidate window: it has the winning length,
/// stays on the board, and passes through `(col, row)`.
pub proof fn lemma_candidates_props(cols: int, rows: int, len: int, col: int, row: int)
    requires
        0 <= col < cols,
        0 <= row < rows,
        1 <= len,
    ensures
        forall|i: int|
            0 <= i < candidates(cols, rows, len, col, row).len() ==> {
                let w = #[trigger] candidates(cols, rows, len, col, row)[i];
                &&& w.len() == len
                &&& window_in_bounds(w, cols, rows)
                &&& exists|j: int| 0 <= j < len && w[j] == (col, row)
                &&& exists|d: Dir, c0: int, r0: int| w == #[trigger] window(c0, r0, d, len)
            },
{
    lemma_family_props(Dir::Vert, cols, rows, len, col, row);
    lemma_family_props(Dir::Horiz, cols, rows, len, col, row);
    lemma_family_props(Dir::DiagUp, cols, rows, len, col, row);
    lemma_family_props(Dir::DiagDown, cols, rows, len, col, row);
    let fv = family(Dir::Vert, cols, rows, len, col, row);
    let fh = family(Dir::Horiz, cols, rows, len, col, row);
    let fu = family(Dir::DiagUp, cols, rows, len, col, row);
    let fd = family(Dir::DiagDown, cols, rows, len, col, row);
    let all = candidates(cols, rows, len, col, row);
    assert forall|i: int| 0 <= i < all.len() implies {
        let w = #[trigger] all[i];
        &&& w.len() == len
        &&& window_in_bounds(w, cols, rows)
        &&& exists|j: int| 0 <= j < len && w[j] == (col, row)
        &&& exists|d: Dir, c0: int, r0: int| w == #[trigger] window(c0, r0, d, len)
    } by {
        if i < fv.len() {
            assert(all[i] == fv[i]);
        } else if i < fv.len() + fh.len() {
            assert(all[i] == fh[i - fv.len()]);
        } else if i < fv.len() + fh.len() + fu.len() {
            assert(all[i] == fu[i - fv.len() - fh.len()]);
        } else {
            assert(all[i] == fd[i - fv.len() - fh.len() - fu.len()]);
        }
    }
}

/// The per-family statement of `lemma_candidates_props`.
pub open spec fn family_props_hold(
    d: Dir,
    cols: int,
    rows: int,
    len: int,
    col: int,
    row: int,
) -> bool {
    forall|i: int|
        0 <= i < family(d, cols, rows, len, col, row).len() ==> {
            let w = #[trigger] family(d, cols, rows, len, col, row)[i];
            &&& w.len() == len
            &&& window_in_bounds(w, cols, rows)
            &&& exists|j: int| 0 <= j < len && w[j] == (col, row)
            &&& exists|c0: int, r0: int| w == #[trigger] window(c0, r0, d, len)
        }
}

/// Every window of a family has the winning length, stays on the board,
/// and passes through `(col, row)`.
#[verifier::rlimit(50)]
pub proof fn lemma_family_props(d: Dir, cols: int, rows: int, len: int, col: int, row: int)
    requires
        0 <= col < cols,
        0 <= row < rows,
        1 <= len,
    ensures
        family_props_hold(d, cols, rows, len, col, row),
{
    let lo = k_lo(d, cols, rows, len, col, row);
    let hi = k_hi(d, cols, rows, len, col, row);
    let fam = family(d, cols, rows, len, col, row);
    if lo <= hi {
        assert forall|i: int| 0 <= i < fam.len() implies {
            let w = #[trigger] fam[i];
            &&& w.len() == len
            &&& window_in_bounds(w, cols, rows)
            &&& exists|j: int| 0 <= j < len && w[j] == (col, row)
        } by {
            let k = hi - i;
            let w = fam[i];
            assert(w == window(col - k * dcol(d), row - k * drow(d), d, len));
            assert(0 <= k <= len - 1);
            assert forall|j: int| 0 <= j < len implies 0 <= (#[trigger] w[j]).0 < cols
                && 0 <= w[j].1 < rows by {
                assert(w[j] == (col + (j - k) * dcol(d), row + (j - k) * drow(d))) by {
                    assert(col - k * dcol(d) + j * dcol(d) == col + (j - k) * dcol(d))
                        by (nonlinear_arith);
                    assert(row - k * drow(d) + j * drow(d) == row + (j - k) * drow(d))
                        by (nonlinear_arith);
                }
                let e = j - k;
                assert(e * 0 == 0 && e * 1 == e && e * -1 == -e) by (nonlinear_arith);
                match d {
                    Dir::Vert => {
                        assert(w[j].0 == col + e * 0 && w[j].1 == row + e * 1);
                        assert(w[j].0 == col);
                        assert(w[j].1 == row + e);
                    },
                    Dir::Horiz => {
                        assert(w[j].0 == col + e * 1 && w[j].1 == row + e * 0);
                        assert(w[j].0 == col + e);
                        assert(w[j].1 == row);
                    },
                    Dir::DiagUp => {
                        assert(w[j].0 == col + e * 1 && w[j].1 == row + e * 1);
                        assert(w[j].0 == col + e);
                        assert(w[j].1 == row + e);
                    },
                    Dir::DiagDown => {
                        assert(w[j].0 == col + e * 1 && w[j].1 == row + e * -1);
                        assert(w[j].0 == col + e);
                        assert(w[j].1 == row - e);
                    },
                }
            }
            assert(w[k] == (col + (k - k) * dcol(d), row + (k - k) * drow(d))) by {
                assert(col - k * dcol(d) + k * dcol(d) == col + (k - k) * dcol(d))
                    by (nonlinear_arith);
                assert(row - k * drow(d) + k * drow(d) == row + (k - k) * drow(d))
                    by (nonlinear_arith);
            }
            assert(w[k] == (col, row));
        }
    }
}

/// Completeness of the enumeration: any in-bounds window of family `d`
/// whose cell at offset `k` is `(col, row)` is one of the candidates
/// through `(col, row)`.
#[verifier::rlimit(50)]
pub proof fn lemma_window_is_candidate(
    d: Dir,
    cols: int,
    rows: int,
    len: int,
    col: int,
    row: int,
    k: int,
)
    requires
        0 <= col < cols,
        0 <= row < rows,
        1 <= len,
        0 <= k < len,
        window_in_bounds(window(col - k * dcol(d), row - k * drow(d), d, len), cols, rows),
    ensures
        exists|i: int|
            0 <= i < candidates(cols, rows, len, col, row).len() && #[trigger] candidates(
                cols,
                rows,
                len,
                col,
                row,
            )[i] == window(col - k * dcol(d), row - k * drow(d), d, len),
{
    let lo = k_lo(d, cols, rows, len, col, row);
    let hi = k_hi(d, cols, rows, len, col, row);
    let w = window(col - k * dcol(d), row - k * drow(d), d, len);
    assert forall|j: int| 0 <= j < len implies w[j] == (
        col + (j - k) * dcol(d),
        row + (j - k) * drow(d),
    ) by {
        assert(col - k * dcol(d) + j * dcol(d) == col + (j - k) * dcol(d)) by (nonlinear_arith);
        assert(row - k * drow(d) + j * drow(d) == row + (j - k) * drow(d)) by (nonlinear_arith);
    }
    // The first and last cells of the window pin the admissible offsets.
    let a = 0 - k;
    let b = len - 1 - k;
    assert(w[0] == (col + a * dcol(d), row + a * drow(d)));
    assert(w[len - 1] == (col + b * dcol(d), row + b * drow(d)));
    assert(a * 0 == 0 && a * 1 == a && a * -1 == -a) by (nonlinear_arith);
    assert(b * 0 == 0 && b * 1 == b && b * -1 == -b) by (nonlinear_arith);
    match d {
        Dir::Vert => {
            assert(w[0].1 == row - k && w[len - 1].1 == row + b);
            assert(0 <= row - k && row + b < rows);
        },
        Dir::Horiz => {
            assert(w[0].0 == col - k && w[len - 1].0 == col + b);
            assert(0 <= col - k && col + b < cols);
        },
        Dir::DiagUp => {
            assert(w[0].0 == col - k && w[len - 1].0 == col + b);
            assert(0 <= col - k && col + b < cols);
            assert(w[0].1 == row - k && w[len - 1].1 == row + b);
            assert(0 <= row - k && row + b < rows);
        },
        Dir::DiagDown => {
            assert(w[0].0 == col - k && w[len - 1].0 == col + b);
            assert(0 <= col - k && col + b < cols);
            assert(w[0].1 == row + k && w[len - 1].1 == row - b);
            assert(row + k < rows && 0 <= row - b);
        },
    }
    assert(lo <= k <= hi);
    let fam = family(d, cols, rows, len, col, row);
    let i0 = hi - k;
    assert(fam[i0] == window(col - (hi - i0) * dcol(d), row - (hi - i0) * drow(d), d, len));
    assert(fam[i0] == w);
    let fv = family(Dir::Vert, cols, rows, len, col, row);
    let fh = family(Dir::Horiz, cols, rows, len, col, row);
    let fu = family(Dir::DiagUp, cols, rows, len, col, row);
    let fd = family(Dir::DiagDown, cols, rows, len, col, row);
    let all = candidates(cols, rows, len, col, row);
    let base = match d {
        Dir::Vert => 0,
        Dir::Horiz => fv.len() as int,
        Dir::DiagUp => fv.len() as int + fh.len() as int,
        Dir::DiagDown => fv.len() as int + fh.len() as int + fu.len() as int,
    };
    assert(all[base + i0] == fam[i0]);
}

/// A completed in-bounds line is detected through any of its own cells:
/// if all `len` cells of an in-bounds window of family `d` hold tokens of
/// player `p`, then the cell at offset `k` of that window sees a win.
pub proof fn lemma_completed_line_is_detected(
    grid: Seq<Seq<CellState>>,
    p: Player,
    d: Dir,
    cols: int,
    rows: int,
    len: int,
    c0: int,
    r0: int,
    k: int,
)
    requires
        1 <= len,
        0 <= k < len,
        window_in_bounds(window(c0, r0, d, len), cols, rows),
        line_filled(grid, p, window(c0, r0, d, len)),
    ensures
        has_win_through(grid, cols, rows, len, p, c0 + k * dcol(d), r0 + k * drow(d)),
{
    let w = window(c0, r0, d, len);
    let col = c0 + k * dcol(d);
    let row = r0 + k * drow(d);
    assert(w[k] == (col, row));
    assert(0 <= col < cols && 0 <= row < rows);
    assert(col - k * dcol(d) == c0 && row - k * drow(d) == r0);
    assert(w == window(col - k * dcol(d), row - k * drow(d), d, len));
    lemma_window_is_candidate(d, cols, rows, len, col, row, k);
}

/// The cells of one window are pairwise distinct: every step moves by a
/// nonzero offset in at least one coordinate.
pub proof fn lemma_window_cells_distinct(c0: int, r0: int, d: Dir, len: int)
    ensures
        forall|j1: int, j2: int|
            0 <= j1 < j2 < len ==> (#[trigger] window(c0, r0, d, len)[j1]) != (#[trigger] window(
                c0,
                r0,
                d,
                len,
            )[j2]),
{
    let w = window(c0, r0, d, len);
    assert forall|j1: int, j2: int| 0 <= j1 < j2 < len implies (#[trigger] w[j1]) != (
    #[trigger] w[j2]) by {
        assert(w[j1] == (c0 + j1 * dcol(d), r0 + j1 * drow(d)));
        assert(w[j2] == (c0 + j2 * dcol(d), r0 + j2 * drow(d)));
        assert(j1 * 1 == j1 && j2 * 1 == j2) by (nonlinear_arith);
        assert(j1 * -1 == -j1 && j2 * -1 == -j2) by (nonlinear_arith);
        match d {
            Dir::Vert => {
                assert(w[j1].1 != w[j2].1);
            },
            Dir::Horiz => {
                assert(w[j1].0 != w[j2].0);
            },
            Dir::DiagUp => {
                assert(w[j1].0 != w[j2].0);
            },
            Dir::DiagDown => {
                assert(w[j1].0 != w[j2].0);
            },
        }
    }
}

/// The family that yields candidate `i`, read off from its position
/// among the four concatenated family segments.
spec fn candidate_dir(cols: int, rows: int, len: int, col: int, row: int, i: int) -> Dir {
    let n1 = family(Dir::Vert, cols, rows, len, col, row).len() as int;
    let n2 = family(Dir::Horiz, cols, rows, len, col, row).len() as int;
    let n3 = family(Dir::DiagUp, cols, rows, len, col, row).len() as int;
    if i < n1 {
        Dir::Vert
    } else if i < n1 + n2 {
        Dir::Horiz
    } else if i < n1 + n2 + n3 {
        Dir::DiagUp
    } else {
        Dir::DiagDown
    }
}

/// The offset of `(col, row)` within candidate `i`.
spec fn candidate_k(cols: int, rows: int, len: int, col: int, row: int, i: int) -> int {
    let n1 = family(Dir::Vert, cols, rows, len, col, row).len() as int;
    let n2 = family(Dir::Horiz, cols, rows, len, col, row).len() as int;
    let n3 = family(Dir::DiagUp, cols, rows, len, col, row).len() as int;
    let local = if i < n1 {
        i
    } else if i < n1 + n2 {
        i - n1
    } else if i < n1 + n2 + n3 {
        i - n1 - n2
    } else {
        i - n1 - n2 - n3
    };
    k_hi(candidate_dir(cols, rows, len, col, row, i), cols, rows, len, col, row) - local
}

/// Candidate `i` is exactly the window of its family at its offset.
proof fn lemma_candidate_form(cols: int, rows: int, len: int, col: int, row: int, i: int)
    requires
        0 <= i < candidates(cols, rows, len, col, row).len(),
    ensures
        ({
            let d = candidate_dir(cols, rows, len, col, row, i);
            let k = candidate_k(cols, rows, len, col, row, i);
            &&& candidates(cols, rows, len, col, row)[i] == window(
                col - k * dcol(d),
                row - k * drow(d),
                d,
                len,
            )
            &&& k_lo(d, cols, rows, len, col, row) <= k <= k_hi(d, cols, rows, len, col, row)
        }),
{
    let fv = family(Dir::Vert, cols, rows, len, col, row);
    let fh = family(Dir::Horiz, cols, rows, len, col, row);
    let fu = family(Dir::DiagUp, cols, rows, len, col, row);
    let fd = family(Dir::DiagDown, cols, rows, len, col, row);
    let all = candidates(cols, rows, len, col, row);
    let n1 = fv.len() as int;
    let n2 = fh.len() as int;
    let n3 = fu.len() as int;
    if i < n1 {
        assert(all[i] == fv[i]);
    } else if i < n1 + n2 {
        assert(all[i] == fh[i - n1]);
    } else if i < n1 + n2 + n3 {
        assert(all[i] == fu[i - n1 - n2]);
    } else {
        assert(all[i] == fd[i - n1 - n2 - n3]);
    }
}

/// For a winning length of at least two, the enumeration yields every
/// candidate line exactly once: within one family the start cells
/// differ, and across families the step between the first two cells
/// differs. (With a winning length of one the four families all yield
/// the same one-cell window, so single-cell lines are reported more
/// than once by design.)
pub proof fn lemma_candidates_distinct(cols: int, rows: int, len: int, col: int, row: int)
    requires
        0 <= col < cols,
        0 <= row < rows,
        2 <= len,
    ensures
        forall|i1: int, i2: int|
            0 <= i1 < i2 < candidates(cols, rows, len, col, row).len()
                ==> (#[trigger] candidates(cols, rows, len, col, row)[i1]) != (
            #[trigger] candidates(cols, rows, len, col, row)[i2]),
{
    let all = candidates(cols, rows, len, col, row);
    assert forall|i1: int, i2: int| 0 <= i1 < i2 < all.len() implies (#[trigger] all[i1]) != (
    #[trigger] all[i2]) by {
        lemma_candidate_form(cols, rows, len, col, row, i1);
        lemma_candidate_form(cols, rows, len, col, row, i2);
        let d1 = candidate_dir(cols, rows, len, col, row, i1);
        let k1 = candidate_k(cols, rows, len, col, row, i1);
        let d2 = candidate_dir(cols, rows, len, col, row, i2);
        let k2 = candidate_k(cols, rows, len, col, row, i2);
        let a1 = col - k1 * dcol(d1);
        let b1 = row - k1 * drow(d1);
        let a2 = col - k2 * dcol(d2);
        let b2 = row - k2 * drow(d2);
        let w1 = all[i1];
        let w2 = all[i2];
        assert(w1[0] == (a1 + 0 * dcol(d1), b1 + 0 * drow(d1)));
        assert(w1[1] == (a1 + 1 * dcol(d1), b1 + 1 * drow(d1)));
        assert(w2[0] == (a2 + 0 * dcol(d2), b2 + 0 * drow(d2)));
        assert(w2[1] == (a2 + 1 * dcol(d2), b2 + 1 * drow(d2)));
        assert(0 * dcol(d1) == 0 && 0 * drow(d1) == 0 && 0 * dcol(d2) == 0 && 0 * drow(d2) == 0)
            by (nonlinear_arith);
        assert(1 * dcol(d1) == dcol(d1) && 1 * drow(d1) == drow(d1) && 1 * dcol(d2) == dcol(d2)
            && 1 * drow(d2) == drow(d2)) by (nonlinear_arith);
        assert(w1[0] == (a1, b1) && w1[1] == (a1 + dcol(d1), b1 + drow(d1)));
        assert(w2[0] == (a2, b2) && w2[1] == (a2 + dcol(d2), b2 + drow(d2)));
        if w1 == w2 {
            assert(w1[0] == w2[0] && w1[1] == w2[1]);
            // The step between the first two cells pins the family.
            assert(dcol(d1) == dcol(d2) && drow(d1) == drow(d2));
            assert(d1 == d2);
            // Same family, different positions: different offsets.
            assert(k1 != k2);
            // Different offsets give different start cells.
            assert(k1 * 1 == k1 && k2 * 1 == k2) by (nonlinear_arith);
            match d1 {
                Dir::Vert => {
                    assert(b1 != b2);
                },
                Dir::Horiz => {
                    assert(a1 != a2);
                },
                Dir::DiagUp => {
                    assert(a1 != a2);
                },
                Dir::DiagDown => {
                    assert(a1 != a2);
                },
            }
            assert(false);
        }
    }
}

/// Candidate `i` is the first complete line of player `p` through
/// `(col, row)`: it is filled by `p`, and no earlier candidate is.
pub open spec fn first_win_at(
    grid: Seq<Seq<CellState>>,
    cols: int,
    rows: int,
    len: int,
    p: Player,
    col: int,
    row: int,
    i: int,
) -> bool {
    let cands = candidates(cols, rows, len, col, row);
    &&& 0 <= i < cands.len()
    &&& line_filled(grid, p, cands[i])
    &&& forall|j: int| 0 <= j < i ==> !line_filled(grid, p, #[trigger] cands[j])
}

/// Builds the candidate windows of one family, in generation order, as
/// executable coordinate lists.
fn family_vec(d: Dir, cols: usize, rows: usize, len: usize, col: usize, row: usize) -> (r: Vec<
    Vec<(usize, usize)>,
>)
    requires
        col < cols <= MAX_DIM,
        row < rows <= MAX_DIM,
        1 <= len <= MAX_DIM,
    ensures
        r@.len() == family(d, cols as int, rows as int, len as int, col as int, row as int).len(),
        forall|i: int|
            0 <= i < r@.len() ==> coords_view(#[trigger] r@[i]@) == family(
                d,
                cols as int,
                rows as int,
                len as int,
                col as int,
                row as int,
            )[i],
{
    let ghost slo = k_lo(d, cols as int, rows as int, len as int, col as int, row as int);
    let ghost shi = k_hi(d, cols as int, rows as int, len as int, col as int, row as int);
    let ghost fam = family(d, cols as int, rows as int, len as int, col as int, row as int);

    let mut lo: usize = 0;
    let mut hi: usize = len - 1;
    match d {
        Dir::Vert => {
            if row + len > rows {
                lo = row + len - rows;
            }
            if row < hi {
                hi = row;
            }
        },
        Dir::Horiz => {
            if col + len > cols {
                lo = col + len - cols;
            }
            if col < hi {
                hi = col;
            }
        },
        Dir::DiagUp => {
            if col + len > cols {
                lo = col + len - cols;
            }
            if col < hi {
                hi = col;
            }
            if row + len > rows && row + len - rows > lo {
                lo = row + len - rows;
            }
            if row < hi {
                hi = row;
            }
        },
        Dir::DiagDown => {
            if col + len > cols {
                lo = col + len - cols;
            }
            if col < hi {
                hi = col;
            }
            if len - 1 > row && len - 1 - row > lo {
                lo = len - 1 - row;
            }
            if rows - 1 - row < hi {
                hi = rows - 1 - row;
            }
        },
    }
    proof {
        assert(lo == slo);
        assert(hi == shi);
    }

    let mut out: Vec<Vec<(usize, usize)>> = Vec::new();
    if lo > hi {
        return out;
    }
    let count = hi - lo + 1;
    let mut i: usize = 0;
    while i < count
        invariant
            col < cols <= MAX_DIM,
            row < rows <= MAX_DIM,
            1 <= len <= MAX_DIM,
            i <= count,
            count == hi - lo + 1,
            lo == slo,
            hi == shi,
            0 <= slo <= shi,
            fam == family(d, cols as int, rows as int, len as int, col as int, row as int),
            fam.len() == count,
            shi <= len - 1,
            (d is Horiz || d is DiagUp || d is DiagDown) ==> shi <= col && slo >= col + len - cols,
            (d is Vert || d is DiagUp) ==> shi <= row && slo >= row + len - rows,
            (d is DiagDown) ==> shi <= rows - 1 - row && slo >= len - 1 - row,
            out@.len() == i,
            forall|ii: int| 0 <= ii < i ==> coords_view(#[trigger] out@[ii]@) == fam[ii],
        decreases count - i,
    {
        let k = hi - i;
        let ghost kk = k as int;
        let (c0, r0): (usize, usize) = match d {
            Dir::Vert => (col, row - k),
            Dir::Horiz => (col - k, row),
            Dir::DiagUp => (col - k, row - k),
            Dir::DiagDown => (col - k, row + k),
        };
        proof {
            assert(c0 as int == col - kk * dcol(d) && r0 as int == row - kk * drow(d)) by {
                match d {
                    Dir::Vert => {
                        assert(kk * 0 == 0 && kk * 1 == kk) by (nonlinear_arith);
                    },
                    Dir::Horiz => {
                        assert(kk * 0 == 0 && kk * 1 == kk) by (nonlinear_arith);
                    },
                    Dir::DiagUp => {
                        assert(kk * 1 == kk) by (nonlinear_arith);
                    },
                    Dir::DiagDown => {
                        assert(kk * 1 == kk && kk * -1 == -kk) by (nonlinear_arith);
                    },
                }
            }
        }
        let mut w: Vec<(usize, usize)> = Vec::new();
        let mut j: usize = 0;
        while j < len
            invariant
                col < cols <= MAX_DIM,
                row < rows <= MAX_DIM,
                1 <= len <= MAX_DIM,
                j <= len,
                0 <= kk < len,
                c0 as int == col - kk * dcol(d),
                r0 as int == row - kk * drow(d),
                (d is Horiz || d is DiagUp || d is DiagDown) ==> c0 + len <= cols,
                (d is Vert || d is DiagUp) ==> r0 + len <= rows,
                (d is DiagDown) ==> r0 < rows && r0 + 1 >= len,
                w@.len() == j,
                forall|jj: int|
                    0 <= jj < j ==> (#[trigger] w@[jj]).0 == c0 + jj * dcol(d) && w@[jj].1 == r0
                        + jj * drow(d),
            decreases len - j,
        {
            let cell: (usize, usize) = match d {
                Dir::Vert => (col, r0 + j),
                Dir::Horiz => (c0 + j, row),
                Dir::DiagUp => (c0 + j, r0 + j),
                Dir::DiagDown => (c0 + j, r0 - j),
            };
            proof {
                let jj = j as int;
                assert(cell.0 as int == c0 + jj * dcol(d) && cell.1 as int == r0 + jj * drow(
                    d,
                )) by {
                    match d {
                        Dir::Vert => {
                            assert(jj * 0 == 0 && jj * 1 == jj) by (nonlinear_arith);
                        },
                        Dir::Horiz => {
                            assert(jj * 0 == 0 && jj * 1 == jj) by (nonlinear_arith);
                        },
                        Dir::DiagUp => {
                            assert(jj * 1 == jj) by (nonlinear_arith);
                        },
                        Dir::DiagDown => {
                            assert(jj * 1 == jj && jj * -1 == -jj) by (nonlinear_arith);
                        },
                    }
                }
            }
            w.push(cell);
            j += 1;
        }
        proof {
            assert(fam[i as int] == window(
                col - (shi - i) * dcol(d),
                row - (shi - i) * drow(d),
                d,
                len as int,
            ));
            assert(kk == shi - i);
            assert(coords_view(w@) =~= window(c0 as int, r0 as int, d, len as int));
            assert(window(c0 as int, r0 as int, d, len as int) =~= fam[i as int]) by {
                assert forall|jj: int| 0 <= jj < len implies window(
                    c0 as int,
                    r0 as int,
                    d,
                    len as int,
                )[jj] == fam[i as int][jj] by {
                    assert(c0 as int + jj * dcol(d) == col - kk * dcol(d) + jj * dcol(d));
                    assert(r0 as int + jj * drow(d) == row - kk * drow(d) + jj * drow(d));
                }
            }
        }
        out.push(w);
        i += 1;
    }
    out
}

/// Every candidate line of the winning length through `(col, row)`, in
/// the fixed generation order used by win detection: vertical first, then
/// horizontal, then the rising and the falling diagonal, each family
/// ordered by ascending start coordinate.
pub fn search_ranges(cols: usize, rows: usize, len: usize, col: usize, row: usize) -> (r: Vec<
    Vec<(usize, usize)>,
>)
    requires
        col < cols <= MAX_DIM,
        row < rows <= MAX_DIM,
        1 <= len <= MAX_DIM,
    ensures
        r@.len() == candidates(cols as int, rows as int, len as int, col as int, row as int).len(),
        forall|i: int|
            0 <= i < r@.len() ==> coords_view(#[trigger] r@[i]@) == candidates(
                cols as int,
                rows as int,
                len as int,
                col as int,
                row as int,
            )[i],
{
    let ghost ci = (cols as int, rows as int, len as int, col as int, row as int);
    let ghost fv = family(Dir::Vert, ci.0, ci.1, ci.2, ci.3, ci.4);
    let ghost fh = family(Dir::Horiz, ci.0, ci.1, ci.2, ci.3, ci.4);
    let ghost fu = family(Dir::DiagUp, ci.0, ci.1, ci.2, ci.3, ci.4);
    let ghost fd = family(Dir::DiagDown, ci.0, ci.1, ci.2, ci.3, ci.4);
    let mut out = family_vec(Dir::Vert, cols, rows, len, col, row);
    let mut part = family_vec(Dir::Horiz, cols, rows, len, col, row);
    out.append(&mut part);
    let mut part = family_vec(Dir::DiagUp, cols, rows, len, col, row);
    out.append(&mut part);
    let mut part = family_vec(Dir::DiagDown, cols, rows, len, col, row);
    out.append(&mut part);
    proof {
        let all = candidates(ci.0, ci.1, ci.2, ci.3, ci.4);
        assert(all == fv + fh + fu + fd);
        assert(out@.len() == all.len());
        assert forall|i: int| 0 <= i < out@.len() implies coords_view(#[trigger] out@[i]@)
            == all[i] by {
            if i < fv.len() {
                assert(all[i] == fv[i]);
            } else if i < fv.len() + fh.len() {
                assert(all[i] == fh[i - fv.len()]);
            } else if i < fv.len() + fh.len() + fu.len() {
                assert(all[i] == fu[i - fv.len() - fh.len()]);
            } else {
                assert(all[i] == fd[i - fv.len() - fh.len() - fu.len()]);
            }
        }
    }
    out
}

/// An owned copy of a coordinate list.
pub fn clone_coords(v: &Vec<(usize, usize)>) -> (r: Vec<(usize, usize)>)
    ensures
        r@ == v@,
{
    let mut r: Vec<(usize, usize)> = Vec::new();
    let mut i: usize = 0;
    while i < v.len()
        invariant
            i <= v@.len(),
            r@ == v@.subrange(0, i as int),
        decreases v@.len() - i,
    {
        r.push(v[i]);
        proof {
            assert(r@ =~= v@.subrange(0, i + 1 as int));
        }
        i += 1;
    }
    proof {
        assert(r@ =~= v@);
    }
    r
}

/// Looks for a completed line of player `p` through `(col, row)`.
///
/// Returns the first complete candidate in generation order, as its list
/// of cells from line start to line end, or `None` when no candidate line
/// through the cell is completely filled by `p`.
pub fn check_winner(board: &Board, p: Player, len: usize, col: usize, row: usize) -> (r: Option<
    Vec<(usize, usize)>,
>)
    requires
        board.wf(),
        col < board.spec_cols(),
        row < board.spec_rows(),
        1 <= len <= MAX_DIM,
    ensures
        match r {
            Some(cells) => cells@.len() == len && exists|i: int|
                #[trigger] first_win_at(
                    board@,
                    board.spec_cols() as int,
                    board.spec_rows() as int,
                    len as int,
                    p,
                    col as int,
                    row as int,
                    i,
                ) && coords_view(cells@) == candidates(
                    board.spec_cols() as int,
                    board.spec_rows() as int,
                    len as int,
                    col as int,
                    row as int,
                )[i],
            None => !has_win_through(
                board@,
                board.spec_cols() as int,
                board.spec_rows() as int,
                len as int,
                p,
                col as int,
                row as int,
            ),
        },
{
    let cols = board.cols();
    let rows = board.rows();
    let ghost cands = candidates(cols as int, rows as int, len as int, col as int, row as int);
    proof {
        lemma_candidates_props(cols as int, rows as int, len as int, col as int, row as int);
    }
    let cand_vecs = search_ranges(cols, rows, len, col, row);
    let mut i: usize = 0;
    while i < cand_vecs.len()
        invariant
            board.wf(),
            cols == board.spec_cols(),
            rows == board.spec_rows(),
            col < cols,
            row < rows,
            1 <= len <= MAX_DIM,
            i <= cand_vecs@.len(),
            cands == candidates(cols as int, rows as int, len as int, col as int, row as int),
            cand_vecs@.len() == cands.len(),
            forall|ii: int|
                0 <= ii < cand_vecs@.len() ==> coords_view(#[trigger] cand_vecs@[ii]@)
                    == cands[ii],
            forall|ii: int|
                0 <= ii < cands.len() ==> {
                    let w = #[trigger] cands[ii];
                    &&& w.len() == len
                    &&& window_in_bounds(w, cols as int, rows as int)
                },
            forall|ii: int| 0 <= ii < i ==> !line_filled(board@, p, #[trigger] cands[ii]),
        decreases cand_vecs@.len() - i,
    {
        let w = &cand_vecs[i];
        let mut j: usize = 0;
        let mut all = true;
        proof {
            assert(coords_view(w@) == cands[i as int]);
            assert(w@.len() == len);
        }
        while j < w.len() && all
            invariant
                board.wf(),
                cols == board.spec_cols(),
                rows == board.spec_rows(),
                i < cand_vecs@.len(),
                cands == candidates(cols as int, rows as int, len as int, col as int, row as int),
                w == &cand_vecs@[i as int],
                coords_view(w@) == cands[i as int],
                w@.len() == len,
                window_in_bounds(cands[i as int], cols as int, rows as int),
                j <= len,
                all ==> forall|jj: int|
                    0 <= jj < j ==> board@[(#[trigger] cands[i as int][jj]).0][cands[i as int][jj].1]
                        == CellState::Filled(p),
                !all ==> !line_filled(board@, p, cands[i as int]),
            decreases w@.len() - j,
        {
            let (c, r) = w[j];
            proof {
                assert(cands[i as int][j as int] == (c as int, r as int));
                assert(0 <= c < cols && 0 <= r < rows);
            }
            let owned = match board.token_at(c, r) {
                Some(q) => q == p,
                None => false,
            };
            if !owned {
                all = false;
                proof {
                    assert(board@[c as int][r as int] != CellState::Filled(p));
                    assert(!line_filled(board@, p, cands[i as int]));
                }
            }
            j += 1;
        }
        if all {
            proof {
                assert forall|jj: int| 0 <= jj < len implies board@[(#[trigger] cands[i as int][jj]).0][cands[i as int][jj].1]
                    == CellState::Filled(p) by {}
                assert(line_filled(board@, p, cands[i as int]));
                assert(first_win_at(
                    board@,
                    cols as int,
                    rows as int,
                    len as int,
                    p,
                    col as int,
                    row as int,
                    i as int,
                ));
            }
            return Some(clone_coords(w));
        }
        i += 1;
    }
    proof {
        assert forall|ii: int| 0 <= ii < cands.len() implies !line_filled(
            board@,
            p,
            #[trigger] cands[ii],
        ) by {}
    }
    None
}

} // verus!
