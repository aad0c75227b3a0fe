//! A one-ply heuristic opponent.
//!
//! Scores each playable column by the most promising candidate line
//! through the cell a drop there would fill — counting the mover's own
//! tokens already on that line — and plays a random column among the
//! best-scoring ones. It consumes only the game's public query surface
//! and never mutates the game; its whole contract toward the host is to
//! return exactly one playable column.

use vstd::prelude::*;

use crate::board::{first_free_row, Board, CellState, Player};
use crate::game::Game;
use crate::rng::random_below;
use crate::search::{candidates, coords_view, search_ranges};

verus! {

/// How many cells of the line `w` hold a token of player `p` on `grid`.
pub open spec fn count_in(grid: Seq<Seq<CellState>>, p: Player, w: Seq<(int, int)>) -> int
    decreases w.len(),
{
    if w.len() == 0 {
        0
    } else {
        count_in(grid, p, w.drop_last()) + if grid[w.last().0][w.last().1] == CellState::Filled(
            p,
        ) {
            1int
        } else {
            0int
        }
    }
}

/// The best own-token count over a list of candidate lines.
pub open spec fn max_count(grid: Seq<Seq<CellState>>, p: Player, cs: Seq<Seq<(int, int)>>) -> int
    decreases cs.len(),
{
    if cs.len() == 0 {
        0
    } else {
        vstd::math::max(max_count(grid, p, cs.drop_last()), count_in(grid, p, cs.last()))
    }
}

/// The heuristic score of dropping into column `c`: the best own-token
/// count over all candidate lines through the cell the drop would fill.
pub open spec fn col_score(g: &Game, c: int) -> int {
    let row = first_free_row(g.grid()[c]);
    max_count(
        g.grid(),
        g.spec_current(),
        candidates(
            g.spec_cols() as int,
            g.spec_rows() as int,
            g.spec_win_len() as int,
            c,
            row,
        ),
    )
}

/// Counts the current player's tokens along one candidate line.
fn line_count(board: &Board, p: Player, w: &Vec<(usize, usize)>) -> (r: usize)
    requires
        board.wf(),
        forall|j: int|
            0 <= j < w@.len() ==> (#[trigger] w@[j]).0 < board.spec_cols() && w@[j].1
                < board.spec_rows(),
    ensures
        r == count_in(board@, p, coords_view(w@)),
        r <= w@.len(),
{
    let cv = Ghost(coords_view(w@));
    let mut r: usize = 0;
    let mut j: usize = 0;
    while j < w.len()
        invariant
            board.wf(),
            cv@ == coords_view(w@),
            forall|jj: int|
                0 <= jj < w@.len() ==> (#[trigger] w@[jj]).0 < board.spec_cols() && w@[jj].1
                    < board.spec_rows(),
            j <= w@.len(),
            r == count_in(board@, p, cv@.subrange(0, j as int)),
            r <= j,
        decreases w@.len() - j,
    {
        proof {
            assert(cv@.subrange(0, j + 1 as int).drop_last() =~= cv@.subrange(0, j as int));
            assert(cv@.subrange(0, j + 1 as int).last() == cv@[j as int]);
        }
        let (c, ro) = w[j];
        let own = match board.token_at(c, ro) {
            Some(q) => q == p,
            None => false,
        };
        if own {
            r += 1;
        }
        j += 1;
    }
    proof {
        assert(cv@.subrange(0, w@.len() as int) =~= cv@);
    }
    r
}

/// Chooses the next move for the current player: a column among the
/// playable ones whose heuristic score is maximal, ties broken at
/// random. Never mutates the game.
pub fn next_move(game: &Game) -> (c: usize)
    requires
        game.wf(),
        !game.board_full(),
    ensures
        c < game.spec_cols(),
        !game.column_full(c as int),
        forall|cc: usize|
            cc < game.spec_cols() && !game.column_full(cc as int) ==> col_score(game, cc as int)
                <= col_score(game, c as int),
{
    let board = game.board();
    proof {
        crate::board::lemma_wf_congruent(&game.spec_board(), &board);
    }
    let moves = game.valid_moves();
    proof {
        let cfree = choose|c: int| 0 <= c < game.spec_cols() && !(#[trigger] game.column_full(c));
        assert(moves@.contains(cfree as usize));
        assert(moves@.len() >= 1);
    }
    let mut best_cols: Vec<usize> = Vec::new();
    let mut best: usize = 0;
    let mut i: usize = 0;
    while i < moves.len()
        invariant
            game.wf(),
            board@ == game.grid(),
            board.wf(),
            board.spec_cols() == game.spec_cols(),
            board.spec_rows() == game.spec_rows(),
            forall|j: int|
                0 <= j < moves@.len() ==> (#[trigger] moves@[j]) < game.spec_cols()
                    && !game.column_full(moves@[j] as int),
            forall|cc: usize|
                cc < game.spec_cols() && !game.column_full(cc as int) ==> moves@.contains(cc),
            i <= moves@.len(),
            i >= 1 ==> best_cols@.len() >= 1,
            moves@.len() >= 1,
            forall|j: int|
                0 <= j < best_cols@.len() ==> moves@.contains(#[trigger] best_cols@[j])
                    && col_score(game, best_cols@[j] as int) == best,
            forall|j: int| 0 <= j < i ==> col_score(game, #[trigger] moves@[j] as int) <= best,
            i == 0 ==> best == 0,
        decreases moves@.len() - i,
    {
        let col = moves[i];
        let row = match board.top(col) {
            Some(row) => row,
            None => {
                proof {
                    crate::board::lemma_board_full_iff_top_filled(&board, col as int);
                    assert(false);
                }
                vstd::pervasive::unreached()
            },
        };
        let ranges = search_ranges(board.cols(), board.rows(), game.win_len(), col, row);
        proof {
            crate::search::lemma_candidates_props(
                game.spec_cols() as int,
                game.spec_rows() as int,
                game.spec_win_len() as int,
                col as int,
                row as int,
            );
        }
        let ghost cands = candidates(
            game.spec_cols() as int,
            game.spec_rows() as int,
            game.spec_win_len() as int,
            col as int,
            row as int,
        );
        let mut score: usize = 0;
        let mut k: usize = 0;
        while k < ranges.len()
            invariant
                game.wf(),
                board@ == game.grid(),
                board.wf(),
                board.spec_cols() == game.spec_cols(),
                board.spec_rows() == game.spec_rows(),
                k <= ranges@.len(),
                ranges@.len() == cands.len(),
                forall|kk: int|
                    0 <= kk < ranges@.len() ==> coords_view(#[trigger] ranges@[kk]@) == cands[kk],
                forall|kk: int|
                    0 <= kk < cands.len() ==> {
                        let wnd = #[trigger] cands[kk];
                        crate::search::window_in_bounds(
                            wnd,
                            game.spec_cols() as int,
                            game.spec_rows() as int,
                        ) && wnd.len() == game.spec_win_len()
                    },
                score == max_count(
                    game.grid(),
                    game.spec_current(),
                    cands.subrange(0, k as int),
                ),
                score <= crate::board::MAX_DIM,
            decreases ranges@.len() - k,
        {
            proof {
                assert(cands.subrange(0, k + 1 as int).drop_last() =~= cands.subrange(
                    0,
                    k as int,
                ));
                assert(cands.subrange(0, k + 1 as int).last() == cands[k as int]);
                assert forall|jj: int| 0 <= jj < ranges@[k as int]@.len() implies (
                #[trigger] ranges@[k as int]@[jj]).0 < board.spec_cols()
                    && ranges@[k as int]@[jj].1 < board.spec_rows() by {
                    assert(cands[k as int][jj] == (
                        ranges@[k as int]@[jj].0 as int,
                        ranges@[k as int]@[jj].1 as int,
                    ));
                }
            }
            let n = line_count(&board, game.current_player(), &ranges[k]);
            proof {
                assert(coords_view(ranges@[k as int]@) == cands[k as int]);
                assert(n <= ranges@[k as int]@.len());
                assert(ranges@[k as int]@.len() == cands[k as int].len());
                assert(cands[k as int].len() == game.spec_win_len());
            }
            if n > score {
                score = n;
            }
            k += 1;
        }
        proof {
            assert(cands.subrange(0, ranges@.len() as int) =~= cands);
            assert(score == col_score(game, col as int));
        }
        if best_cols.len() == 0 || score > best {
            let mut fresh: Vec<usize> = Vec::new();
            fresh.push(col);
            best_cols = fresh;
            best = score;
        } else if score == best {
            best_cols.push(col);
        }
        proof {
            assert(moves@.contains(col)) by {
                assert(moves@[i as int] == col);
            }
        }
        i += 1;
    }
    let pick = random_below(best_cols.len() as u64) as usize;
    let c = best_cols[pick];
    proof {
        assert forall|cc: usize|
            cc < game.spec_cols() && !game.column_full(cc as int) implies col_score(
            game,
            cc as int,
        ) <= col_score(game, c as int) by {
            let jj = choose|jj: int| 0 <= jj < moves@.len() && moves@[jj] == cc;
            assert(col_score(game, moves@[jj] as int) <= best);
        }
    }
    c
}

} // verus!
