//! The Monte-Carlo tree search engine.
//!
//! The engine estimates per-column move quality by repeated random
//! self-play. Each rollout walks a fresh copy of the game to completion,
//! sampling moves from a categorical distribution weighted by each legal
//! column's current win-rate (with a neutral prior for unvisited slots),
//! and then credits every (state, move) it played: a constant pull
//! toward the neutral mean plus an outcome term whose influence decays
//! with the distance from the decisive final move.
//!
//! Win-rates are fixed-point numbers: `WEIGHT_SCALE` stands for `1.0`,
//! so every reported weight lies in `[0, WEIGHT_SCALE]`.

use vstd::prelude::*;

use crate::board::MAX_DIM;
use crate::clock::millis_since;
use crate::game::{state_of, Game, State};
use crate::rng::random_below;
use crate::table::{bumped, records_ok, slot_ok, zero_records, Memory, Slot, HALF_WEIGHT, WEIGHT_SCALE};
use std::time::Instant;

verus! {

/// The win-rate of a slot: cumulative score over visit count, or the
/// neutral prior for a slot never visited.
pub open spec fn spec_winrate(s: Slot) -> u64 {
    if s.visits == 0 {
        HALF_WEIGHT
    } else {
        s.score / s.visits
    }
}

/// The sum of a weight vector.
pub open spec fn sum_of(ws: Seq<u64>) -> int
    decreases ws.len(),
{
    if ws.len() == 0 {
        0
    } else {
        sum_of(ws.drop_last()) + ws.last()
    }
}

/// The credit one backpropagation step applies to a slot's score: a
/// neutral half weight, plus or minus an outcome share that decays with
/// the distance from the rollout's final move.
pub open spec fn credit(outcome: int, dist: int) -> u64 {
    if outcome > 0 {
        (HALF_WEIGHT + HALF_WEIGHT / ((dist + 1) as u64)) as u64
    } else if outcome < 0 {
        (HALF_WEIGHT - HALF_WEIGHT / ((dist + 1) as u64)) as u64
    } else {
        HALF_WEIGHT
    }
}

/// Every move of a history addresses an existing slot of the table.
pub open spec fn hist_ok(m: Map<Seq<u8>, Seq<Slot>>, hist: Seq<(State, usize)>) -> bool {
    forall|i: int|
        0 <= i < hist.len() ==> m.contains_key((#[trigger] hist[i]).0@) && hist[i].1
            < m[hist[i].0@].len()
}

/// Every row of the table has a slot for each of `cols` columns. An
/// engine serves one board geometry for its whole lifetime.
pub open spec fn rows_cover(m: Map<Seq<u8>, Seq<Slot>>, cols: int) -> bool {
    forall|s: Seq<u8>| m.contains_key(s) ==> (#[trigger] m[s]).len() >= cols
}

/// The table after zero-initialized rows were allocated, in order, for
/// a sequence of states first seen during a rollout, one slot per
/// column each.
pub open spec fn insert_zero_rows(
    m: Map<Seq<u8>, Seq<Slot>>,
    fresh: Seq<Seq<u8>>,
    cols: int,
) -> Map<Seq<u8>, Seq<Slot>>
    decreases fresh.len(),
{
    if fresh.len() == 0 {
        m
    } else {
        insert_zero_rows(m, fresh.drop_last(), cols).insert(fresh.last(), zero_records(cols))
    }
}

/// The table after one seat's history has been credited with `outcome`:
/// the most recent move (the history's last entry) is credited at
/// distance `dist`, earlier moves at growing distances.
pub open spec fn apply_backprop(
    m: Map<Seq<u8>, Seq<Slot>>,
    hist: Seq<(State, usize)>,
    outcome: int,
    dist: int,
) -> Map<Seq<u8>, Seq<Slot>>
    decreases hist.len(),
{
    if hist.len() == 0 {
        m
    } else {
        let e = hist.last();
        let m1 = m.insert(
            e.0@,
            m[e.0@].update(e.1 as int, bumped(m[e.0@][e.1 as int], credit(outcome, dist))),
        );
        apply_backprop(m1, hist.drop_last(), outcome, dist + 1)
    }
}

/// Backpropagation touches no key outside its history, never drops a
/// key, and never changes a row's length.
pub proof fn lemma_apply_backprop_frame(
    m: Map<Seq<u8>, Seq<Slot>>,
    hist: Seq<(State, usize)>,
    outcome: int,
    dist: int,
)
    requires
        hist_ok(m, hist),
    ensures
        forall|s: Seq<u8>|
            apply_backprop(m, hist, outcome, dist).contains_key(s) == m.contains_key(s),
        forall|s: Seq<u8>|
            m.contains_key(s) ==> (#[trigger] apply_backprop(m, hist, outcome, dist)[s]).len()
                == m[s].len(),
    decreases hist.len(),
{
    if hist.len() > 0 {
        let e = hist.last();
        assert(hist[hist.len() - 1] == e);
        assert(m.contains_key(e.0@) && e.1 < m[e.0@].len());
        let m1 = m.insert(
            e.0@,
            m[e.0@].update(e.1 as int, bumped(m[e.0@][e.1 as int], credit(outcome, dist))),
        );
        assert(hist_ok(m1, hist.drop_last())) by {
            assert forall|i: int| 0 <= i < hist.drop_last().len() implies m1.contains_key(
                (#[trigger] hist.drop_last()[i]).0@,
            ) && hist.drop_last()[i].1 < m1[hist.drop_last()[i].0@].len() by {
                assert(hist[i] == hist.drop_last()[i]);
            }
        }
        lemma_apply_backprop_frame(m1, hist.drop_last(), outcome, dist + 1);
        let fin = apply_backprop(m, hist, outcome, dist);
        assert(fin == apply_backprop(m1, hist.drop_last(), outcome, dist + 1));
        assert forall|s: Seq<u8>| fin.contains_key(s) == m.contains_key(s) by {
            assert(m1.contains_key(s) == m.contains_key(s));
        }
        assert forall|s: Seq<u8>| m.contains_key(s) implies (#[trigger] fin[s]).len()
            == m[s].len() by {
            assert(m1.contains_key(s));
            assert(m1[s].len() == m[s].len());
        }
    }
}

/// Evidence that one full rollout was played and credited from the
/// position `g`: the final table `m1` is the starting table `m0`, plus
/// zero-initialized rows for the states first seen during the rollout,
/// with both seats' recorded move histories backpropagated with
/// mirrored signs. The first seat's history opens at `g`'s own state
/// with a column that was legal there, and the outcome sign matches the
/// reported result triple.
pub open spec fn credited_rollout(
    m0: Map<Seq<u8>, Seq<Slot>>,
    m1: Map<Seq<u8>, Seq<Slot>>,
    g: Game,
    r: (u64, u64, u64),
    fresh: Seq<Seq<u8>>,
    my: Seq<(State, usize)>,
    their: Seq<(State, usize)>,
    sign: int,
) -> bool {
    let mid = insert_zero_rows(m0, fresh, g.spec_cols() as int);
    &&& my.len() >= 1
    &&& my[0].0@ == state_of(g.grid())
    &&& my[0].1 < g.spec_cols()
    &&& !g.column_full(my[0].1 as int)
    &&& hist_ok(mid, my)
    &&& hist_ok(mid, their)
    &&& -1 <= sign <= 1
    &&& (sign == 1 <==> r == (1u64, 0u64, 0u64))
    &&& (sign == -1 <==> r == (0u64, 1u64, 0u64))
    &&& (sign == 0 <==> r == (0u64, 0u64, 1u64))
    &&& m1 == apply_backprop(apply_backprop(mid, my, sign, 0), their, 0 - sign, 0)
}

/// A self-play engine: the statistics table and nothing else. Scores
/// and visit counts persist for the engine's whole lifetime.
pub struct MCTS {
    memory: Memory,
}

impl MCTS {
    /// The abstract contents of the statistics table.
    pub closed spec fn memory_view(&self) -> Map<Seq<u8>, Seq<Slot>> {
        self.memory@
    }

    /// Internal consistency of the table.
    pub closed spec fn wf(&self) -> bool {
        self.memory.inv()
    }

    /// Creates an engine with an empty table.
    pub fn new() -> (r: MCTS)
        ensures
            r.wf(),
            r.memory_view() == Map::<Seq<u8>, Seq<Slot>>::empty(),
    {
        MCTS { memory: Memory::new() }
    }

    /// Whether at least one simulation has visited `state`: only then
    /// may `move_weights` be asked about it.
    pub fn seen(&self, state: &State) -> (r: bool)
        requires
            self.wf(),
        ensures
            r == self.memory_view().contains_key(state@),
    {
        self.memory.contains(state)
    }

    /// The current win-rate of each candidate column at `state`, in
    /// fixed-point form: `WEIGHT_SCALE` stands for `1.0`, and a column
    /// whose slot was never visited reports the neutral `HALF_WEIGHT`.
    ///
    /// Calling this for a state that no simulation has visited, or with
    /// a column the state's row has no slot for, is a usage-contract
    /// violation.
    pub fn move_weights(&self, state: &State, moves: &Vec<usize>) -> (w: Vec<u64>)
        requires
            self.wf(),
            self.memory_view().contains_key(state@),
            forall|i: int|
                0 <= i < moves@.len() ==> (#[trigger] moves@[i]) < self.memory_view()[
                    state@
                ].len(),
        ensures
            w@.len() == moves@.len(),
            forall|i: int|
                0 <= i < w@.len() ==> (#[trigger] w@[i]) == spec_winrate(
                    self.memory_view()[state@][moves@[i] as int],
                ) && w@[i] <= WEIGHT_SCALE,
    {
        let records = match self.memory.get_records(state) {
            Some(r) => r,
            None => {
                proof {
                    assert(false);
                }
                vstd::pervasive::unreached()
            },
        };
        proof {
            self.memory.lemma_records_ok(state@);
        }
        let mut w: Vec<u64> = Vec::new();
        let mut i: usize = 0;
        while i < moves.len()
            invariant
                self.wf(),
                self.memory_view().contains_key(state@),
                records@ == self.memory_view()[state@],
                records_ok(records@),
                forall|j: int|
                    0 <= j < moves@.len() ==> (#[trigger] moves@[j]) < self.memory_view()[
                        state@
                    ].len(),
                i <= moves@.len(),
                w@.len() == i,
                forall|j: int|
                    0 <= j < i ==> (#[trigger] w@[j]) == spec_winrate(
                        self.memory_view()[state@][moves@[j] as int],
                    ) && w@[j] <= WEIGHT_SCALE,
            decreases moves@.len() - i,
        {
            let col = moves[i];
            w.push(winrate(records[col]));
            i += 1;
        }
        w
    }
}

/// The win-rate of one slot, in fixed-point form; at most a full weight.
fn winrate(s: Slot) -> (r: u64)
    requires
        slot_ok(s),
    ensures
        r == spec_winrate(s),
        r <= WEIGHT_SCALE,
{
    if s.visits == 0 {
        HALF_WEIGHT
    } else {
        proof {
            assert(s.score / s.visits <= WEIGHT_SCALE) by (nonlinear_arith)
                requires
                    s.visits >= 1,
                    s.score <= WEIGHT_SCALE * s.visits,
            ;
        }
        s.score / s.visits
    }
}

/// The credit of one backpropagation step, computed in fixed point.
fn credit_of(outcome: i8, dist: usize) -> (r: u64)
    requires
        -1 <= outcome <= 1,
        dist < usize::MAX,
    ensures
        r == credit(outcome as int, dist as int),
        r <= WEIGHT_SCALE,
{
    let d: u64 = (dist as u64) + 1;
    let share: u64 = HALF_WEIGHT / d;
    proof {
        assert(share <= HALF_WEIGHT) by (nonlinear_arith)
            requires
                d >= 1,
                share == HALF_WEIGHT as u64 / d,
        ;
    }
    if outcome > 0 {
        HALF_WEIGHT + share
    } else if outcome < 0 {
        HALF_WEIGHT - share
    } else {
        HALF_WEIGHT
    }
}

/// The sum of a prefix never exceeds the sum of the whole vector.
proof fn lemma_sum_of_prefix(ws: Seq<u64>, j: int)
    requires
        0 <= j <= ws.len(),
    ensures
        sum_of(ws.subrange(0, j)) <= sum_of(ws),
        sum_of(ws.subrange(0, j)) >= 0,
    decreases ws.len() - j,
{
    lemma_sum_of_nonneg(ws.subrange(0, j));
    if j == ws.len() {
        assert(ws.subrange(0, j) =~= ws);
    } else {
        lemma_sum_of_prefix(ws, j + 1);
        assert(ws.subrange(0, j + 1).drop_last() =~= ws.subrange(0, j));
        assert(sum_of(ws.subrange(0, j + 1)) == sum_of(ws.subrange(0, j)) + ws[j]);
    }
}

/// A sum of unsigned weights is never negative.
proof fn lemma_sum_of_nonneg(ws: Seq<u64>)
    ensures
        sum_of(ws) >= 0,
    decreases ws.len(),
{
    if ws.len() > 0 {
        lemma_sum_of_nonneg(ws.drop_last());
    }
}

/// A sum of unsigned weights is at least any one of them.
proof fn lemma_sum_of_at_least(ws: Seq<u64>, j: int)
    requires
        0 <= j < ws.len(),
    ensures
        sum_of(ws) >= ws[j],
    decreases ws.len(),
{
    if j == ws.len() - 1 {
        lemma_sum_of_nonneg(ws.drop_last());
    } else {
        lemma_sum_of_at_least(ws.drop_last(), j);
        assert(ws.drop_last()[j] == ws[j]);
    }
}

/// Samples an index from the unnormalized categorical distribution given
/// by `weights`: the chance of index `i` is proportional to its weight.
/// When every weight is zero the draw is uniform; otherwise the chosen
/// index always carries positive weight.
fn random_weighted(weights: &Vec<u64>) -> (idx: usize)
    requires
        1 <= weights@.len() <= MAX_DIM,
        forall|i: int| 0 <= i < weights@.len() ==> (#[trigger] weights@[i]) <= WEIGHT_SCALE,
    ensures
        idx < weights@.len(),
        sum_of(weights@) > 0 ==> weights@[idx as int] > 0,
{
    let n = weights.len();
    let mut sum: u64 = 0;
    let mut i: usize = 0;
    proof {
        assert(weights@.subrange(0, 0) =~= Seq::<u64>::empty());
    }
    while i < n
        invariant
            n == weights@.len(),
            n <= MAX_DIM,
            forall|j: int| 0 <= j < n ==> (#[trigger] weights@[j]) <= WEIGHT_SCALE,
            i <= n,
            sum == sum_of(weights@.subrange(0, i as int)),
            sum <= i * WEIGHT_SCALE,
        decreases n - i,
    {
        proof {
            assert(weights@.subrange(0, i + 1 as int).drop_last() =~= weights@.subrange(
                0,
                i as int,
            ));
            assert(i * WEIGHT_SCALE + WEIGHT_SCALE == (i + 1) * WEIGHT_SCALE) by (nonlinear_arith);
            assert((i + 1) * WEIGHT_SCALE <= MAX_DIM * WEIGHT_SCALE) by (nonlinear_arith)
                requires
                    i + 1 <= MAX_DIM,
            ;
        }
        sum = sum + weights[i];
        i += 1;
    }
    proof {
        assert(weights@.subrange(0, n as int) =~= weights@);
    }
    if sum == 0 {
        let r = random_below(n as u64);
        return r as usize;
    }
    let r = random_below(sum);
    let mut acc: u64 = 0;
    let mut i: usize = 0;
    proof {
        assert(weights@.subrange(0, 0) =~= Seq::<u64>::empty());
    }
    while i < n
        invariant
            n == weights@.len(),
            i <= n,
            acc == sum_of(weights@.subrange(0, i as int)),
            sum == sum_of(weights@),
            r < sum,
            acc <= r,
        decreases n - i,
    {
        proof {
            lemma_sum_of_prefix(weights@, i + 1);
            assert(weights@.subrange(0, i + 1 as int).drop_last() =~= weights@.subrange(
                0,
                i as int,
            ));
        }
        let w = weights[i];
        if r < acc + w {
            return i;
        }
        acc = acc + w;
        i += 1;
    }
    proof {
        assert(acc == sum_of(weights@));
        assert(false);
    }
    vstd::pervasive::unreached()
}

/// The real-move selection policy: the candidate column with the
/// highest weight, ties broken by the first occurrence in ascending
/// candidate order.
pub fn best_move(moves: &Vec<usize>, weights: &Vec<u64>) -> (c: usize)
    requires
        moves@.len() == weights@.len(),
        moves@.len() >= 1,
    ensures
        exists|i: int|
            {
                &&& 0 <= i < moves@.len()
                &&& #[trigger] moves@[i] == c
                &&& forall|j: int| 0 <= j < moves@.len() ==> (#[trigger] weights@[j]) <= weights@[i]
                &&& forall|j: int| 0 <= j < i ==> (#[trigger] weights@[j]) < weights@[i]
            },
{
    let mut at: usize = 0;
    let mut k: usize = 1;
    while k < weights.len()
        invariant
            moves@.len() == weights@.len(),
            1 <= k <= weights@.len(),
            at < k,
            forall|j: int| 0 <= j < k ==> (#[trigger] weights@[j]) <= weights@[at as int],
            forall|j: int| 0 <= j < at ==> (#[trigger] weights@[j]) < weights@[at as int],
        decreases weights@.len() - k,
    {
        if weights[k] > weights[at] {
            at = k;
        }
        k += 1;
    }
    moves[at]
}

/// An owned copy of a serialized state.
fn clone_bytes(v: &Vec<u8>) -> (r: Vec<u8>)
    ensures
        r@ == v@,
{
    let mut r: Vec<u8> = Vec::new();
    let mut i: usize = 0;
    while i < v.len()
        invariant
            i <= v@.len(),
            r@ == v@.subrange(0, i as int),
        decreases v@.len() - i,
    {
        r.push(v[i]);
        proof {
            assert(r@ =~= v@.subrange(0, i + 1 as int));
        }
        i += 1;
    }
    proof {
        assert(r@ =~= v@);
    }
    r
}

impl MCTS {
    /// One in-rollout move choice: samples a legal column, weighting
    /// each by its current win-rate. A candidate whose win-rate is zero
    /// is never chosen while some candidate's win-rate is positive;
    /// when every candidate's win-rate is zero the draw is uniform.
    fn pick_move(&self, state: &State, choices: &Vec<usize>) -> (c: usize)
        requires
            self.wf(),
            self.memory_view().contains_key(state@),
            1 <= choices@.len() <= MAX_DIM,
            forall|i: int|
                0 <= i < choices@.len() ==> (#[trigger] choices@[i]) < self.memory_view()[
                    state@
                ].len(),
        ensures
            choices@.contains(c),
            (exists|j: int|
                0 <= j < choices@.len() && spec_winrate(
                    self.memory_view()[state@][(#[trigger] choices@[j]) as int],
                ) > 0) ==> spec_winrate(self.memory_view()[state@][c as int]) > 0,
    {
        let weights = self.move_weights(state, choices);
        let idx = random_weighted(&weights);
        let c = choices[idx];
        proof {
            assert(choices@[idx as int] == c);
            if exists|j: int|
                0 <= j < choices@.len() && spec_winrate(
                    self.memory_view()[state@][(#[trigger] choices@[j]) as int],
                ) > 0 {
                let j = choose|j: int|
                    0 <= j < choices@.len() && spec_winrate(
                        self.memory_view()[state@][(#[trigger] choices@[j]) as int],
                    ) > 0;
                assert(weights@[j] > 0);
                lemma_sum_of_at_least(weights@, j);
                assert(sum_of(weights@) > 0);
                assert(weights@[idx as int] > 0);
            }
        }
        c
    }

    /// Credits one seat's move history with the rollout's outcome,
    /// walking it from the most recent move backward: each slot gains
    /// `credit(outcome, distance)` score and one visit, where the
    /// distance counts moves between the credited one and the rollout's
    /// end. Moves nearer the decisive final move are credited more.
    fn update(&mut self, outcome: i8, hist: &Vec<(State, usize)>)
        requires
            old(self).wf(),
            -1 <= outcome <= 1,
            hist_ok(old(self).memory_view(), hist@),
        ensures
            final(self).wf(),
            final(self).memory_view() == apply_backprop(
                old(self).memory_view(),
                hist@,
                outcome as int,
                0,
            ),
            forall|s: Seq<u8>|
                final(self).memory_view().contains_key(s)
                    == old(self).memory_view().contains_key(s),
            forall|s: Seq<u8>|
                old(self).memory_view().contains_key(s)
                    ==> (#[trigger] final(self).memory_view()[s]).len()
                    == old(self).memory_view()[s].len(),
    {
        let ghost m0 = self.memory@;
        let len = hist.len();
        let mut j: usize = len;
        proof {
            assert(hist@.subrange(0, len as int) =~= hist@);
        }
        while j > 0
            invariant
                self.wf(),
                -1 <= outcome <= 1,
                j <= len,
                len == hist@.len(),
                hist_ok(self.memory@, hist@),
                apply_backprop(m0, hist@, outcome as int, 0) == apply_backprop(
                    self.memory@,
                    hist@.subrange(0, j as int),
                    outcome as int,
                    len - j,
                ),
                forall|s: Seq<u8>| self.memory@.contains_key(s) == m0.contains_key(s),
                forall|s: Seq<u8>|
                    m0.contains_key(s) ==> (#[trigger] self.memory@[s]).len() == m0[s].len(),
            decreases j,
        {
            j -= 1;
            let dist = len - 1 - j;
            let inc = credit_of(outcome, dist);
            let ghost pre = self.memory@;
            let ghost sub1 = hist@.subrange(0, j + 1 as int);
            let ghost sub0 = hist@.subrange(0, j as int);
            proof {
                assert(hist@[j as int] == hist@.subrange(0, j + 1 as int)[j as int]);
                assert(sub1.drop_last() =~= sub0);
                assert(sub1.last() == hist@[j as int]);
            }
            let entry_state = &hist[j].0;
            let entry_col = hist[j].1;
            self.memory.bump(entry_state, entry_col, inc);
            proof {
                let e = hist@[j as int];
                assert(self.memory@ == pre.insert(
                    e.0@,
                    pre[e.0@].update(
                        e.1 as int,
                        bumped(pre[e.0@][e.1 as int], credit(outcome as int, dist as int)),
                    ),
                ));
                assert(apply_backprop(pre, sub1, outcome as int, len - j - 1) == apply_backprop(
                    self.memory@,
                    sub0,
                    outcome as int,
                    len - j,
                ));
                assert forall|s: Seq<u8>| self.memory@.contains_key(s) == m0.contains_key(s) by {
                    assert(pre.contains_key(e.0@));
                }
                assert forall|s: Seq<u8>| m0.contains_key(s) implies (#[trigger] self.memory@[
                    s
                ]).len() == m0[s].len() by {
                    assert(pre.contains_key(s));
                }
            }
        }
        proof {
            assert(hist@.subrange(0, 0) =~= Seq::<(State, usize)>::empty());
        }
    }

    /// Plays one rollout to completion on its own copy of the game.
    ///
    /// At every ply the current state gets a zero-initialized row if it
    /// is new; a move is sampled among the legal columns by current
    /// win-rate; and the (state, move) pair is recorded in the history
    /// of the seat whose turn it is (even plies belong to the seat that
    /// moved first). A rollout always terminates: each accepted move
    /// fills one cell. The outcome — (wins, losses, ties) from the first
    /// seat's view, exactly one of them `1` — is backpropagated into
    /// both seats' histories with mirrored signs: the final table is
    /// provably a `credited_rollout` of the starting table, so a call
    /// on an unfinished game always credits at least the first seat's
    /// opening move. On a game that is already over nothing is played
    /// and the table is left unchanged.
    pub fn simulate(&mut self, game: Game) -> (r: (u64, u64, u64))
        requires
            old(self).wf(),
            game.wf(),
            rows_cover(old(self).memory_view(), game.spec_cols() as int),
        ensures
            final(self).wf(),
            rows_cover(final(self).memory_view(), game.spec_cols() as int),
            r.0 <= 1 && r.1 <= 1 && r.2 <= 1,
            r.0 + r.1 + r.2 == 1,
            forall|s: Seq<u8>|
                old(self).memory_view().contains_key(s)
                    ==> final(self).memory_view().contains_key(s),
            !game.game_over() ==> final(self).memory_view().contains_key(
                state_of(game.grid()),
            ),
            game.game_over() ==> final(self).memory_view() == old(self).memory_view(),
            !game.game_over() ==> exists|
                fresh: Seq<Seq<u8>>,
                my: Seq<(State, usize)>,
                their: Seq<(State, usize)>,
                sign: int,
            |
                #[trigger] credited_rollout(
                    old(self).memory_view(),
                    final(self).memory_view(),
                    game,
                    r,
                    fresh,
                    my,
                    their,
                    sign,
                ),
    {
        let ghost g0 = game;
        let ghost m_start = self.memory@;
        let mut game = game;
        let cols = game.cols();
        let ghost free0 = crate::board::free_cells(g0.grid());
        proof {
            crate::board::lemma_free_cells_bounded(g0.grid(), g0.spec_rows() as int);
            assert(g0.spec_cols() * g0.spec_rows() <= MAX_DIM * MAX_DIM) by (nonlinear_arith)
                requires
                    g0.spec_cols() <= MAX_DIM,
                    g0.spec_rows() <= MAX_DIM,
            ;
            crate::board::lemma_free_cells_nonneg(g0.grid());
        }
        let mut my_moves: Vec<(State, usize)> = Vec::new();
        let mut their_moves: Vec<(State, usize)> = Vec::new();
        let mut ply: u64 = 0;
        let ghost mut fresh: Seq<Seq<u8>> = Seq::empty();
        while !game.over()
            invariant
                self.wf(),
                game.wf(),
                cols == game.spec_cols(),
                cols == g0.spec_cols(),
                game.spec_rows() == g0.spec_rows(),
                rows_cover(self.memory@, cols as int),
                hist_ok(self.memory@, my_moves@),
                hist_ok(self.memory@, their_moves@),
                forall|s: Seq<u8>|
                    m_start.contains_key(s) ==> self.memory@.contains_key(s),
                ply > 0 ==> self.memory@.contains_key(state_of(g0.grid())),
                ply == 0 ==> game.grid() == g0.grid(),
                ply == 0 ==> game.game_over() == g0.game_over(),
                self.memory@ == insert_zero_rows(m_start, fresh, cols as int),
                ply == 0 ==> fresh == Seq::<Seq<u8>>::empty() && my_moves@.len() == 0
                    && their_moves@.len() == 0,
                ply > 0 ==> my_moves@.len() >= 1,
                ply > 0 ==> !g0.game_over(),
                my_moves@.len() >= 1 ==> my_moves@[0].0@ == state_of(g0.grid())
                    && my_moves@[0].1 < cols && !g0.column_full(my_moves@[0].1 as int),
                ply + crate::board::free_cells(game.grid()) == free0,
                free0 <= MAX_DIM * MAX_DIM,
                crate::board::free_cells(game.grid()) >= 0,
            decreases crate::board::free_cells(game.grid()),
        {
            proof {
                assert(!g0.game_over());
            }
            let state = game.state();
            let ghost st = state@;
            if !self.memory.contains(&state) {
                let owned = clone_bytes(&state);
                self.memory.insert_zero(owned, cols);
                proof {
                    let ghost pre_fresh = fresh;
                    fresh = fresh.push(st);
                    assert(fresh.drop_last() =~= pre_fresh);
                    assert(fresh.last() == st);
                    assert(self.memory@ == insert_zero_rows(m_start, fresh, cols as int));
                }
            }
            proof {
                assert(self.memory@.contains_key(state@));
                assert(self.memory@[state@].len() >= cols);
            }
            let moves = game.valid_moves();
            proof {
                let cfree = choose|c: int|
                    0 <= c < game.spec_cols() && !(#[trigger] game.column_full(c));
                assert(moves@.contains(cfree as usize));
                assert(moves@.len() >= 1);
            }
            let col = self.pick_move(&state, &moves);
            proof {
                let jw = choose|jw: int| 0 <= jw < moves@.len() && moves@[jw] == col;
                assert(col < game.spec_cols() && !game.column_full(col as int));
            }
            if ply % 2 == 0 {
                my_moves.push((state, col));
            } else {
                their_moves.push((state, col));
            }
            proof {
                if ply == 0 {
                    assert(my_moves@.len() == 1);
                    assert(my_moves@[0].0@ == st && my_moves@[0].1 == col);
                    assert(st == state_of(g0.grid()));
                    assert(!g0.column_full(col as int)) by {
                        assert(g0.grid()[col as int] == game.grid()[col as int]);
                    }
                }
            }
            let ghost gpre = game;
            match game.drop(col) {
                Ok(row) => {
                    proof {
                        crate::game::lemma_drop_decreases_free(
                            &gpre,
                            &game,
                            col as int,
                            row as int,
                        );
                    }
                },
                Err(_) => {
                    proof {
                        assert(false);
                    }
                    vstd::pervasive::unreached()
                },
            }
            ply += 1;
            proof {
                crate::board::lemma_free_cells_nonneg(game.grid());
            }
        }
        let my_sign: i8;
        let their_sign: i8;
        let res: (u64, u64, u64);
        match game.winner() {
            None => {
                res = (0, 0, 1);
                my_sign = 0;
                their_sign = 0;
            },
            Some(_) => {
                if ply % 2 == 0 {
                    res = (0, 1, 0);
                    my_sign = -1;
                    their_sign = 1;
                } else {
                    res = (1, 0, 0);
                    my_sign = 1;
                    their_sign = -1;
                }
            },
        }
        let ghost m_mid = self.memory@;
        self.update(my_sign, &my_moves);
        proof {
            assert(hist_ok(self.memory@, their_moves@)) by {
                assert forall|i: int| 0 <= i < their_moves@.len() implies self.memory@.contains_key(
                    (#[trigger] their_moves@[i]).0@,
                ) && their_moves@[i].1 < self.memory@[their_moves@[i].0@].len() by {
                    assert(m_mid.contains_key(their_moves@[i].0@));
                }
            }
            assert(rows_cover(self.memory@, cols as int)) by {
                assert forall|s: Seq<u8>| self.memory@.contains_key(s) implies (
                #[trigger] self.memory@[s]).len() >= cols by {
                    assert(m_mid.contains_key(s));
                }
            }
            assert forall|s: Seq<u8>| m_start.contains_key(s) implies
                self.memory@.contains_key(s) by {
                assert(m_mid.contains_key(s));
            }
        }
        let ghost m_mid2 = self.memory@;
        self.update(their_sign, &their_moves);
        proof {
            assert(rows_cover(self.memory@, cols as int)) by {
                assert forall|s: Seq<u8>| self.memory@.contains_key(s) implies (
                #[trigger] self.memory@[s]).len() >= cols by {
                    assert(m_mid2.contains_key(s));
                }
            }
            assert forall|s: Seq<u8>| m_start.contains_key(s) implies
                self.memory@.contains_key(s) by {
                assert(m_mid2.contains_key(s));
            }
            if ply > 0 {
                assert(m_mid2.contains_key(state_of(g0.grid())));
                assert(self.memory@.contains_key(state_of(g0.grid())));
            }
            assert(their_sign as int == 0 - (my_sign as int));
            assert(self.memory@ == apply_backprop(
                apply_backprop(m_mid, my_moves@, my_sign as int, 0),
                their_moves@,
                0 - (my_sign as int),
                0,
            ));
            if g0.game_over() {
                assert(ply == 0);
                assert(my_moves@.len() == 0 && their_moves@.len() == 0);
                assert(self.memory@ == m_mid);
                assert(fresh == Seq::<Seq<u8>>::empty());
                assert(m_mid == m_start);
            } else {
                assert(ply > 0);
                assert(credited_rollout(
                    m_start,
                    self.memory@,
                    g0,
                    res,
                    fresh,
                    my_moves@,
                    their_moves@,
                    my_sign as int,
                ));
            }
        }
        res
    }

    /// Runs rollouts on fresh copies of `game` until the time budget of
    /// `millis` milliseconds has elapsed, never mutating the caller's
    /// game. Returns the accumulated (wins, losses, ties, rollouts) from
    /// the first seat's view; the first three always sum to the fourth.
    /// Elapsed time is polled only between whole rollouts, so the budget
    /// may be exceeded by up to one rollout's cost.
    pub fn think(&mut self, game: &Game, millis: u64) -> (r: (u64, u64, u64, u64))
        requires
            old(self).wf(),
            game.wf(),
            rows_cover(old(self).memory_view(), game.spec_cols() as int),
        ensures
            final(self).wf(),
            rows_cover(final(self).memory_view(), game.spec_cols() as int),
            r.0 + r.1 + r.2 == r.3,
            forall|s: Seq<u8>|
                old(self).memory_view().contains_key(s)
                    ==> final(self).memory_view().contains_key(s),
            !game.game_over() && r.3 > 0 ==> final(self).memory_view().contains_key(
                state_of(game.grid()),
            ),
    {
        let start = Instant::now();
        let mut wins: u64 = 0;
        let mut losses: u64 = 0;
        let mut ties: u64 = 0;
        let mut rollouts: u64 = 0;
        let mut fuel: u64 = 0xffff_ffff_ffff_ffff;
        while fuel > 0 && millis_since(&start) < millis
            invariant
                self.wf(),
                game.wf(),
                rows_cover(self.memory@, game.spec_cols() as int),
                wins + losses + ties == rollouts,
                rollouts == 0xffff_ffff_ffff_ffffu64 - fuel,
                forall|s: Seq<u8>|
                    old(self).memory@.contains_key(s) ==> self.memory@.contains_key(s),
                !game.game_over() && rollouts > 0 ==> self.memory@.contains_key(
                    state_of(game.grid()),
                ),
            decreases fuel,
        {
            let g = game.clone();
            proof {
                assert forall|c: int| 0 <= c < g.spec_cols() implies (#[trigger] g.column_full(c))
                    == game.column_full(c) by {
                    assert(g.grid()[c] == game.grid()[c]);
                }
                if g.board_full() {
                    assert forall|c: int| 0 <= c < game.spec_cols() implies #[trigger] game.column_full(
                        c,
                    ) by {
                        assert(g.column_full(c));
                    }
                }
                if game.board_full() {
                    assert forall|c: int| 0 <= c < g.spec_cols() implies #[trigger] g.column_full(
                        c,
                    ) by {
                        assert(game.column_full(c));
                    }
                }
                assert(g.game_over() == game.game_over());
                assert(state_of(g.grid()) == state_of(game.grid()));
            }
            let (w, l, t) = self.simulate(g);
            wins += w;
            losses += l;
            ties += t;
            rollouts += 1;
            fuel -= 1;
        }
        (wins, losses, ties, rollouts)
    }
}

} // verus!
