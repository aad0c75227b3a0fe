use connect_four::game::Game;
use connect_four::mcts::{best_move, MCTS};
use connect_four::table::WEIGHT_SCALE;

#[test]
fn best_move_picks_first_highest_weight() {
    let moves = vec![0usize, 2, 4, 6];
    let weights = vec![100u64, 700, 700, 200];
    assert_eq!(best_move(&moves, &weights), 2);
    let uniform = vec![5u64, 5, 5, 5];
    assert_eq!(best_move(&moves, &uniform), 0);
}

#[test]
fn simulate_reports_exactly_one_outcome() {
    let mut engine = MCTS::new();
    for _ in 0..25 {
        let game = Game::custom(4, 4, 3);
        let (wins, losses, ties) = engine.simulate(game);
        assert_eq!(wins + losses + ties, 1);
        assert!(wins <= 1 && losses <= 1 && ties <= 1);
    }
}

#[test]
fn simulate_on_a_tiny_board_always_finds_a_winner() {
    // 1x1 with win length 1: the first move always completes a line.
    let mut engine = MCTS::new();
    let game = Game::custom(1, 1, 1);
    let (wins, losses, ties) = engine.simulate(game);
    assert_eq!((wins, losses, ties), (1, 0, 0));
}

#[test]
fn an_immediate_win_is_credited_with_a_full_weight() {
    // On a 1x1 board with win length 1 the only rollout move wins at
    // distance zero, so its credit is 0.5 + 0.5/1 = 1.0: a weight of
    // exactly WEIGHT_SCALE after one visit.
    let mut engine = MCTS::new();
    let game = Game::custom(1, 1, 1);
    let opening = game.state();
    engine.simulate(game);
    let weights = engine.move_weights(&opening, &vec![0]);
    assert_eq!(weights, vec![WEIGHT_SCALE]);
}

#[test]
fn a_tie_is_credited_with_the_neutral_weight() {
    // One column, two rows, win length 2: the rollout fills the column
    // without a line and ties, so each seat's move is credited with
    // exactly the neutral 0.5.
    let mut engine = MCTS::new();
    let game = Game::custom(1, 2, 2);
    let opening = game.state();
    let (wins, losses, ties) = engine.simulate(game);
    assert_eq!((wins, losses, ties), (0, 0, 1));
    let weights = engine.move_weights(&opening, &vec![0]);
    assert_eq!(weights, vec![WEIGHT_SCALE / 2]);
}

#[test]
fn an_unvisited_slot_reports_the_neutral_prior() {
    // Two columns, win length 1: one rollout visits exactly one of the
    // two opening columns and wins. The visited slot reports a full
    // weight, the untouched one the neutral prior.
    let mut engine = MCTS::new();
    let game = Game::custom(2, 1, 1);
    let opening = game.state();
    engine.simulate(game);
    let mut weights = engine.move_weights(&opening, &vec![0, 1]);
    weights.sort();
    assert_eq!(weights, vec![WEIGHT_SCALE / 2, WEIGHT_SCALE]);
}

#[test]
fn think_accumulates_rollout_counts() {
    let mut engine = MCTS::new();
    let game = Game::new();
    let (wins, losses, ties, rollouts) = engine.think(&game, 200);
    assert!(rollouts > 0, "a fifth of a second must fit at least one rollout");
    assert_eq!(wins + losses + ties, rollouts);
}

#[test]
fn think_does_not_mutate_the_callers_game() {
    let mut engine = MCTS::new();
    let mut game = Game::new();
    game.drop(3).unwrap();
    let state_before = game.state();
    let player_before = game.current_player();
    engine.think(&game, 100);
    assert_eq!(game.state(), state_before);
    assert_eq!(game.current_player(), player_before);
    assert!(!game.over());
}

#[test]
fn move_weights_lie_between_zero_and_one() {
    let mut engine = MCTS::new();
    let game = Game::new();
    let (_, _, _, rollouts) = engine.think(&game, 1000);
    assert!(rollouts > 0);
    let weights = engine.move_weights(&game.state(), &game.valid_moves());
    assert_eq!(weights.len(), 7);
    for w in weights {
        // In fixed-point form, `[0, 1]` is `[0, WEIGHT_SCALE]`.
        assert!(w <= WEIGHT_SCALE);
    }
}

#[test]
fn center_column_is_preferred_from_the_empty_board() {
    // After a second of self-play per trial, the center column of the
    // default board should carry, on average over fresh engines, the
    // highest estimated win-rate. A tolerance keeps the statistical
    // assertion robust.
    const TRIALS: usize = 5;
    let mut sums = [0.0f64; 7];
    for _ in 0..TRIALS {
        let mut engine = MCTS::new();
        let game = Game::new();
        let (_, _, _, rollouts) = engine.think(&game, 1000);
        assert!(rollouts > 0);
        let weights = engine.move_weights(&game.state(), &game.valid_moves());
        for (c, w) in weights.iter().enumerate() {
            let v = *w as f64 / WEIGHT_SCALE as f64;
            assert!((0.0..=1.0).contains(&v));
            sums[c] += v;
        }
    }
    let center = sums[3] / TRIALS as f64;
    for (c, sum) in sums.iter().enumerate() {
        if c != 3 {
            let other = sum / TRIALS as f64;
            assert!(
                center + 0.02 >= other,
                "center weight {} fell below column {} weight {}",
                center,
                c,
                other
            );
        }
    }
}
