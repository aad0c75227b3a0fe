use connect_four::board::Player;
use connect_four::game::{DropError, Game};

fn play(game: &mut Game, cols: &[usize]) {
    for c in cols {
        game.drop(*c).unwrap();
    }
}

#[test]
fn default_game_dimensions() {
    let g = Game::new();
    assert_eq!(g.cols(), 7);
    assert_eq!(g.rows(), 6);
    assert_eq!(g.win_len(), 4);
    assert_eq!(g.current_player(), Player::Player1);
    assert!(!g.over());
}

#[test]
fn players_alternate() {
    let mut g = Game::new();
    assert_eq!(g.current_player(), Player::Player1);
    g.drop(0).unwrap();
    assert_eq!(g.current_player(), Player::Player2);
    g.drop(1).unwrap();
    assert_eq!(g.current_player(), Player::Player1);
}

#[test]
fn scenario_bottom_row_win() {
    // 7x6, win length 4. The first player occupies row 0 of columns
    // 0..=3 on four separate turns; the second player plays elsewhere.
    let mut g = Game::new();
    play(&mut g, &[0, 4, 1, 5, 2, 6]);
    assert!(!g.over());
    assert!(g.winner().is_none());
    g.drop(3).unwrap();
    assert!(g.over());
    let (p, cells) = g.winner().expect("a completed line must be reported");
    assert_eq!(p, Player::Player1);
    assert_eq!(cells, vec![(0, 0), (1, 0), (2, 0), (3, 0)]);
}

#[test]
fn vertical_win_is_detected() {
    let mut g = Game::custom(4, 4, 3);
    play(&mut g, &[0, 1, 0, 2]);
    assert!(!g.over());
    g.drop(0).unwrap();
    let (p, cells) = g.winner().unwrap();
    assert_eq!(p, Player::Player1);
    assert_eq!(cells, vec![(0, 0), (0, 1), (0, 2)]);
}

#[test]
fn horizontal_win_is_detected() {
    let mut g = Game::custom(5, 4, 3);
    play(&mut g, &[0, 4, 1, 4]);
    assert!(!g.over());
    g.drop(2).unwrap();
    let (p, cells) = g.winner().unwrap();
    assert_eq!(p, Player::Player1);
    assert_eq!(cells, vec![(0, 0), (1, 0), (2, 0)]);
}

#[test]
fn rising_diagonal_win_is_detected() {
    let mut g = Game::custom(4, 4, 3);
    play(&mut g, &[0, 1, 1, 2, 3, 2]);
    assert!(!g.over());
    g.drop(2).unwrap();
    let (p, cells) = g.winner().unwrap();
    assert_eq!(p, Player::Player1);
    assert_eq!(cells, vec![(0, 0), (1, 1), (2, 2)]);
}

#[test]
fn falling_diagonal_win_is_detected() {
    let mut g = Game::custom(4, 4, 3);
    play(&mut g, &[2, 1, 1, 0, 0, 3]);
    assert!(!g.over());
    g.drop(0).unwrap();
    let (p, cells) = g.winner().unwrap();
    assert_eq!(p, Player::Player1);
    assert_eq!(cells, vec![(0, 2), (1, 1), (2, 0)]);
}

#[test]
fn win_detection_is_order_independent() {
    // Two different play orders produce the same four first-player
    // cells; the win is detected on whichever move completes the line,
    // and the reported line is the same.
    let mut a = Game::new();
    play(&mut a, &[0, 4, 1, 5, 2, 6, 3]);
    let mut b = Game::new();
    play(&mut b, &[3, 6, 2, 5, 1, 4, 0]);
    let (pa, cells_a) = a.winner().unwrap();
    let (pb, cells_b) = b.winner().unwrap();
    assert_eq!(pa, Player::Player1);
    assert_eq!(pb, Player::Player1);
    assert_eq!(cells_a, cells_b);
    assert_eq!(cells_a, vec![(0, 0), (1, 0), (2, 0), (3, 0)]);
}

#[test]
fn full_board_without_line_is_a_tie() {
    // 3x3, win length 3: a filling order that completes no line.
    let mut g = Game::custom(3, 3, 3);
    play(&mut g, &[0, 2, 1, 0, 2, 1, 0, 2]);
    assert!(!g.over());
    g.drop(1).unwrap();
    assert!(g.over());
    assert!(g.winner().is_none());
}

#[test]
fn drop_after_game_over_fails_and_mutates_nothing() {
    let mut g = Game::new();
    play(&mut g, &[0, 4, 1, 5, 2, 6, 3]);
    assert!(g.over());
    let state_before = g.state();
    let player_before = g.current_player();
    match g.drop(4) {
        Err(DropError::GameOver(_)) => (),
        other => panic!("expected a game-over failure, got {:?}", other),
    }
    assert_eq!(g.state(), state_before);
    assert_eq!(g.current_player(), player_before);
}

#[test]
fn invalid_column_fails_and_mutates_nothing() {
    let mut g = Game::new();
    let state_before = g.state();
    match g.drop(7) {
        Err(DropError::InvalidColumn(_)) => (),
        other => panic!("expected an invalid-column failure, got {:?}", other),
    }
    // A full column fails the same way.
    for _ in 0..3 {
        g.drop(2).unwrap();
        g.drop(2).unwrap();
    }
    let full_state = g.state();
    match g.drop(2) {
        Err(DropError::InvalidColumn(_)) => (),
        other => panic!("expected an invalid-column failure, got {:?}", other),
    }
    assert_eq!(g.state(), full_state);
    assert_ne!(state_before, full_state);
}

#[test]
fn valid_moves_are_ascending_open_columns() {
    let mut g = Game::custom(4, 2, 4);
    assert_eq!(g.valid_moves(), vec![0, 1, 2, 3]);
    // Fill column 1 entirely.
    g.drop(1).unwrap();
    g.drop(1).unwrap();
    assert_eq!(g.valid_moves(), vec![0, 2, 3]);
    g.drop(3).unwrap();
    g.drop(3).unwrap();
    assert_eq!(g.valid_moves(), vec![0, 2]);
}

#[test]
fn state_serializes_cells_in_column_major_order() {
    let mut g = Game::custom(3, 2, 3);
    // First player at (0,0), second at (1,0).
    play(&mut g, &[0, 1]);
    let s = g.state();
    // (col 0, rows 0..2), (col 1, rows 0..2), (col 2, rows 0..2).
    assert_eq!(s, vec![1, 0, 2, 0, 0, 0]);
}

#[test]
fn state_is_determined_by_cell_contents() {
    // Two move orders that fill the same cells with the same tokens.
    let mut a = Game::new();
    play(&mut a, &[0, 4, 1, 5]);
    let mut b = Game::new();
    play(&mut b, &[1, 5, 0, 4]);
    assert_eq!(a.state(), b.state());
}

#[test]
fn board_snapshot_is_decoupled() {
    let mut g = Game::new();
    g.drop(0).unwrap();
    let snap = g.board();
    g.drop(0).unwrap();
    assert_eq!(snap.token_at(0, 1), None);
    assert_eq!(snap.token_at(0, 0), Some(Player::Player1));
}

#[test]
fn search_ranges_cover_the_played_cell() {
    let g = Game::new();
    let ranges = g.search_ranges(3, 0);
    assert!(!ranges.is_empty());
    for w in &ranges {
        assert_eq!(w.len(), 4);
        assert!(w.iter().any(|&(c, r)| c == 3 && r == 0));
        for &(c, r) in w {
            assert!(c < 7 && r < 6);
        }
    }
}
