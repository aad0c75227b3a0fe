use connect_four::game::Game;
use connect_four::hbot::next_move;

#[test]
fn next_move_returns_a_playable_column() {
    let mut g = Game::new();
    for _ in 0..10 {
        let c = next_move(&g);
        assert!(g.valid_moves().contains(&c));
        g.drop(c).unwrap();
        if g.over() {
            break;
        }
    }
}

#[test]
fn next_move_avoids_full_columns() {
    let mut g = Game::custom(2, 2, 2);
    // Fill column 0 entirely without completing a line.
    g.drop(0).unwrap();
    g.drop(0).unwrap();
    assert!(!g.over());
    for _ in 0..10 {
        assert_eq!(next_move(&g), 1);
    }
}

#[test]
fn next_move_prefers_the_most_promising_column() {
    // 5x4, win length 3: the first player already holds (0,0) and (1,0);
    // dropping into column 2 would complete the line, and column 2 is
    // the unique best-scoring move.
    let mut g = Game::custom(5, 4, 3);
    g.drop(0).unwrap();
    g.drop(0).unwrap();
    g.drop(1).unwrap();
    g.drop(1).unwrap();
    assert!(!g.over());
    let c = next_move(&g);
    assert_eq!(c, 2);
    g.drop(c).unwrap();
    assert!(g.over());
}
