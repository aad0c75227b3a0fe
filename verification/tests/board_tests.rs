use connect_four::board::{Board, CellState, Player};

#[test]
fn cell_has_matches_exact_occupant() {
    let filled = CellState::Filled(Player::Player1);
    assert!(filled.has(Player::Player1));
    assert!(!filled.has(Player::Player2));
    assert!(!CellState::Empty.has(Player::Player1));
    assert!(!CellState::Empty.has(Player::Player2));
}

#[test]
fn new_board_is_empty() {
    let b = Board::new(7, 6);
    assert_eq!(b.cols(), 7);
    assert_eq!(b.rows(), 6);
    for c in 0..7 {
        for r in 0..6 {
            assert!(b.token_at(c, r).is_none());
        }
    }
}

#[test]
fn drop_fills_lowest_empty_cell() {
    let mut b = Board::new(7, 6);
    assert_eq!(b.drop(3, Player::Player1).unwrap(), 0);
    assert_eq!(b.drop(3, Player::Player2).unwrap(), 1);
    assert_eq!(b.drop(3, Player::Player1).unwrap(), 2);
    assert_eq!(b.token_at(3, 0), Some(Player::Player1));
    assert_eq!(b.token_at(3, 1), Some(Player::Player2));
    assert_eq!(b.token_at(3, 2), Some(Player::Player1));
    assert_eq!(b.token_at(3, 3), None);
}

#[test]
fn drop_out_of_range_fails() {
    let mut b = Board::new(7, 6);
    assert!(b.drop(7, Player::Player1).is_err());
    assert!(b.drop(100, Player::Player1).is_err());
    // Nothing was modified.
    for c in 0..7 {
        assert_eq!(b.top(c), Some(0));
    }
}

#[test]
fn full_column_always_rejects_further_drops() {
    let mut b = Board::new(4, 3);
    for i in 0..3 {
        let p = if i % 2 == 0 { Player::Player1 } else { Player::Player2 };
        b.drop(1, p).unwrap();
    }
    assert_eq!(b.top(1), None);
    // Once full, every further drop into the column fails, repeatedly.
    for i in 0..5 {
        let p = if i % 2 == 0 { Player::Player1 } else { Player::Player2 };
        assert!(b.drop(1, p).is_err());
    }
    // Other columns still accept drops.
    assert_eq!(b.drop(0, Player::Player1).unwrap(), 0);
}

#[test]
fn occupancy_is_bottom_up_contiguous() {
    let mut b = Board::new(5, 4);
    let seq = [2usize, 2, 0, 4, 2, 4, 0, 2];
    for (i, c) in seq.iter().enumerate() {
        let p = if i % 2 == 0 { Player::Player1 } else { Player::Player2 };
        b.drop(*c, p).unwrap();
    }
    for c in 0..5 {
        let mut seen_empty = false;
        for r in 0..4 {
            match b.token_at(c, r) {
                None => seen_empty = true,
                Some(_) => assert!(!seen_empty, "filled cell above an empty one"),
            }
        }
    }
}

#[test]
fn top_reports_lowest_empty_row() {
    let mut b = Board::new(3, 3);
    assert_eq!(b.top(0), Some(0));
    b.drop(0, Player::Player1).unwrap();
    assert_eq!(b.top(0), Some(1));
    b.drop(0, Player::Player2).unwrap();
    assert_eq!(b.top(0), Some(2));
    b.drop(0, Player::Player1).unwrap();
    assert_eq!(b.top(0), None);
}

#[test]
fn clone_is_decoupled() {
    let mut b = Board::new(4, 4);
    b.drop(0, Player::Player1).unwrap();
    let snapshot = b.clone();
    b.drop(0, Player::Player2).unwrap();
    assert_eq!(snapshot.token_at(0, 1), None);
    assert_eq!(b.token_at(0, 1), Some(Player::Player2));
    assert_eq!(snapshot.token_at(0, 0), Some(Player::Player1));
}
