use std::cmp;

use connect_four::game::Game;
use rand::Rng;

fn print_search_ranges(cols: usize, rows: usize, wins: usize, col: usize, row: usize) {
    let game = Game::custom(cols, rows, wins);

    for range in game.search_ranges(col, row) {
        let mut line = String::new();
        for (c, r) in &range {
            line.push_str(&format!("({},{}) ", c, r));
        }
        println!("{}", line);
    }
}

#[test]
fn game_test_game_search_ranges() {
    let mut rng = rand::thread_rng();

    let cols: usize = rng.gen_range(3..10);
    let rows: usize = rng.gen_range(3..10);
    let wins: usize = rng.gen_range(2..cmp::min(cols, rows) + 1);

    print_search_ranges(cols, rows, wins, rng.gen_range(0..cols), rng.gen_range(0..rows))
}

#[test]
fn mod_test_game_search_ranges() {
    let mut rng = rand::thread_rng();

    let cols: usize = rng.gen_range(3..10);
    let rows: usize = rng.gen_range(3..10);
    let wins: usize = rng.gen_range(2..cmp::min(cols, rows) + 1);

    print_search_ranges(cols, rows, wins, rng.gen_range(0..cols), rng.gen_range(0..rows))
}
