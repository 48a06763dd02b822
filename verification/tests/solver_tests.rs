use c4_solver::bitboard::{Bitboard, Player};
use c4_solver::solver::{best_move, evaluate};
use std::time::Duration;

#[test]
fn wins_immediately_when_possible() {
    let board = Bitboard::from_ascii(
        "
         .  .  .  .  .  .  .
         .  .  .  .  .  .  .
         .  .  .  .  .  .  .
         R  Y  .  .  .  .  .
         R  Y  .  .  .  .  .
         R  Y  .  .  .  .  .
        ",
        Player::Red,
    );
    assert_eq!(best_move(&board, 3, Duration::from_secs(30)), 0);
}

#[test]
fn blocks_opponent_win() {
    let board = Bitboard::from_ascii(
        "
         .  .  .  .  .  .  .
         .  .  .  .  .  .  .
         .  .  .  .  .  .  .
         .  .  Y  .  .  .  .
         R  .  Y  .  .  .  .
         R  R  Y  .  .  .  .
        ",
        Player::Red,
    );
    // Red to move. Yellow threatens col 2 row 3. Red must block.
    assert_eq!(best_move(&board, 5, Duration::from_secs(30)), 2);
}

#[test]
fn empty_board_evaluates_to_zero() {
    let board = Bitboard::new();
    assert_eq!(evaluate(&board), 0);
}

#[test]
fn prefers_center_on_empty_board() {
    let board = Bitboard::new();
    let col = best_move(&board, 5, Duration::from_secs(30));
    // Should prefer center column (3).
    assert_eq!(col, 3);
}
