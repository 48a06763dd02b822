use c4_solver::bitboard::{Bitboard, MoveError, Player, HEIGHT, WIDTH};

#[test]
fn new_board_is_empty() {
    let b = Bitboard::new();
    assert_eq!(b.current_player(), Player::Red);
    assert_eq!(b.move_count(), 0);
    assert!(!b.is_draw());
    for col in 0..WIDTH {
        assert!(b.can_play(col));
        for row in 0..HEIGHT {
            assert_eq!(b.piece_at(col, row), None);
        }
    }
}

#[test]
fn play_and_piece_at() {
    let mut b = Bitboard::new();
    b.play(3).unwrap();
    assert_eq!(b.piece_at(3, 0), Some(Player::Red));
    assert_eq!(b.current_player(), Player::Yellow);
    b.play(3).unwrap();
    assert_eq!(b.piece_at(3, 1), Some(Player::Yellow));
    assert_eq!(b.current_player(), Player::Red);
}

#[test]
fn vertical_win() {
    let b = Bitboard::from_ascii(
        "
         .  .  .  .  .  .  .
         .  .  .  .  .  .  .
         R  .  .  .  .  .  .
         R  Y  .  .  .  .  .
         R  Y  .  .  .  .  .
         R  Y  .  .  .  .  .
        ",
        Player::Yellow,
    );
    assert!(b.is_winning());
    assert!(b.has_won(Player::Red));
    assert!(!b.has_won(Player::Yellow));
}

#[test]
fn horizontal_win() {
    let b = Bitboard::from_ascii(
        "
         .  .  .  .  .  .  .
         .  .  .  .  .  .  .
         .  .  .  .  .  .  .
         .  .  .  .  .  .  .
         Y  Y  Y  .  .  .  .
         R  R  R  R  .  .  .
        ",
        Player::Yellow,
    );
    assert!(b.is_winning());
    assert!(b.has_won(Player::Red));
}

#[test]
fn diagonal_up_right_win() {
    // Red / diagonal at (0,0),(1,1),(2,2),(3,3)
    let b = Bitboard::from_ascii(
        "
         .  .  .  .  .  .  .
         .  .  .  .  .  .  .
         .  .  .  R  .  .  .
         .  .  R  Y  .  .  .
         .  R  Y  Y  .  .  .
         R  Y  Y  R  R  .  .
        ",
        Player::Yellow,
    );
    assert!(b.is_winning());
    assert!(b.has_won(Player::Red));
}

#[test]
fn diagonal_down_right_win() {
    // Red \ diagonal at (0,3),(1,2),(2,1),(3,0)
    let b = Bitboard::from_ascii(
        "
         .  .  .  .  .  .  .
         .  .  .  .  .  .  .
         R  .  .  .  .  .  .
         Y  R  .  .  .  .  .
         Y  R  R  .  .  .  .
         Y  Y  R  R  Y  .  .
        ",
        Player::Yellow,
    );
    assert!(b.is_winning());
    assert!(b.has_won(Player::Red));
}

#[test]
fn column_full() {
    let mut b = Bitboard::from_ascii(
        "
         Y  .  .  .  .  .  .
         R  .  .  .  .  .  .
         Y  .  .  .  .  .  .
         R  .  .  .  .  .  .
         Y  .  .  .  .  .  .
         R  .  .  .  .  .  .
        ",
        Player::Red,
    );
    assert!(!b.can_play(0));
    assert_eq!(b.play(0), Err(MoveError::ColumnFull));
}

#[test]
fn out_of_range() {
    let mut b = Bitboard::new();
    assert_eq!(b.play(7), Err(MoveError::OutOfRange));
    assert_eq!(b.play(100), Err(MoveError::OutOfRange));
    assert!(!b.can_play(7));
}

#[test]
fn draw() {
    // A valid 42-move draw position (2x2 block pattern, no 4-in-a-row).
    let b = Bitboard::from_ascii(
        "
         Y  Y  R  R  Y  Y  R
         R  R  Y  Y  R  R  Y
         Y  Y  R  R  Y  Y  R
         R  R  Y  Y  R  R  Y
         Y  Y  R  R  Y  Y  R
         R  R  Y  Y  R  R  Y
        ",
        Player::Red,
    );
    assert!(b.is_draw());
    assert!(!b.has_won(Player::Red));
    assert!(!b.has_won(Player::Yellow));

    // A fresh board is not a draw.
    let b2 = Bitboard::new();
    assert!(!b2.is_draw());
}

#[test]
fn no_false_win_on_empty() {
    let b = Bitboard::new();
    assert!(!b.is_winning());
    assert!(!b.has_won(Player::Red));
    assert!(!b.has_won(Player::Yellow));
}

#[test]
fn valid_columns_full_board() {
    let b = Bitboard::from_ascii(
        "
         Y  .  .  .  .  .  .
         R  .  .  .  .  .  .
         Y  .  .  .  .  .  .
         R  .  .  .  .  .  .
         Y  .  .  .  .  .  .
         R  .  .  .  .  .  .
        ",
        Player::Red,
    );
    let valid = b.valid_columns();
    assert!(!valid.contains(&0));
    assert_eq!(valid.len(), WIDTH - 1);
}

#[test]
fn from_ascii_empty_board() {
    let b = Bitboard::from_ascii(
        "
         1  2  3  4  5  6  7
         .  .  .  .  .  .  .
         .  .  .  .  .  .  .
         .  .  .  .  .  .  .
         .  .  .  .  .  .  .
         .  .  .  .  .  .  .
         .  .  .  .  .  .  .
         ---------------------
        ",
        Player::Red,
    );
    assert_eq!(b, Bitboard::new());
}

#[test]
fn from_ascii_single_piece() {
    let b = Bitboard::from_ascii(
        "
         .  .  .  .  .  .  .
         .  .  .  .  .  .  .
         .  .  .  .  .  .  .
         .  .  .  .  .  .  .
         .  .  .  .  .  .  .
         .  .  .  R  .  .  .
        ",
        Player::Yellow,
    );
    assert_eq!(b.piece_at(3, 0), Some(Player::Red));
    assert_eq!(b.move_count(), 1);
    assert_eq!(b.current_player(), Player::Yellow);
}

#[test]
fn from_ascii_round_trip() {
    // Build a board via play() calls
    let mut expected = Bitboard::new();
    expected.play(3).unwrap(); // R at (3,0)
    expected.play(3).unwrap(); // Y at (3,1)
    expected.play(2).unwrap(); // R at (2,0)

    // Parse the equivalent ASCII (Yellow to move, 3 pieces placed)
    let parsed = Bitboard::from_ascii(
        "
         .  .  .  .  .  .  .
         .  .  .  .  .  .  .
         .  .  .  .  .  .  .
         .  .  .  .  .  .  .
         .  .  .  Y  .  .  .
         .  .  R  R  .  .  .
        ",
        Player::Yellow,
    );

    assert_eq!(parsed.position_mask(), expected.position_mask());
    assert_eq!(parsed.all_mask(), expected.all_mask());
    assert_eq!(parsed.move_count(), expected.move_count());
    assert_eq!(parsed.current_player(), expected.current_player());
}
