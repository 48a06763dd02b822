use c4_solver::bitboard::{Bitboard, MoveError, Player, WIDTH};
use c4_solver::display::player_style;
use c4_solver::game::{Game, TurnOutcome};
use c4_solver::menu::{menu_choice, yes_no};
use c4_solver::player::{parse_column_input, ComputerPlayer, Difficulty, InputError, PlayerController};
use c4_solver::service::{replay_moves, status_after, GameStatus, RequestError};
use c4_solver::solver::{best_move, best_move_until, evaluate, iterative_deepening};
use std::time::{Duration, Instant};

fn board_from_moves(moves: &[usize]) -> Bitboard {
    let mut b = Bitboard::new();
    for &c in moves {
        b.play(c).unwrap();
    }
    b
}

#[test]
fn play_lands_on_lowest_empty_cell() {
    let mut b = Bitboard::new();
    b.play(0).unwrap();
    b.play(0).unwrap();
    b.play(0).unwrap();
    assert_eq!(b.piece_at(0, 0), Some(Player::Red));
    assert_eq!(b.piece_at(0, 1), Some(Player::Yellow));
    assert_eq!(b.piece_at(0, 2), Some(Player::Red));
    assert_eq!(b.piece_at(0, 3), None);
    assert_eq!(b.move_count(), 3);
    assert_eq!(b.current_player(), Player::Yellow);
}

#[test]
fn rejected_move_leaves_board_unchanged() {
    let mut b = board_from_moves(&[0, 0, 0, 0, 0, 0]);
    let before = b;
    assert_eq!(b.play(0), Err(MoveError::ColumnFull));
    assert_eq!(b, before);
    assert_eq!(b.play(WIDTH), Err(MoveError::OutOfRange));
    assert_eq!(b, before);
}

#[test]
fn piece_at_off_board_is_none() {
    let b = board_from_moves(&[3]);
    assert_eq!(b.piece_at(7, 0), None);
    assert_eq!(b.piece_at(3, 6), None);
    assert_eq!(b.piece_at(3, 0), Some(Player::Red));
}

#[test]
fn masks_follow_the_pieces() {
    let b = board_from_moves(&[3, 3, 2]);
    // Yellow to move: Yellow owns (3,1), Red owns (3,0) and (2,0).
    assert_eq!(b.position_mask(), 1u64 << (3 * 7 + 1));
    assert_eq!(b.all_mask(), (1u64 << (3 * 7)) | (1u64 << (3 * 7 + 1)) | (1u64 << (2 * 7)));
}

#[test]
fn yellow_wins_and_is_reported() {
    // Yellow stacks column 1 while Red scatters.
    let b = board_from_moves(&[0, 1, 2, 1, 3, 1, 5, 1]);
    assert!(b.is_winning());
    assert!(b.has_won(Player::Yellow));
    assert!(!b.has_won(Player::Red));
    assert_eq!(b.current_player(), Player::Red);
}

#[test]
fn three_in_a_row_is_not_a_win() {
    let b = board_from_moves(&[0, 6, 1, 6, 2]);
    assert!(!b.has_won(Player::Red));
    assert!(!b.is_winning());
}

#[test]
fn valid_columns_in_order() {
    let b = board_from_moves(&[2, 2, 2, 2, 2, 2]);
    assert_eq!(b.valid_columns(), vec![0, 1, 3, 4, 5, 6]);
    assert_eq!(Bitboard::new().valid_columns(), vec![0, 1, 2, 3, 4, 5, 6]);
}

#[test]
fn default_is_new() {
    assert_eq!(Bitboard::default(), Bitboard::new());
}

#[test]
fn other_swaps_players() {
    assert_eq!(Player::Red.other(), Player::Yellow);
    assert_eq!(Player::Yellow.other(), Player::Red);
    assert_eq!(Player::Red.other().other(), Player::Red);
}

#[test]
fn from_ascii_header_footer_and_crlf() {
    let b = Bitboard::from_ascii(
        " 1 2 3 4 5 6 7\r\n . . . . . . .\r\n . . . . . . .\r\n . . . . . . .\r\n . . . . . . .\r\n \u{00b7} \u{00b7} Y \u{00b7} \u{00b7} \u{00b7} \u{00b7}\r\n . . R R . . .\r\n ---------------------\r\n",
        Player::Yellow,
    );
    assert_eq!(b, board_from_moves(&[2, 2, 3]));
    assert_eq!(b.piece_at(2, 1), Some(Player::Yellow));
}

#[test]
fn from_ascii_short_picture_fills_from_the_top() {
    // A single content row is the top row (row 5).
    let b = Bitboard::from_ascii("R . . . . . .", Player::Red);
    assert_eq!(b.piece_at(0, 5), Some(Player::Red));
    assert_eq!(b.piece_at(0, 0), None);
    assert_eq!(b.move_count(), 1);
    assert!(!b.can_play(0));
}

#[test]
fn evaluation_exact_values() {
    // Red at the bottom of the center column, Yellow to move: -7.
    let b = board_from_moves(&[3]);
    assert_eq!(evaluate(&b), -7);
    // Yellow answers on top of it (weight 10): Red to move, 7 - 10 = -3.
    let b = board_from_moves(&[3, 3]);
    assert_eq!(evaluate(&b), -3);
}

#[test]
fn full_board_draw_has_all_pieces() {
    let b = Bitboard::from_ascii(
        "
         Y  Y  R  R  Y  Y  R
         R  R  Y  Y  R  R  Y
         Y  Y  R  R  Y  Y  R
         R  R  Y  Y  R  R  Y
         Y  Y  R  R  Y  Y  R
         R  R  Y  Y  R  R  Y
        ",
        Player::Red,
    );
    assert_eq!(b.move_count(), 42);
    assert!(b.valid_columns().is_empty());
    assert_eq!(best_move(&b, 3, Duration::from_secs(5)), 3);
}

#[test]
fn best_move_is_playable() {
    let b = board_from_moves(&[3, 3, 3, 3, 3, 3, 2]);
    let col = best_move(&b, 4, Duration::from_secs(30));
    assert!(col < WIDTH);
    assert!(b.can_play(col));
    assert_ne!(col, 3);
}

#[test]
fn takes_the_only_open_column() {
    let b = board_from_moves(&[0, 0, 0, 0, 0, 0, 1, 1, 1, 1, 1, 1]);
    let mut only = b;
    for c in 2..WIDTH {
        for _ in 0..6 {
            if c != 6 {
                let _ = only.play(c);
            }
        }
    }
    let col = best_move(&only, 3, Duration::from_secs(30));
    assert!(only.can_play(col));
}

#[test]
fn difficulty_depths() {
    assert_eq!(Difficulty::Easy.depth(), 3);
    assert_eq!(Difficulty::Normal.depth(), 9);
    assert_eq!(Difficulty::Hard.depth(), 18);
}

#[test]
fn computer_player_plays_a_legal_column() {
    let p = ComputerPlayer::new(Difficulty::Easy, Duration::from_secs(30));
    assert!(!p.is_human());
    let board = board_from_moves(&[0, 1, 0, 1, 0, 1]);
    // Red threatens the fourth piece in column 0 and must take it.
    assert_eq!(p.choose_column(&board), 0);
}

#[test]
fn column_input_parsing() {
    let b = board_from_moves(&[0, 0, 0, 0, 0, 0]);
    assert_eq!(parse_column_input("3", &b), Ok(2));
    assert_eq!(parse_column_input("  +4 \r\n", &b), Ok(3));
    assert_eq!(parse_column_input("007", &b), Ok(6));
    assert_eq!(parse_column_input("1", &b), Err(InputError::ColumnFull));
    assert_eq!(parse_column_input("8", &b), Err(InputError::NotAColumn));
    assert_eq!(parse_column_input("0", &b), Err(InputError::NotAColumn));
    assert_eq!(parse_column_input("", &b), Err(InputError::NotAColumn));
    assert_eq!(parse_column_input("two", &b), Err(InputError::NotAColumn));
    assert_eq!(parse_column_input("+", &b), Err(InputError::NotAColumn));
    assert_eq!(parse_column_input("-3", &b), Err(InputError::NotAColumn));
    assert_eq!(
        parse_column_input("99999999999999999999999999", &b),
        Err(InputError::NotAColumn)
    );
}

#[test]
fn menu_answers() {
    assert_eq!(menu_choice(" 2\n", 2), Some(2));
    assert_eq!(menu_choice("1", 3), Some(1));
    assert_eq!(menu_choice("3", 2), None);
    assert_eq!(menu_choice("01", 2), None);
    assert_eq!(menu_choice("", 2), None);
    assert_eq!(yes_no("Y\n"), Some(true));
    assert_eq!(yes_no(" yEs "), Some(true));
    assert_eq!(yes_no("no"), Some(false));
    assert_eq!(yes_no("N"), Some(false));
    assert_eq!(yes_no("nope"), None);
}

#[test]
fn game_turns() {
    let mut g = Game::new();
    assert_eq!(g.player_index(), 0);
    assert_eq!(g.play_turn(9), TurnOutcome::Rejected(MoveError::OutOfRange));
    for c in [0, 1, 0, 1, 0, 1] {
        assert_eq!(g.play_turn(c), TurnOutcome::Continue);
    }
    assert_eq!(g.player_index(), 0);
    assert_eq!(g.play_turn(0), TurnOutcome::Won(Player::Red));
    assert!(g.board().has_won(Player::Red));
}

#[test]
fn replay_errors() {
    assert_eq!(
        replay_moves(&[3, 7]).unwrap_err(),
        RequestError::OutOfRange { index: 1, col: 7 }
    );
    assert_eq!(
        replay_moves(&[0, 0, 0, 0, 0, 0, 0]).unwrap_err(),
        RequestError::ColumnFull { index: 6, col: 0 }
    );
    assert_eq!(
        replay_moves(&[0, 1, 0, 1, 0, 1, 0, 2]).unwrap_err(),
        RequestError::GameOver { index: 6 }
    );
    let b = replay_moves(&[3, 2, 3]).unwrap();
    assert_eq!(b, board_from_moves(&[3, 2, 3]));
}

#[test]
fn replay_full_board_is_a_draw() {
    // Row by row, alternating colors, giving the 2x2 block pattern of a drawn board.
    let mut moves = Vec::new();
    for _ in 0..6 {
        moves.extend_from_slice(&[0, 2, 1, 3, 4, 6, 5]);
    }
    assert_eq!(replay_moves(&moves).unwrap_err(), RequestError::Drawn);
    let b = board_from_moves(&moves[..41]);
    assert_eq!(status_after(&b, 5), Ok(GameStatus::Draw));
    let mut full = b;
    full.play(5).unwrap();
    assert!(full.is_draw());
    assert!(!full.has_won(Player::Red) && !full.has_won(Player::Yellow));
}

#[test]
fn status_after_moves() {
    let b = board_from_moves(&[0, 1, 0, 1, 0, 1]);
    assert_eq!(status_after(&b, 0), Ok(GameStatus::Win));
    assert_eq!(status_after(&b, 2), Ok(GameStatus::Ongoing));
    assert_eq!(status_after(&b, 7), Err(MoveError::OutOfRange));
    let full = board_from_moves(&[0, 0, 0, 0, 0, 0]);
    assert_eq!(status_after(&full, 0), Err(MoveError::ColumnFull));
}

#[test]
fn styles() {
    assert_eq!(player_style(Player::Red), ("\x1b[31m", "Red"));
    assert_eq!(player_style(Player::Yellow), ("\x1b[33m", "Yellow"));
}

#[test]
fn game_ends_in_a_draw() {
    let mut g = Game::new();
    let mut last = TurnOutcome::Continue;
    for i in 0..42 {
        let col = [0, 2, 1, 3, 4, 6, 5][i % 7];
        last = g.play_turn(col);
        if i < 41 {
            assert_eq!(last, TurnOutcome::Continue);
            assert_eq!(g.player_index(), (i + 1) % 2);
        }
    }
    assert_eq!(last, TurnOutcome::Drawn);
    assert!(g.board().is_draw());
    assert_eq!(g.play_turn(0), TurnOutcome::Rejected(MoveError::ColumnFull));
}

#[test]
fn move_count_is_number_of_pieces() {
    let b = Bitboard::from_ascii(
        "
         .  .  .  .  .  .  .
         .  .  .  .  .  .  .
         .  .  R  .  .  .  .
         .  Y  Y  .  .  .  .
         .  R  Y  R  .  .  .
         Y  R  Y  R  .  .  R
        ",
        Player::Yellow,
    );
    let mut pieces = 0;
    for col in 0..WIDTH {
        for row in 0..6 {
            if b.piece_at(col, row).is_some() {
                pieces += 1;
            }
        }
    }
    assert_eq!(pieces, 11);
    assert_eq!(b.move_count(), 11);
    assert_eq!(b.piece_at(2, 3), Some(Player::Red));
    assert_eq!(b.piece_at(0, 0), Some(Player::Yellow));
}

#[test]
fn search_without_deadline_wins_blocks_and_centers() {
    let wins = Bitboard::from_ascii(
        ". . . . . . .\n. . . . . . .\n. . . . . . .\nR Y . . . . .\nR Y . . . . .\nR Y . . . . .",
        Player::Red,
    );
    assert_eq!(best_move_until(&wins, 3, None), 0);
    let blocks = Bitboard::from_ascii(
        ". . . . . . .\n. . . . . . .\n. . . . . . .\n. . Y . . . .\nR . Y . . . .\nR R Y . . . .",
        Player::Red,
    );
    assert_eq!(best_move_until(&blocks, 5, None), 2);
    assert_eq!(best_move_until(&Bitboard::new(), 5, None), 3);
}

#[test]
fn depth_one_search_always_completes() {
    // A deadline already past: depth 1 still completes, because the clock is
    // only read every 1024 nodes.
    let wins = Bitboard::from_ascii(
        ". . . . . . .\n. . . . . . .\n. . . . . . .\nR Y . . . . .\nR Y . . . . .\nR Y . . . . .",
        Player::Red,
    );
    let past = Some(Instant::now());
    assert_eq!(best_move_until(&wins, 1, past), 0);
    assert_eq!(best_move(&wins, 1, Duration::from_secs(0)), 0);
}

#[test]
fn depth_zero_gives_the_fallback_column() {
    assert_eq!(best_move(&Bitboard::new(), 0, Duration::from_secs(5)), 3);
    let b = board_from_moves(&[3, 3, 3, 3, 3, 3]);
    assert_eq!(best_move_until(&b, 0, None), 2);
}

#[test]
fn won_board_still_gets_a_playable_column() {
    // Red has four in column 0; the board is not full.
    let mut b = board_from_moves(&[0, 1, 0, 1, 0, 1, 0]);
    assert!(b.is_winning());
    let col = best_move(&b, 3, Duration::from_secs(30));
    assert!(b.can_play(col));
    assert_eq!(b.play(col), Ok(()));
}

#[test]
fn takes_a_win_at_any_depth() {
    // Yellow to move can win in column 1 at once.
    let b = board_from_moves(&[0, 1, 0, 1, 6, 1, 5]);
    assert_eq!(b.current_player(), Player::Yellow);
    for depth in 1..6u32 {
        let col = best_move_until(&b, depth, None);
        let mut after = b;
        assert_eq!(after.play(col), Ok(()));
        assert!(after.is_winning());
    }
}

#[test]
fn deepening_stops_at_a_forced_win() {
    let wins = Bitboard::from_ascii(
        ". . . . . . .\n. . . . . . .\n. . . . . . .\nR Y . . . . .\nR Y . . . . .\nR Y . . . . .",
        Player::Red,
    );
    let r = iterative_deepening(&wins, 3, None);
    assert_eq!(r.best_col, 0);
    assert_eq!(r.depth, 1);
    assert!(!r.timed_out);
}

#[test]
fn deepening_without_deadline_reaches_max_depth() {
    let r = iterative_deepening(&Bitboard::new(), 3, None);
    assert_eq!(r.depth, 3);
    assert!(!r.timed_out);
    assert!(r.nodes > 0);
    assert_eq!(r.best_col, best_move_until(&Bitboard::new(), 3, None));
    let none = iterative_deepening(&Bitboard::new(), 0, None);
    assert_eq!(none.depth, 0);
    assert_eq!(none.nodes, 0);
    assert_eq!(none.best_col, 3);
    assert!(!none.timed_out);
}

#[test]
fn deepening_past_deadline_stops_at_a_clock_check() {
    let r = iterative_deepening(&Bitboard::new(), 12, Some(Instant::now()));
    assert!(r.timed_out);
    assert!(r.depth >= 1 && r.depth < 12);
    assert_eq!(r.nodes % 1024, 0);
    assert!(Bitboard::new().can_play(r.best_col));
}

#[test]
fn move_error_clones() {
    let e = MoveError::ColumnFull;
    assert_eq!(e.clone(), MoveError::ColumnFull);
}
