use vstd::prelude::*;

use crate::bitboard::{Bitboard, BoardView, MoveError, Player, WIDTH};
use crate::bits::is_direction;
use crate::solver::lost;

verus! {

/// Why a request's move list is refused.
#[derive(Debug, PartialEq, Eq, Structural)]
pub enum RequestError {
    /// Move `index` names a column outside 0..7.
    OutOfRange { index: usize, col: usize },
    /// Move `index` names a full column.
    ColumnFull { index: usize, col: usize },
    /// Move `index` won the game, so no move is left to suggest.
    GameOver { index: usize },
    /// The moves filled the board.
    Drawn,
}

/// The state of a game after a move.
#[derive(Debug, PartialEq, Eq, Structural)]
pub enum GameStatus {
    Win,
    Draw,
    Ongoing,
}

/// The empty board with Red to move.
pub open spec fn start_view() -> BoardView {
    BoardView { pieces: Map::empty(), to_move: Player::Red, moves: 0 }
}

/// The board after the first `n` moves of a list, or why the list is refused.
pub open spec fn replay(moves: Seq<usize>, n: int) -> Result<BoardView, RequestError>
    decreases n,
{
    if n <= 0 {
        Ok(start_view())
    } else {
        match replay(moves, n - 1) {
            Err(e) => Err(e),
            Ok(v) => {
                let index = (n - 1) as usize;
                let col = moves[n - 1];
                if col >= 7 {
                    Err(RequestError::OutOfRange { index, col })
                } else if !v.column_open(col as int) {
                    Err(RequestError::ColumnFull { index, col })
                } else if lost(v.drop_piece(col as int)) {
                    Err(RequestError::GameOver { index })
                } else if v.drop_piece(col as int).moves >= 42 {
                    Err(RequestError::Drawn)
                } else {
                    Ok(v.drop_piece(col as int))
                }
            },
        }
    }
}

/// A piece dropped by one player never gives the other player four in a row.
pub proof fn lemma_drop_keeps_other(v: BoardView, col: int, q: Player)
    requires
        q != v.to_move,
        v.drop_piece(col).four_in_a_row(q),
    ensures
        v.four_in_a_row(q),
{
    let d = v.drop_piece(col);
    let (c, r, dc, dr) = choose|c: int, r: int, dc: int, dr: int|
        is_direction(dc, dr) && #[trigger] d.four_at(q, c, r, dc, dr);
    assert(v.four_at(q, c, r, dc, dr));
}

/// What a replay decides, whoever moves: a list is refused as over at move `i`
/// exactly when move `i` gives the player who made it four in a row, and a board
/// that is not refused shows four in a row for neither player.
pub proof fn lemma_replay_outcomes(moves: Seq<usize>, n: int)
    requires
        0 <= n <= moves.len(),
    ensures
        replay(moves, n) matches Ok(v) ==> !v.four_in_a_row(Player::Red) && !v.four_in_a_row(
            Player::Yellow,
        ) && v.settled() && v.moves == n,
        replay(moves, n) matches Err(RequestError::GameOver { index }) ==> {
            &&& 0 <= index < n
            &&& (replay(moves, index as int) matches Ok(v) && v.column_open(moves[index as int] as int)
                && v.drop_piece(moves[index as int] as int).four_in_a_row(v.to_move))
        },
        replay(moves, n) matches Err(RequestError::OutOfRange { index, col }) ==> 0 <= index < n
            && moves[index as int] == col && col >= 7,
        replay(moves, n) matches Err(RequestError::ColumnFull { index, col }) ==> 0 <= index < n
            && moves[index as int] == col && col < 7 && (replay(moves, index as int) matches Ok(v)
            && !v.column_open(col as int)),
        (replay(moves, n - 1) matches Ok(v) && 0 <= moves[n - 1] < 7 && v.column_open(
            moves[n - 1] as int,
        ) && v.drop_piece(moves[n - 1] as int).four_in_a_row(v.to_move)) ==> replay(moves, n)
            == Err::<BoardView, RequestError>(RequestError::GameOver { index: (n - 1) as usize }),
    decreases n,
{
    if n == 0 {
        assert(!start_view().four_in_a_row(Player::Red));
        assert(!start_view().four_in_a_row(Player::Yellow));
    } else {
        lemma_replay_outcomes(moves, n - 1);
        if let Ok(v) = replay(moves, n - 1) {
            let col = moves[n - 1];
            if col < 7 && v.column_open(col as int) {
                let d = v.drop_piece(col as int);
                assert(d.to_move.opponent() == v.to_move);
                v.lemma_drop_settled(col as int);
                if d.four_in_a_row(v.to_move.opponent()) {
                    lemma_drop_keeps_other(v, col as int, v.to_move.opponent());
                }
                assert(v.to_move.opponent() == Player::Red || v.to_move.opponent() == Player::Yellow);
            }
        }
    }
}

/// A refusal stands, whatever moves follow.
proof fn lemma_replay_err(moves: Seq<usize>, n: int, m: int)
    requires
        0 <= n <= m,
        replay(moves, n) is Err,
    ensures
        replay(moves, m) == replay(moves, n),
    decreases m - n,
{
    if m > n {
        lemma_replay_err(moves, n, m - 1);
    }
}

/// Replays a list of 0-based columns from the empty board, refusing a column out
/// of range, a full column, and a list after which the game is already over.
pub fn replay_moves(moves: &[usize]) -> (r: Result<Bitboard, RequestError>)
    ensures
        match r {
            Ok(b) => replay(moves@, moves@.len() as int) == Ok::<BoardView, RequestError>(b@),
            Err(e) => replay(moves@, moves@.len() as int) == Err::<BoardView, RequestError>(e),
        },
        r matches Ok(b) ==> !b@.four_in_a_row(Player::Red) && !b@.four_in_a_row(Player::Yellow)
            && b@.moves == moves@.len(),
        r matches Err(RequestError::OutOfRange { index, col }) ==> index < moves@.len() && moves@[index as int]
            == col && col >= 7,
        r matches Err(RequestError::ColumnFull { index, col }) ==> index < moves@.len() && moves@[index as int]
            == col && col < 7 && (replay(moves@, index as int) matches Ok(v) && !v.column_open(col as int)),
        r matches Err(RequestError::GameOver { index }) ==> index < moves@.len() && (replay(
            moves@,
            index as int,
        ) matches Ok(v) && v.drop_piece(moves@[index as int] as int).four_in_a_row(v.to_move)),
{
    proof {
        lemma_replay_outcomes(moves@, moves@.len() as int);
    }
    let mut board = Bitboard::new();
    proof {
        assert(board@.pieces =~= Map::<(int, int), Player>::empty());
    }
    let mut i: usize = 0;
    while i < moves.len()
        invariant
            i <= moves.len(),
            replay(moves@, i as int) == Ok::<BoardView, RequestError>(board@),
        decreases moves.len() - i,
    {
        let col = moves[i];
        proof {
            if replay(moves@, i + 1) is Err {
                lemma_replay_err(moves@, i + 1, moves@.len() as int);
            }
        }
        if col >= WIDTH {
            return Err(RequestError::OutOfRange { index: i, col });
        }
        match board.play(col) {
            Ok(()) => {},
            Err(MoveError::ColumnFull) => {
                return Err(RequestError::ColumnFull { index: i, col });
            },
            Err(MoveError::OutOfRange) => {
                return Err(RequestError::OutOfRange { index: i, col });
            },
        }
        if board.is_winning() {
            return Err(RequestError::GameOver { index: i });
        }
        if board.is_draw() {
            return Err(RequestError::Drawn);
        }
        i += 1;
    }
    Ok(board)
}

/// The status of the game after dropping a piece into `col`.
pub fn status_after(board: &Bitboard, col: usize) -> (r: Result<GameStatus, MoveError>)
    ensures
        col >= 7 ==> r == Err::<GameStatus, MoveError>(MoveError::OutOfRange),
        col < 7 && !board@.column_open(col as int) ==> r == Err::<GameStatus, MoveError>(
            MoveError::ColumnFull,
        ),
        board@.column_open(col as int) ==> r == Ok::<GameStatus, MoveError>(
            if lost(board@.drop_piece(col as int)) {
                GameStatus::Win
            } else if board@.drop_piece(col as int).moves >= 42 {
                GameStatus::Draw
            } else {
                GameStatus::Ongoing
            },
        ),
{
    let mut after = *board;
    match after.play(col) {
        Ok(()) => {},
        Err(e) => {
            return Err(e);
        },
    }
    let status = if after.is_winning() {
        GameStatus::Win
    } else if after.is_draw() {
        GameStatus::Draw
    } else {
        GameStatus::Ongoing
    };
    Ok(status)
}
} // verus!
