use vstd::prelude::*;

use crate::bitboard::{Bitboard, BoardView, MoveError, Player};
use crate::solver::lost;

verus! {

/// What became of a turn.
#[derive(Debug, PartialEq, Eq, Structural)]
pub enum TurnOutcome {
    /// The chosen column could not be played; the board is unchanged.
    Rejected(MoveError),
    /// The piece was placed and the game goes on.
    Continue,
    /// The piece was placed and gave its player four in a row.
    Won(Player),
    /// The piece was placed and filled the board without a winner.
    Drawn,
}

/// A Connect Four game: the board and the rules of a turn. Red moves first.
pub struct Game {
    board: Bitboard,
}

/// The outcome of dropping a piece into `col` on the board `v`.
pub open spec fn turn_outcome(v: BoardView, col: int) -> TurnOutcome {
    if !(0 <= col < 7) {
        TurnOutcome::Rejected(MoveError::OutOfRange)
    } else if !v.column_open(col) {
        TurnOutcome::Rejected(MoveError::ColumnFull)
    } else if lost(v.drop_piece(col)) {
        TurnOutcome::Won(v.to_move)
    } else if v.drop_piece(col).moves >= 42 {
        TurnOutcome::Drawn
    } else {
        TurnOutcome::Continue
    }
}

/// A turn is won exactly by the player who drops the piece, when the piece gives that
/// player four in a row; the winner then has four in a row on the new board.
pub proof fn lemma_turn_winner(v: BoardView, col: int, p: Player)
    ensures
        turn_outcome(v, col) == TurnOutcome::Won(p) ==> p == v.to_move && v.drop_piece(col).four_in_a_row(p),
        v.column_open(col) && v.drop_piece(col).four_in_a_row(v.to_move) ==> turn_outcome(v, col)
            == TurnOutcome::Won(v.to_move),
{
    assert(v.drop_piece(col).to_move.opponent() == v.to_move);
}

/// Turns alternate: a placed piece passes the move to the other player and flips
/// the parity of the move count, so the two controllers take turns.
pub proof fn lemma_turns_alternate(v: BoardView, col: int)
    requires
        v.column_open(col),
    ensures
        v.drop_piece(col).to_move == v.to_move.opponent(),
        v.drop_piece(col).moves % 2 != v.moves % 2,
        v.drop_piece(col).owns(v.to_move, col, v.landing_row(col)),
{
    v.lemma_drop_piece_reads(col);
}

impl Game {
    pub closed spec fn spec_board(&self) -> Bitboard {
        self.board
    }

    /// Creates a new game on an empty board.
    pub fn new() -> (g: Self)
        ensures
            g.spec_board()@.pieces == Map::<(int, int), Player>::empty(),
            g.spec_board()@.to_move == Player::Red,
            g.spec_board()@.moves == 0,
    {
        Game { board: Bitboard::new() }
    }

    /// The board of the game.
    pub fn board(&self) -> (b: &Bitboard)
        ensures
            *b == self.spec_board(),
    {
        &self.board
    }

    /// Which controller moves next: 0 for Red's (who moves first), 1 for Yellow's.
    pub fn player_index(&self) -> (i: usize)
        ensures
            i == self.spec_board()@.moves % 2,
    {
        self.board.move_count() as usize % 2
    }

    /// Plays the chosen column for the player to move.
    pub fn play_turn(&mut self, col: usize) -> (r: TurnOutcome)
        ensures
            r == turn_outcome(old(self).spec_board()@, col as int),
            r matches TurnOutcome::Won(p) ==> p == old(self).spec_board()@.to_move
                && final(self).spec_board()@.four_in_a_row(p),
            !(r is Rejected) && final(self).spec_board()@.four_in_a_row(old(self).spec_board()@.to_move)
                ==> r == TurnOutcome::Won(old(self).spec_board()@.to_move),
            r == TurnOutcome::Drawn ==> final(self).spec_board()@.moves == 42 && !final(self).spec_board()@.four_in_a_row(old(self).spec_board()@.to_move),
            r == TurnOutcome::Continue ==> final(self).spec_board()@.moves < 42 && !final(self).spec_board()@.four_in_a_row(old(self).spec_board()@.to_move),
            (r == TurnOutcome::Rejected(MoveError::OutOfRange)) == (col >= 7),
            (r == TurnOutcome::Rejected(MoveError::ColumnFull)) == (col < 7 && !old(self).spec_board()@.column_open(col as int)),
            r is Rejected ==> final(self).spec_board() == old(self).spec_board(),
            !(r is Rejected) ==> final(self).spec_board()@ == old(self).spec_board()@.drop_piece(
                col as int,
            ),
    {
        let ghost before = self.board@;
        proof {
            use_type_invariant(&self.board);
            self.board.lemma_full();
            lemma_turn_winner(before, col as int, before.to_move);
            lemma_turn_winner(before, col as int, before.to_move.opponent());
        }
        match self.board.play(col) {
            Err(e) => {
                return TurnOutcome::Rejected(e);
            },
            Ok(()) => {},
        }
        proof {
            use_type_invariant(&self.board);
            self.board.lemma_full();
        }
        if self.board.is_winning() {
            proof {
                assert(before.drop_piece(col as int).to_move.opponent() == before.to_move);
            }
            TurnOutcome::Won(self.board.current_player().other())
        } else if self.board.is_draw() {
            TurnOutcome::Drawn
        } else {
            TurnOutcome::Continue
        }
    }
}
} // verus!
