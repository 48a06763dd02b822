use vstd::prelude::*;

use crate::bitboard::Bitboard;
use crate::solver::{
    any_open, best_move, deepening_choice, fallback_column, lost, optimal_at, search_nodes, stop_depth,
};
use crate::text::{capped_value, trim, trimmed, unsigned_value};
use std::time::Duration;

verus! {

/// A controller that chooses which column to play.
pub trait PlayerController {
    fn choose_column(&self, board: &Bitboard) -> usize;

    fn is_human(&self) -> bool;
}

/// Difficulty levels for the computer player.
#[derive(Debug, Clone, Copy, PartialEq, Eq, Structural)]
pub enum Difficulty {
    Easy,
    Normal,
    Hard,
}

impl Difficulty {
    /// The search depth of a difficulty level: 3, 9 and 18.
    pub open spec fn search_depth(self) -> u32 {
        match self {
            Difficulty::Easy => 3,
            Difficulty::Normal => 9,
            Difficulty::Hard => 18,
        }
    }

    /// Returns the search depth for this difficulty level.
    pub fn depth(self) -> (d: u32)
        ensures
            d == self.search_depth(),
    {
        match self {
            Difficulty::Easy => 3,
            Difficulty::Normal => 9,
            Difficulty::Hard => 18,
        }
    }
}

/// Computer player: uses the negamax solver with a configurable difficulty.
pub struct ComputerPlayer {
    depth: u32,
    timeout: Duration,
}

impl ComputerPlayer {

    pub closed spec fn spec_depth(&self) -> u32 {
        self.depth
    }

    pub closed spec fn spec_timeout(&self) -> Duration {
        self.timeout
    }

    pub fn new(difficulty: Difficulty, timeout: Duration) -> (p: Self)
        ensures
            p.spec_depth() == difficulty.search_depth(),
            p.spec_timeout() == timeout,
    {
        ComputerPlayer { depth: difficulty.depth(), timeout }
    }
}

impl PlayerController for ComputerPlayer {
    fn is_human(&self) -> (r: bool)
        ensures
            !r,
    {
        false
    }

    fn choose_column(&self, board: &Bitboard) -> (col: usize)
        ensures
            col < 7,
            !any_open(board@, 0) ==> col == 3,
            self.spec_depth() == 0 ==> col == fallback_column(board@),
            board@.settled() && self.spec_depth() >= 1 ==> exists|d: nat|
                1 <= d <= self.spec_depth() && col == #[trigger] deepening_choice(*board, d) && (
                any_open(board@, 0) ==> optimal_at(*board, d, col as int)) && d <= stop_depth(
                *board,
                1,
                self.spec_depth() as nat,
            ) && (d < stop_depth(*board, 1, self.spec_depth() as nat) ==> d >= 3 && search_nodes(d + 1)
                >= 1024),
            board@.settled() && self.spec_depth() >= 1 && (exists|c: int|
                #[trigger] board@.column_open(c) && lost(board@.drop_piece(c))) ==> lost(
                board@.drop_piece(col as int),
            ),
    {
        best_move(board, self.depth, self.timeout)
    }
}

/// Why a line typed by a human names no playable column.
#[derive(Debug, Clone, Copy, PartialEq, Eq, Structural)]
pub enum InputError {
    /// Not a number from 1 to 7.
    NotAColumn,
    /// The column named is full.
    ColumnFull,
}

/// What a typed line asks for: the 1-based column it names, if it names one.
pub open spec fn requested_column(line: Seq<char>) -> Option<int> {
    match unsigned_value(trim(line)) {
        Some(n) => if 1 <= n <= 7 {
            Some(n)
        } else {
            None
        },
        None => None,
    }
}

/// Reads a human's column choice: a number from 1 to 7 (surrounding white space
/// allowed), converted to a 0-based column that must be playable.
pub fn parse_column_input(line: &str, board: &Bitboard) -> (r: Result<usize, InputError>)
    ensures
        r == match requested_column(line@) {
            Some(n) => if board@.column_open(n - 1) {
                Ok::<usize, InputError>((n - 1) as usize)
            } else {
                Err(InputError::ColumnFull)
            },
            None => Err(InputError::NotAColumn),
        },
{
    let t = trimmed(line);
    let parsed = capped_value(&t, 8);
    proof {
        match unsigned_value(trim(line@)) {
            Some(v) => {
                assert(parsed is Some);
                assert(v < 8 ==> parsed == Some(v as u64));
            },
            None => {
                assert(parsed is None);
            },
        }
    }
    match parsed {
        Some(n) => {
            if 1 <= n && n <= 7 {
                let col = (n - 1) as usize;
                if board.can_play(col) {
                    Ok(col)
                } else {
                    Err(InputError::ColumnFull)
                }
            } else {
                Err(InputError::NotAColumn)
            }
        },
        None => Err(InputError::NotAColumn),
    }
}
} // verus!
