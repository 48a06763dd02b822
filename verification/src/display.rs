use vstd::prelude::*;

use crate::bitboard::Player;

verus! {

/// The terminal style of a player: its ANSI color code and its name.
pub fn player_style(player: Player) -> (r: (&'static str, &'static str))
    ensures
        player == Player::Red ==> r.0@ == "\x1b[31m"@ && r.1@ == "Red"@,
        player == Player::Yellow ==> r.0@ == "\x1b[33m"@ && r.1@ == "Yellow"@,
{
    match player {
        Player::Red => ("\x1b[31m", "Red"),
        Player::Yellow => ("\x1b[33m", "Yellow"),
    }
}
} // verus!
