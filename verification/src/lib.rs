//! A Connect Four engine: a bitboard with verified move and win rules, and a
//! negamax search with alpha-beta pruning and a transposition table.

pub mod bits;
pub mod bitboard;
pub mod solver;
pub mod text;
pub mod player;
pub mod game;
pub mod service;
pub mod display;
pub mod menu;
