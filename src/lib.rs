//! Connect 4: the board with its drop rule and the detection of a finished
//! game, a search that picks the computer's column, and the course of a game
//! between a player and the computer.
use vstd::prelude::*;

pub mod ai;
pub mod board;
pub mod game;

verus! {

} // verus!
