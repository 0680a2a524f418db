//! A bot for the CodinGame "snakebyte" game: reading the referee's messages, keeping
//! the state of the grid, simulating a turn, and choosing a move for each of my snakes.

use vstd::prelude::*;

pub mod game;
pub mod input_reader;
pub mod message;
pub mod replay;
pub mod text;

verus! {

} // verus!
