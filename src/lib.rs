//! Solver for the die-rolling puzzle on a fixed six by six board: a die with
//! unknown faces rolls from the bottom-left cell to the top-right one, and the
//! score after each roll must equal the value of the cell it lands on.
pub mod board;
pub mod dice;
pub mod die;
pub mod direction;
pub mod journey;
pub mod solver;
pub mod text;
