//! A solitaire (Klondike-style) game model and exhaustive solver.
//!
//! The `deck` module defines the card domain and the shuffled stock, the
//! `board` module the full game state with its legal transformations, and
//! the `solver` module a terminating depth-first search for a winning
//! sequence of moves.

pub mod board;
pub mod deck;
pub mod solver;
