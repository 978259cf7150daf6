//! A Reversi game and a Monte Carlo Tree Search engine that picks its moves.
//!
//! `reversi` holds the rules of the board game, `game` the capability a game
//! offers to the engine, `tree` the arena-based search tree and `search` the
//! time-bounded decision loop.

pub mod game;
pub mod reversi;
pub mod search;
pub mod tree;
