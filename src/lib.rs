//! A chess rules engine: the moves of each kind of piece, moves and captures, check detection,
//! danger zones, and the turn state machine that sequences play and check.

pub mod game;
pub mod pieces;
pub mod rays;
pub mod squares;
pub mod state;
