//! An exact backgammon solver core: the position and move model, the game
//! and match controller, the canonical position string and the match
//! equity table that the equity search bottoms out at.

pub mod board;
pub mod game;
pub mod met;
pub mod moves;
pub mod pieces;
pub mod xgid;
