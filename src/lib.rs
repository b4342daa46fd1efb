//! Rules engine and room state machine for a networked tile-placement game.
//!
//! Pieces carry a shape and a colour; runs of pieces on the board must share
//! exactly one of the two attributes and hold no piece twice.

pub mod piece;
pub mod board;
pub mod rules;
pub mod hand;
pub mod game;
pub mod turn;
pub mod message;
pub mod room;
pub mod registry;
