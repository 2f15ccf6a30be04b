//! A disk-flanking board game (Reversi rules on a fixed 8x8 grid) and an
//! alpha-beta search agent that picks moves for one side.

pub mod board;
pub mod bot;
pub mod errors;
pub mod game;
