//! Disk-flipping on an 8 by 8 grid: the rules of the game and a depth-bounded
//! game-tree search that picks a move for the automated player.

pub mod board;
pub mod bot;
pub mod game;
pub mod laws;
pub mod rules;
pub mod settings;
pub mod text;
