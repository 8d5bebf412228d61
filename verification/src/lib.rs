//! Rules of a small bomb-laying maze game: the board, the player, bombs and
//! their chain reactions, enemies, power-ups and the per-frame game step.
//!
//! Time is counted in whole milliseconds.

pub mod grid;
pub mod entities;
pub mod chance;
pub mod blast;
pub mod bombs;
pub mod player;
pub mod enemies;
pub mod board_laws;
pub mod game;
