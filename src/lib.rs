//! Rules engine and turn controller for a two-player hexagonal tile game
//! in the style of Hive, played on a square array with offset coordinates.

pub mod geometry;
pub mod piece;
pub mod board;
pub mod hive;
pub mod movement;
pub mod placement;
pub mod game;
