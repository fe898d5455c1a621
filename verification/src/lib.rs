//! Core engine for a two-cell falling-block chain game: geometry, colors,
//! pieces, chain scoring, and the per-tick board state machine.
pub mod geometry;
pub mod color;
mod random;
pub mod puyo;
pub mod chain;
pub mod grid;
pub mod game;
pub mod render;
