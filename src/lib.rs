//! Deterministic simulation core of a tile-rotation connection puzzle.
pub mod components;
pub mod grid;
pub mod rng;
pub mod reach;
pub mod board;
pub mod bot;
pub mod bonus;
pub mod effects;
pub mod state;
