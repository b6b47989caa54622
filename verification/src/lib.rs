//! A verified falling-block puzzle game engine.
//!
//! The engine keeps a bounded, bordered grid, drops tetromino pieces into it
//! under player intents and gravity, detects collisions, locks pieces, clears
//! and collapses completed rows, and tracks score and difficulty.

pub mod shapes;
pub mod board;
pub mod collision;
pub mod engine;
