//! A solver for 6x6 sliding-block escape puzzles: a grid of vehicles, each
//! sliding only along its own axis, where the goal vehicle `X` must reach the
//! right edge of its row. The solver decodes a textual puzzle, extracts the
//! vehicles, and searches the state space depth-first, deduplicating states by
//! their grid rendering.

pub mod board;
pub mod laws;
pub mod solver;
mod fxset;
