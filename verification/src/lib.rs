#![verifier::loop_isolation(false)]
//! A verified engine for Conway's Game of Life on a sparse, unbounded grid.

pub mod cells;
pub mod components;
pub mod life;
pub mod universe;
