//! A simple-tiled wave function collapse solver.
//!
//! Grid cells start with every tile variant admissible; the solver repeatedly
//! collapses the most constrained cell to a single variant chosen by weighted
//! randomness and propagates the eliminations across the grid, until either
//! every cell holds exactly one variant or some cell runs out of candidates.

pub mod array_utils;
pub mod bitmap;
pub mod rng;
pub mod simple_tiled;
pub mod symmetry;
