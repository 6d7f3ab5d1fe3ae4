//! Perfect-maze generation on a rectangular grid, and the longest path through it.

pub mod grid;
pub mod removed;
mod random;
pub mod builders;
pub mod solver;
pub mod labels;
