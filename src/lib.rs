//! Counts the tilings of a fixed hexagonal puzzle board by three-cell tiles.

pub mod board;
pub mod tiles;
pub mod search;
pub mod stack;
pub mod iterative;
