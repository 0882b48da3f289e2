//! Strategies for the prisoners-and-boxes puzzle, with their outcomes proved
//! against a model of the boxes as a permutation.

pub mod bits;
pub mod perm;
pub mod board;
pub mod rng;
