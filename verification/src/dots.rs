//! Dots and Boxes: edge claiming on a 5×5 lattice and a gift-avoiding opponent.

pub mod ai;
pub mod control;
pub mod engine;
