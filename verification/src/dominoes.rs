//! Draw dominoes: the rules engine and the computer opponent.

pub mod engine;
pub mod ai;
pub mod snapshot;
pub mod control;
