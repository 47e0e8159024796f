//! Backgammon: the rules engine and the computer opponent.

pub mod engine;
pub mod ai;
pub mod control;
