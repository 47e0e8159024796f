//! English draughts: rules with mandatory captures and multi-jumps, plus an opponent.

pub mod ai;
pub mod control;
pub mod engine;
