//! Connect Four: gravity drops on a 7×6 grid and a negamax opponent.

pub mod ai;
pub mod control;
pub mod engine;
