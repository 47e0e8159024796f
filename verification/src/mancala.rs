//! Kalah mancala: sowing rules and a store-greedy opponent.

pub mod ai;
pub mod control;
pub mod engine;
