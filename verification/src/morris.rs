//! Nine Men's Morris: placement, sliding, flying and mill captures.

pub mod engine;
pub mod ai;
pub mod control;
