//! Verified rules engines and computer opponents for a collection of
//! classic two-player board games, plus the small geometry helpers their
//! terminal front ends share.

pub mod game_core;
pub mod random;
pub mod connect4;
pub mod mancala;
pub mod dots;
pub mod checkers;
pub mod morris;
pub mod backgammon;
pub mod chess;
pub mod go;
pub mod battleship;
pub mod dominoes;
