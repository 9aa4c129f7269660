//! Rules engine for a falling-block puzzle game: piece catalog and rotation,
//! collision testing against a persistent board, piece lock-in, full-row
//! clearing, score and level progression, a constrained-random piece selector,
//! and the text format of the high-score table.
#![verifier::loop_isolation(false)]

pub mod highscore;
pub mod selector;
pub mod tetrimino;
pub mod tetris;
