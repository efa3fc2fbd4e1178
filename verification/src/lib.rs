//! A falling-block puzzle game: the board, the pieces, the seven-piece
//! randomiser and the per-frame game step, each with a verified contract.

pub mod mino;
pub mod block;
pub mod piece;
pub mod board;
pub mod generator;
pub mod game;
