//! A falling-block puzzle engine: the board, the seven tetrominoes, and the
//! rules that move, rotate, drop and settle them.

pub mod state;
