pub mod bitboard;
pub mod movegen;
pub mod eval;
pub mod search;
pub mod transposition;
