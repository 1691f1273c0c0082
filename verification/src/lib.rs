//! A bitboard chess engine (move generation, evaluation, alpha-beta search and
//! a Zobrist-keyed transposition table), the message logic of its game
//! session, a mailbox-plus-bitboard chess rules library, and a small
//! random number generator for picking moves.

pub mod text;
pub mod engine;
pub mod ws;
pub mod chess;
pub mod rng;
