//! Castling rights and the interface of a board representation.

use vstd::prelude::*;
use crate::chess::piece::{Class, Color, Piece};
use crate::chess::moves::Tile;

verus! {

#[derive(Debug, Clone, Copy, PartialEq, Eq, Hash, Structural)]
pub enum CastlingRights {
    WhiteKing,
    WhiteQueen,
    BlackKing,
    BlackQueen,
}

impl CastlingRights {
    /// The bit of the right in a castling mask.
    pub open spec fn bit(self) -> u8 {
        match self {
            CastlingRights::WhiteKing => 0b0001,
            CastlingRights::WhiteQueen => 0b0010,
            CastlingRights::BlackKing => 0b0100,
            CastlingRights::BlackQueen => 0b1000,
        }
    }

    pub fn bits(self) -> (r: u8)
        ensures
            r == self.bit(),
    {
        match self {
            CastlingRights::WhiteKing => 0b0001,
            CastlingRights::WhiteQueen => 0b0010,
            CastlingRights::BlackKing => 0b0100,
            CastlingRights::BlackQueen => 0b1000,
        }
    }
}

/// A set of castling rights, as a 4-bit mask.
#[derive(Debug, Clone, Copy, PartialEq, Eq, Hash, Structural)]
pub struct CastlingState {
    mask: u8,
}

impl CastlingState {
    /// The mask.
    pub closed spec fn bits_of(self) -> u8 {
        self.mask
    }

    /// Whether the set holds `right`.
    pub open spec fn holds(self, right: CastlingRights) -> bool {
        self.bits_of() & right.bit() != 0
    }

    /// No rights.
    pub fn none() -> (r: Self)
        ensures
            r.bits_of() == 0,
    {
        Self { mask: 0 }
    }

    /// All four rights.
    pub fn all() -> (r: Self)
        ensures
            r.bits_of() == 0b1111,
    {
        Self { mask: 0b1111 }
    }

    /// The rights of the low four bits of `mask`.
    pub fn new(mask: u8) -> (r: Self)
        ensures
            r.bits_of() == mask & 0b1111,
    {
        Self { mask: mask & 0b1111 }
    }

    pub fn contains(&self, right: CastlingRights) -> (r: bool)
        ensures
            r == self.holds(right),
    {
        (self.mask & right.bits()) != 0
    }

    pub fn remove(&mut self, right: CastlingRights)
        ensures
            final(self).bits_of() == old(self).bits_of() & !right.bit(),
    {
        self.mask &= !right.bits();
    }

    pub fn add(&mut self, right: CastlingRights)
        ensures
            final(self).bits_of() == old(self).bits_of() | right.bit(),
    {
        self.mask |= right.bits();
    }

    pub fn as_u8(&self) -> (r: u8)
        ensures
            r == self.bits_of(),
    {
        self.mask
    }
}

/// Adding a right makes the set hold it, removing makes it not; the other
/// rights stay as they were.
pub proof fn law_castling_rights(m: u8, r: CastlingRights, other: CastlingRights)
    ensures
        (m | r.bit()) & r.bit() != 0,
        (m & !r.bit()) & r.bit() == 0,
        other != r ==> (((m | r.bit()) & other.bit() != 0) <==> (m & other.bit() != 0)),
        other != r ==> (((m & !r.bit()) & other.bit() != 0) <==> (m & other.bit() != 0)),
{
    let b = r.bit();
    let o = other.bit();
    assert((m | b) & b != 0 && (m & !b) & b == 0 && (o != b ==> ((((m | b) & o != 0) <==> (m & o
        != 0)) && (((m & !b) & o != 0) <==> (m & o != 0))))) by (bit_vector)
        requires
            b == 1 || b == 2 || b == 4 || b == 8,
            o == 1 || o == 2 || o == 4 || o == 8,
    ;
}

/// Two sets with the same mask are the same set.
pub proof fn lemma_castling_state_ext(a: CastlingState, b: CastlingState)
    requires
        a.bits_of() == b.bits_of(),
    ensures
        a == b,
{
}

pub type Bitboard = u64;

/// Reading and writing a board: pieces by square, bitboards by piece, the side
/// to move, the en passant square, castling rights and the move counters.
pub trait BoardState {
    fn get_piece(&self, tile: Tile) -> Piece;

    fn set_piece(&mut self, tile: Tile, piece: Piece);

    fn get_bitboard(&self, class: Class, color: Color) -> Bitboard;

    fn get_occupied(&self, color: Color) -> Bitboard;

    fn get_all_occupied(&self) -> Bitboard;

    fn get_side_to_move(&self) -> Color;

    fn pass_player_turn(&mut self);

    fn get_en_passant(&self) -> Option<Tile>;

    fn set_en_passant(&mut self, tile: Tile);

    fn clear_en_passants(&mut self);

    fn get_castling_state(&self) -> CastlingState;

    fn set_castling_state(&mut self, castling_state: CastlingState);

    fn get_halfmove_clock(&self) -> u16;

    fn set_halfmove_clock(&mut self, val: u16);

    fn get_fullmove_number(&self) -> u16;

    fn set_fullmove_number(&mut self, val: u16);
}

} // verus!
