//! What a rules engine offers on top of a board: move generation, attack and
//! check detection, making and unmaking moves, and the state of the game.

use vstd::prelude::*;
use crate::chess::piece::{Piece, Color};
use crate::chess::moves::{Move, MoveInstruction, Tile};
use crate::chess::board_state::{BoardState, Bitboard, CastlingState};

verus! {

/// What `make_move` hands back so that `unmake_move` can restore the board.
#[derive(Debug, Clone, Copy)]
pub struct UnmakeInfo {
    pub captured: Piece,
    pub captured_ep_tile: Option<Tile>,
    pub prev_castling_rights: CastlingState,
    pub prev_en_passant: Option<Tile>,
    /// Halfmove clock (for the fifty-move rule) before the move.
    pub prev_halfmove_clock: u16,
    /// Fullmove number before the move (it only grows after Black moves).
    pub prev_fullmove_number: u16,
}

#[derive(Debug, Clone, Copy, PartialEq, Eq, Structural)]
pub enum GameResult {
    Ongoing,
    /// The winning color.
    Checkmate(Color),
    Stalemate,
    DrawByFiftyMoveRule,
    DrawByInsufficientMaterial,
}

pub trait ChessLogic: BoardState {
    /// `color` has a king on the board.
    spec fn has_king(&self, color: Color) -> bool;

    /// The side to move has a king, so pseudo-legal moves can be generated.
    spec fn can_generate(&self) -> bool;

    /// The position is one that legal moves can be generated for.
    spec fn ready(&self) -> bool;

    /// `mv` can be played on this position.
    spec fn playable(&self, mv: Move) -> bool;

    /// The move paths of `depth` plies can be counted from this position.
    spec fn perft_ready(&self, depth: u32) -> bool;

    // --- Move generation ---
    fn generate_pseudo_legal_moves(&self) -> Vec<Move>
        requires
            self.can_generate(),
    ;

    fn generate_legal_moves(&self) -> Vec<Move>
        requires
            self.ready(),
    ;

    fn generate_moves_for_tile(&self, tile: Tile) -> Vec<Move>
        requires
            self.ready(),
    ;

    // --- Attack / check detection ---
    fn is_square_attacked(&self, tile: Tile, by_color: Color) -> bool;

    fn get_attackers_of(&self, tile: Tile, by_color: Color) -> Bitboard;

    fn is_in_check(&self, color: Color) -> bool
        requires
            self.has_king(color),
    ;

    fn king_tile(&self, color: Color) -> Tile
        requires
            self.has_king(color),
    ;

    // --- Move application ---
    fn make_move(&mut self, mv: Move) -> UnmakeInfo
        requires
            old(self).playable(mv),
    ;

    fn unmake_move(&mut self, mv: Move, info: UnmakeInfo);

    // --- Move construction / validation ---
    /// Turns a raw from/to/promotion into the legal move it names, with its flag.
    fn resolve_move(&self, instr: MoveInstruction) -> Result<Move, String>
        requires
            self.ready(),
    ;

    fn is_legal(&self, mv: Move) -> bool
        requires
            self.ready(),
    ;

    // --- Game state queries ---
    fn is_checkmate(&self) -> bool
        requires
            self.ready(),
    ;

    fn is_stalemate(&self) -> bool
        requires
            self.ready(),
    ;

    fn is_draw_by_insufficient_material(&self) -> bool;

    fn is_draw_by_fifty_move_rule(&self) -> bool;

    fn game_result(&self) -> GameResult
        requires
            self.ready(),
    ;

    // --- Move path counting ---
    fn perft(&mut self, depth: u32) -> u64
        requires
            old(self).perft_ready(depth),
    ;
}

} // verus!
