//! Minimax search with alpha-beta pruning and transposition table integration,
//! move ordering, and move application.

use vstd::prelude::*;
use super::bitboard::{
    Bitboard, Board, Color, Piece, kind_on, sq_bb, bit_set, ones, color_set, pieces_of, occupied_set,
    lsb, lowest, FILE_A, FILE_H,
    lemma_kind_on_from, lemma_ones_compare, lemma_ones_bound, lemma_bit_ops, lemma_single,
};
use super::movegen::{
    Move, MoveFlags, CAPTURE, EN_PASSANT, PROMOTION, CASTLE_K, CASTLE_Q, DOUBLE_PUSH, flags_of,
    move_facts, all_facts, lemma_flags, lemma_moves_facts, ep_on_board, moves_spec, generate_moves,
    knight_attacks, king_attacks, bishop_attacks, rook_attacks, knight_set, king_set, bishop_set, rook_set,
};
use super::eval::{evaluate, eval_spec, PIECE_VALUES, DRAW_SCORE};
use super::transposition::{
    hash, hash_spec, Bound, TTEntry, TranspositionTable, table_fits, table_capacity, lookup, slot_index, stored,
    replaces,
};
use std::time::{Duration, Instant};

verus! {

// ── Move application: specification ─────────────────────────────────────────

/// The piece kind that lands on the target square.
pub open spec fn landing_kind(mv: Move, piece: Piece) -> Piece {
    if mv.flags.has(flags_of(PROMOTION)) {
        Piece::Queen
    } else {
        piece
    }
}

/// The square of the pawn taken en passant.
pub open spec fn ep_victim(mv: Move, us: Color) -> u32 {
    match us {
        Color::White => (mv.to - 8) as u32,
        Color::Black => (mv.to + 8) as u32,
    }
}

/// The rook bitboard of `us` after the rook part of a castling move.
pub open spec fn rook_after_castle(x: u64, mv: Move, us: Color) -> u64 {
    if mv.flags.has(flags_of(CASTLE_K)) {
        match us {
            Color::White => (x & !0x0000_0000_0000_0080u64) | 0x0000_0000_0000_0020u64,
            Color::Black => (x & !0x8000_0000_0000_0000u64) | 0x2000_0000_0000_0000u64,
        }
    } else if mv.flags.has(flags_of(CASTLE_Q)) {
        match us {
            Color::White => (x & !0x0000_0000_0000_0001u64) | 0x0000_0000_0000_0008u64,
            Color::Black => (x & !0x0100_0000_0000_0000u64) | 0x0800_0000_0000_0000u64,
        }
    } else {
        x
    }
}

/// Bitboard `k` of color index `c` after `mv`, moving `piece`, is applied.
pub open spec fn bitboard_after(b: Board, mv: Move, piece: Piece, c: int, k: int) -> u64 {
    let us = b.side_to_move;
    let old = b.pieces[c][k];
    let from_bb = 1u64 << mv.from as u64;
    let to_bb = 1u64 << mv.to as u64;
    if c == us.idx() {
        let x1 = if k == piece.idx() {
            old & !from_bb
        } else {
            old
        };
        let x2 = if k == landing_kind(mv, piece).idx() {
            x1 | to_bb
        } else {
            x1
        };
        if k == 3 {
            rook_after_castle(x2, mv, us)
        } else {
            x2
        }
    } else {
        let y1 = old & !to_bb;
        if k == 0 && mv.flags.has(flags_of(EN_PASSANT)) {
            y1 & !(1u64 << ep_victim(mv, us) as u64)
        } else {
            y1
        }
    }
}

/// Castling rights after a move of `piece` by `us` from `from` to `to`.
pub open spec fn rights_after(cr: u8, from: u32, to: u32, piece: Piece, us: Color) -> u8 {
    let c1 = if piece == Piece::King {
        match us {
            Color::White => cr & !0b0011u8,
            Color::Black => cr & !0b1100u8,
        }
    } else {
        cr
    };
    let c2 = if from == 0 || to == 0 {
        c1 & !0b0010u8
    } else {
        c1
    };
    let c3 = if from == 7 || to == 7 {
        c2 & !0b0001u8
    } else {
        c2
    };
    let c4 = if from == 56 || to == 56 {
        c3 & !0b1000u8
    } else {
        c3
    };
    if from == 63 || to == 63 {
        c4 & !0b0100u8
    } else {
        c4
    }
}

/// `n` is `b` after `mv`, which moves `piece`.
pub open spec fn board_after(b: Board, mv: Move, piece: Piece, n: Board) -> bool {
    let us = b.side_to_move;
    &&& forall|c: int, k: int|
        0 <= c < 2 && 0 <= k < 6 ==> #[trigger] n.pieces[c][k] == bitboard_after(b, mv, piece, c, k)
    &&& n.side_to_move == us.flipped()
    &&& n.castling_rights == rights_after(b.castling_rights, mv.from, mv.to, piece, us)
    &&& n.en_passant == if mv.flags.has(flags_of(DOUBLE_PUSH)) {
        Some(
            match us {
                Color::White => (mv.from + 8) as u32,
                Color::Black => (mv.from - 8) as u32,
            },
        )
    } else {
        None
    }
    &&& n.halfmove_clock == if piece == Piece::Pawn || mv.flags.has(flags_of(CAPTURE)) {
        0
    } else {
        (b.halfmove_clock + 1) as u32
    }
    &&& n.fullmove_number == if us == Color::Black {
        (b.fullmove_number + 1) as u32
    } else {
        b.fullmove_number
    }
}

/// The inputs on which `apply_move` runs without overflow: the squares are on
/// the board, the captured en passant pawn and the new en passant square are
/// too, and the move counters can count one more.
pub open spec fn apply_ok(b: Board, mv: Move) -> bool {
    let us = b.side_to_move;
    &&& mv.from < 64
    &&& kind_on(b, us, mv.from as u64) matches Some(piece) ==> {
        &&& mv.to < 64
        &&& mv.flags.has(flags_of(EN_PASSANT)) ==> match us {
            Color::White => mv.to >= 8,
            Color::Black => mv.to + 8 < 64,
        }
        &&& mv.flags.has(flags_of(DOUBLE_PUSH)) && us == Color::Black ==> mv.from >= 8
        &&& !(piece == Piece::Pawn || mv.flags.has(flags_of(CAPTURE))) ==> b.halfmove_clock
            < u32::MAX
        &&& us == Color::Black ==> b.fullmove_number < u32::MAX
    }
}

// ── Attacks on a square ───────────────────────────────────────────────────────

/// The squares a pawn of `c` on `sq` attacks: one rank forward, one file to
/// either side.
pub open spec fn pawn_attack_set(sq: u64, c: Color) -> u64 {
    let b = 1u64 << sq;
    match c {
        Color::White => ((b << 7u64) & !FILE_H) | ((b << 9u64) & !FILE_A),
        Color::Black => ((b >> 7u64) & !FILE_A) | ((b >> 9u64) & !FILE_H),
    }
}

fn pawn_attacks(sq: u32, c: Color) -> (r: Bitboard)
    requires
        sq < 64,
    ensures
        r == pawn_attack_set(sq as u64, c),
{
    let b = sq_bb(sq);
    match c {
        Color::White => ((b << 7u64) & !FILE_H) | ((b << 9u64) & !FILE_A),
        Color::Black => ((b >> 7u64) & !FILE_A) | ((b >> 9u64) & !FILE_H),
    }
}

/// The squares holding pieces of `by` that attack `sq`: pawns that would be
/// attacked by a pawn of the other side on `sq`, knights and a king a step
/// away, and sliders with an open line to `sq`.
pub open spec fn attackers_spec(b: Board, sq: u64, by: Color) -> u64 {
    let occ = occupied_set(b);
    (pawn_attack_set(sq, by.flipped()) & pieces_of(b, by, Piece::Pawn)) | (knight_set(sq) & pieces_of(
        b,
        by,
        Piece::Knight,
    )) | (king_set(sq) & pieces_of(b, by, Piece::King)) | (bishop_set(sq, occ) & (pieces_of(
        b,
        by,
        Piece::Bishop,
    ) | pieces_of(b, by, Piece::Queen))) | (rook_set(sq, occ) & (pieces_of(b, by, Piece::Rook)
        | pieces_of(b, by, Piece::Queen)))
}

/// The king of `us` (its lowest square) is attacked on `n`.
pub open spec fn king_exposed(n: Board, us: Color) -> bool {
    let kings = pieces_of(n, us, Piece::King);
    kings != 0 && attackers_spec(n, lowest(kings), us.flipped()) != 0
}

/// Some piece of `by` attacks `sq`.
fn square_attacked(board: &Board, sq: u32, by: Color) -> (r: bool)
    requires
        sq < 64,
    ensures
        r == (attackers_spec(*board, sq as u64, by) != 0),
{
    let occ = board.occupied();
    let a = (pawn_attacks(sq, by.flip()) & board.piece_bb(by, Piece::Pawn)) | (knight_attacks(sq)
        & board.piece_bb(by, Piece::Knight)) | (king_attacks(sq) & board.piece_bb(by, Piece::King)) | (
    bishop_attacks(sq, occ) & (board.piece_bb(by, Piece::Bishop) | board.piece_bb(by, Piece::Queen)))
        | (rook_attacks(sq, occ) & (board.piece_bb(by, Piece::Rook) | board.piece_bb(by, Piece::Queen)));
    a != 0
}

/// The king of `side` is attacked on `board`.
pub fn in_check(board: &Board, side: Color) -> (r: bool)
    ensures
        r == king_exposed(*board, side),
{
    let kings = board.piece_bb(side, Piece::King);
    if kings == 0 {
        return false;
    }
    let k = lsb(kings);
    square_attacked(board, k, side.flip())
}

/// `mv`, moving `piece`, leaves the mover's king attacked.
pub open spec fn exposes_king(b: Board, mv: Move, piece: Piece) -> bool {
    forall|n: Board| #[trigger] board_after(b, mv, piece, n) ==> king_exposed(n, b.side_to_move)
}

/// `mv` can be applied to `b`: the side to move has a piece on its source
/// square, and the move does not leave that side's king attacked.
pub open spec fn applies(b: Board, mv: Move) -> bool {
    kind_on(b, b.side_to_move, mv.from as u64) matches Some(p) && !exposes_king(b, mv, p)
}

/// A promotion puts a queen of the mover on the target square: the mover's
/// queen bitboard holds it afterwards, its pawn, knight, bishop and rook
/// bitboards hold it only if they held it before, and the promoted piece
/// leaves its source square.
pub proof fn law_promotion_lands_a_queen(b: Board, mv: Move, piece: Piece, n: Board)
    requires
        board_after(b, mv, piece, n),
        mv.flags.has(flags_of(PROMOTION)),
        crate::engine::movegen::generated_flags(mv.flags.bits),
        mv.from < 64,
        mv.to < 64,
    ensures
        bit_set(n.pieces[b.side_to_move.idx()][Piece::Queen.idx()], mv.to as u64),
        forall|k: int|
            0 <= k < 4 && #[trigger] bit_set(n.pieces[b.side_to_move.idx()][k], mv.to as u64) ==> bit_set(
                b.pieces[b.side_to_move.idx()][k],
                mv.to as u64,
            ),
        piece != Piece::Queen ==> !bit_set(n.pieces[b.side_to_move.idx()][piece.idx()], mv.from as u64),
{
    let u = b.side_to_move.idx();
    let to = mv.to as u64;
    lemma_flags(mv.flags.bits);
    assert(n.pieces[u][4] == bitboard_after(b, mv, piece, u, 4));
    lemma_single(to, to);
    lemma_bit_ops(b.pieces[u][4] & !(1u64 << mv.from as u64), 1u64 << to, to);
    lemma_bit_ops(b.pieces[u][4], 1u64 << to, to);
    assert(n.pieces[u][piece.idx()] == bitboard_after(b, mv, piece, u, piece.idx()));
    lemma_single(mv.from as u64, mv.from as u64);
    lemma_bit_ops(b.pieces[u][piece.idx()], !(1u64 << mv.from as u64), mv.from as u64);
    lemma_bit_ops(1u64 << mv.from as u64, 0, mv.from as u64);
    assert forall|k: int|
        0 <= k < 4 && #[trigger] bit_set(n.pieces[u][k], to) implies bit_set(b.pieces[u][k], to) by {
        assert(n.pieces[u][k] == bitboard_after(b, mv, piece, u, k));
        lemma_bit_ops(b.pieces[u][k], !(1u64 << mv.from as u64), to);
    }
}

/// A move gives at most one board.
proof fn lemma_board_after_unique(b: Board, mv: Move, piece: Piece, n1: Board, n2: Board)
    requires
        board_after(b, mv, piece, n1),
        board_after(b, mv, piece, n2),
    ensures
        n1 == n2,
{
    assert forall|c: int| 0 <= c < 2 implies n1.pieces[c] =~= n2.pieces[c] by {
        assert forall|k: int| 0 <= k < 6 implies n1.pieces[c][k] == n2.pieces[c][k] by {
            assert(n1.pieces[c][k] == bitboard_after(b, mv, piece, c, k));
        }
    }
    assert(n1.pieces =~= n2.pieces);
}

// ── Move application ──────────────────────────────────────────────────────────

/// Apply a move and return the new board, or `None` if the move is illegal:
/// the side to move has no piece on the source square, or the move leaves
/// its king in check.
pub fn apply_move(board: &Board, mv: Move) -> (r: Option<Board>)
    requires
        apply_ok(*board, mv),
    ensures
        r is Some <==> applies(*board, mv),
        r matches Some(n) ==> board_after(
            *board,
            mv,
            kind_on(*board, board.side_to_move, mv.from as u64)->0,
            n,
        ),
{
    let mut new = *board;
    let us = new.side_to_move;
    let them = us.flip();
    let u = us.index();
    let t = them.index();

    // Find moving piece
    let piece = match new.piece_on(us, mv.from) {
        Some(p) => p,
        None => return None,
    };
    proof {
        assert(kind_on(*board, us, mv.from as u64) == Some(piece));
    }
    let from_bb = sq_bb(mv.from);
    let to_bb = sq_bb(mv.to);

    // Remove from source
    new.pieces[u][piece.index()] &= !from_bb;

    // Remove captured piece (any opponent piece on `to`)
    let mut p: usize = 0;
    while p < 6
        invariant
            0 <= p <= 6,
            u < 2,
            t < 2,
            u != t,
            new.halfmove_clock == board.halfmove_clock,
            new.fullmove_number == board.fullmove_number,
            new.castling_rights == board.castling_rights,
            new.side_to_move == board.side_to_move,
            forall|k: int| 0 <= k < 6 ==> #[trigger] new.pieces[u as int][k] == if k == piece.idx() {
                board.pieces[u as int][k] & !from_bb
            } else {
                board.pieces[u as int][k]
            },
            forall|k: int| 0 <= k < 6 ==> #[trigger] new.pieces[t as int][k] == if k < p { board.pieces[t as int][k] & !to_bb } else { board.pieces[t as int][k] },
        decreases 6 - p,
    {
        new.pieces[t][p] &= !to_bb;
        p += 1;
    }

    // En passant capture
    if mv.flags.contains(MoveFlags { bits: EN_PASSANT }) {
        let ep_pawn_sq = match us {
            Color::White => mv.to - 8,
            Color::Black => mv.to + 8,
        };
        new.pieces[t][0] &= !sq_bb(ep_pawn_sq);
    }

    // Promotion: place a queen
    let landing_piece = if mv.flags.contains(MoveFlags { bits: PROMOTION }) {
        Piece::Queen
    } else {
        piece
    };
    new.pieces[u][landing_piece.index()] |= to_bb;

    // Castling: also move the rook
    if mv.flags.contains(MoveFlags { bits: CASTLE_K }) {
        match us {
            Color::White => {
                new.pieces[0][3] &= !0x0000_0000_0000_0080u64;
                new.pieces[0][3] |= 0x0000_0000_0000_0020u64;
            },
            Color::Black => {
                new.pieces[1][3] &= !0x8000_0000_0000_0000u64;
                new.pieces[1][3] |= 0x2000_0000_0000_0000u64;
            },
        }
    } else if mv.flags.contains(MoveFlags { bits: CASTLE_Q }) {
        match us {
            Color::White => {
                new.pieces[0][3] &= !0x0000_0000_0000_0001u64;
                new.pieces[0][3] |= 0x0000_0000_0000_0008u64;
            },
            Color::Black => {
                new.pieces[1][3] &= !0x0100_0000_0000_0000u64;
                new.pieces[1][3] |= 0x0800_0000_0000_0000u64;
            },
        }
    }

    // Update castling rights
    update_castling_rights(&mut new, mv.from, mv.to, piece, us);

    // En passant square
    new.en_passant = if mv.flags.contains(MoveFlags { bits: DOUBLE_PUSH }) {
        let ep_sq = match us {
            Color::White => mv.from + 8,
            Color::Black => mv.from - 8,
        };
        Some(ep_sq)
    } else {
        None
    };

    proof {
        assert(new.halfmove_clock == board.halfmove_clock);
        assert(new.fullmove_number == board.fullmove_number);
        assert forall|c: int, k: int| 0 <= c < 2 && 0 <= k < 6 implies #[trigger] new.pieces[c][k]
            == bitboard_after(*board, mv, piece, c, k) by {
            if c == u as int {
            } else {
                assert(c == t as int);
            }
        }
    }
    // Halfmove clock
    if piece == Piece::Pawn || mv.flags.contains(MoveFlags { bits: CAPTURE }) {
        new.halfmove_clock = 0;
    } else {
        new.halfmove_clock += 1;
    }

    if us == Color::Black {
        new.fullmove_number += 1;
    }

    new.side_to_move = them;
    // Reject a move that leaves the own king in check
    if in_check(&new, us) {
        proof {
            assert forall|n: Board| #[trigger] board_after(*board, mv, piece, n) implies king_exposed(n, us) by {
                lemma_board_after_unique(*board, mv, piece, n, new);
            }
        }
        return None;
    }
    proof {
        assert(board_after(*board, mv, piece, new));
    }
    Some(new)
}

fn update_castling_rights(board: &mut Board, from: u32, to: u32, piece: Piece, us: Color)
    ensures
        *final(board) == (Board { castling_rights: rights_after(old(board).castling_rights, from, to, piece, us), ..*old(board) }),
{
    if piece == Piece::King {
        match us {
            Color::White => board.castling_rights &= !0b0011u8,
            Color::Black => board.castling_rights &= !0b1100u8,
        }
    }
    if from == 0 || to == 0 {
        board.castling_rights &= !0b0010u8;
    }
    if from == 7 || to == 7 {
        board.castling_rights &= !0b0001u8;
    }
    if from == 56 || to == 56 {
        board.castling_rights &= !0b1000u8;
    }
    if from == 63 || to == 63 {
        board.castling_rights &= !0b0100u8;
    }
}


// ── Material count and the quiescence measure ─────────────────────────────────

/// Set bits of the six bitboards of color index `c`.
pub open spec fn row_total(b: Board, c: int) -> int {
    (ones(b.pieces[c][0]) + ones(b.pieces[c][1]) + ones(b.pieces[c][2]) + ones(b.pieces[c][3])
        + ones(b.pieces[c][4]) + ones(b.pieces[c][5])) as int
}

/// Set bits of all twelve bitboards.
pub open spec fn total_pieces(b: Board) -> int {
    row_total(b, 0) + row_total(b, 1)
}

/// Decreases with every capture and every en passant move: twice the number of
/// pieces, plus one while an en passant square is set.
pub open spec fn measure(b: Board) -> int {
    2 * total_pieces(b) + if b.en_passant is Some { 1int } else { 0int }
}

pub proof fn lemma_measure_bounds(b: Board)
    ensures
        0 <= total_pieces(b) <= 768,
        0 <= measure(b) <= 1537,
{
    lemma_ones_bound(b.pieces[0][0]);
    lemma_ones_bound(b.pieces[0][1]);
    lemma_ones_bound(b.pieces[0][2]);
    lemma_ones_bound(b.pieces[0][3]);
    lemma_ones_bound(b.pieces[0][4]);
    lemma_ones_bound(b.pieces[0][5]);
    lemma_ones_bound(b.pieces[1][0]);
    lemma_ones_bound(b.pieces[1][1]);
    lemma_ones_bound(b.pieces[1][2]);
    lemma_ones_bound(b.pieces[1][3]);
    lemma_ones_bound(b.pieces[1][4]);
    lemma_ones_bound(b.pieces[1][5]);
}

/// The bitboard change of one bitboard of the moving side.
proof fn lemma_own_board(b: Board, mv: Move, piece: Piece, k: int)
    requires
        0 <= k < 6,
        mv.from < 64,
        mv.to < 64,
        mv.from != mv.to,
        generated_or_castle(mv),
        bit_set(b.pieces[b.side_to_move.idx()][piece.idx()], mv.from as u64),
    ensures
        ones(bitboard_after(b, mv, piece, b.side_to_move.idx(), k)) + (if k == piece.idx() { 1int } else { 0int })
            <= ones(b.pieces[b.side_to_move.idx()][k]) + (if k == landing_kind(mv, piece).idx() { 1int } else { 0int })
            + (if k == 3 && (mv.flags.bits == 8 || mv.flags.bits == 16) { 1int } else { 0int }),
{
    let us = b.side_to_move;
    let c = us.idx();
    let old = b.pieces[c][k];
    let from_bb = 1u64 << mv.from as u64;
    let to_bb = 1u64 << mv.to as u64;
    lemma_flags(mv.flags.bits);
    let x1 = if k == piece.idx() { old & !from_bb } else { old };
    let x2 = if k == landing_kind(mv, piece).idx() { x1 | to_bb } else { x1 };
    assert forall|i: u64| #[trigger] bit_set(x1, i) implies bit_set(old, i) && (k == piece.idx() ==> i != mv.from) by {
        if k == piece.idx() {
            lemma_bit_ops(old, !from_bb, i);
            lemma_bit_ops(from_bb, 0, i);
            lemma_single(mv.from as u64, i);
        }
    }
    if k == piece.idx() {
        lemma_bit_ops(old, !from_bb, mv.from as u64);
        lemma_bit_ops(from_bb, 0, mv.from as u64);
        lemma_single(mv.from as u64, mv.from as u64);
        lemma_ones_compare(x1, old, None, Some(mv.from as u64));
    } else {
        lemma_ones_compare(x1, old, None, None);
    }
    assert forall|i: u64| #[trigger] bit_set(x2, i) implies bit_set(x1, i) || (k == landing_kind(mv, piece).idx() && i == mv.to) by {
        if k == landing_kind(mv, piece).idx() {
            lemma_bit_ops(x1, to_bb, i);
            lemma_single(mv.to as u64, i);
        }
    }
    if k == landing_kind(mv, piece).idx() {
        lemma_ones_compare(x2, x1, Some(mv.to as u64), None);
    } else {
        lemma_ones_compare(x2, x1, None, None);
    }
    if k == 3 && (mv.flags.bits == 8 || mv.flags.bits == 16) {
        let (rm, add): (u64, u64) = if mv.flags.bits == 8 {
            match us {
                Color::White => (0x80u64, 5u64),
                Color::Black => (0x8000_0000_0000_0000u64, 61u64),
            }
        } else {
            match us {
                Color::White => (1u64, 3u64),
                Color::Black => (0x0100_0000_0000_0000u64, 59u64),
            }
        };
        let x3 = rook_after_castle(x2, mv, us);
        lemma_rook_masks();
        assert(x3 == (x2 & !rm) | (1u64 << add));
        assert forall|i: u64| #[trigger] bit_set(x3, i) implies bit_set(x2, i) || i == add by {
            lemma_bit_ops(x2 & !rm, 1u64 << add, i);
            lemma_bit_ops(x2, !rm, i);
            lemma_single(add, i);
        }
        lemma_ones_compare(x3, x2, Some(add), None);
    } else if k == 3 {
        assert(rook_after_castle(x2, mv, us) == x2);
    }
}

/// The rook squares of castling, as single-square boards.
proof fn lemma_rook_masks()
    ensures
        0x0000_0000_0000_0020u64 == 1u64 << 5u64,
        0x2000_0000_0000_0000u64 == 1u64 << 61u64,
        0x0000_0000_0000_0008u64 == 1u64 << 3u64,
        0x0800_0000_0000_0000u64 == 1u64 << 59u64,
{
    assert(0x0000_0000_0000_0020u64 == 1u64 << 5u64 && 0x2000_0000_0000_0000u64 == 1u64 << 61u64
        && 0x0000_0000_0000_0008u64 == 1u64 << 3u64 && 0x0800_0000_0000_0000u64 == 1u64 << 59u64)
        by (bit_vector);
}

/// A move generation may produce.
pub open spec fn generated_or_castle(mv: Move) -> bool {
    crate::engine::movegen::generated_flags(mv.flags.bits)
}

/// The bitboard change of one bitboard of the side not moving.
proof fn lemma_their_board(b: Board, mv: Move, piece: Piece, k: int)
    requires
        0 <= k < 6,
        mv.to < 64,
    ensures
        ones(bitboard_after(b, mv, piece, b.side_to_move.flipped().idx(), k)) + (if bit_set(
            b.pieces[b.side_to_move.flipped().idx()][k],
            mv.to as u64,
        ) { 1int } else { 0int }) <= ones(b.pieces[b.side_to_move.flipped().idx()][k]),
{
    let us = b.side_to_move;
    let c = us.flipped().idx();
    let old = b.pieces[c][k];
    let to_bb = 1u64 << mv.to as u64;
    let y1 = old & !to_bb;
    let y = bitboard_after(b, mv, piece, c, k);
    assert forall|i: u64| #[trigger] bit_set(y, i) implies bit_set(old, i) && i != mv.to by {
        lemma_bit_ops(old, !to_bb, i);
        lemma_bit_ops(to_bb, 0, i);
        lemma_single(mv.to as u64, i);
        if k == 0 && mv.flags.has(flags_of(EN_PASSANT)) {
            lemma_bit_ops(y1, !(1u64 << ep_victim(mv, us) as u64), i);
        }
    }
    if bit_set(old, mv.to as u64) {
        lemma_ones_compare(y, old, None, Some(mv.to as u64));
    } else {
        lemma_ones_compare(y, old, None, None);
    }
}

/// How a generated move changes the number of pieces: by at most one more
/// (a castling rook that was not there), and by at least one fewer for a
/// capture; an en passant move adds none.
#[verifier::rlimit(40)]
pub proof fn lemma_apply_total(b: Board, mv: Move, piece: Piece, n: Board)
    requires
        kind_on(b, b.side_to_move, mv.from as u64) == Some(piece),
        board_after(b, mv, piece, n),
        move_facts(b, mv),
        mv.from != mv.to,
    ensures
        total_pieces(n) <= total_pieces(b) + 1,
        (mv.flags.bits == 1 || mv.flags.bits == 5) ==> total_pieces(n) + 1 <= total_pieces(b),
        mv.flags.bits == 2 ==> total_pieces(n) <= total_pieces(b),
{
    let us = b.side_to_move;
    let u = us.idx();
    let t = us.flipped().idx();
    lemma_kind_on_from(b, us, mv.from as u64, 0);
    lemma_flags(mv.flags.bits);
    lemma_own_board(b, mv, piece, 0);
    lemma_own_board(b, mv, piece, 1);
    lemma_own_board(b, mv, piece, 2);
    lemma_own_board(b, mv, piece, 3);
    lemma_own_board(b, mv, piece, 4);
    lemma_own_board(b, mv, piece, 5);
    lemma_their_board(b, mv, piece, 0);
    lemma_their_board(b, mv, piece, 1);
    lemma_their_board(b, mv, piece, 2);
    lemma_their_board(b, mv, piece, 3);
    lemma_their_board(b, mv, piece, 4);
    lemma_their_board(b, mv, piece, 5);
    assert(n.pieces[u][0] == bitboard_after(b, mv, piece, u, 0));
    assert(n.pieces[u][1] == bitboard_after(b, mv, piece, u, 1));
    assert(n.pieces[u][2] == bitboard_after(b, mv, piece, u, 2));
    assert(n.pieces[u][3] == bitboard_after(b, mv, piece, u, 3));
    assert(n.pieces[u][4] == bitboard_after(b, mv, piece, u, 4));
    assert(n.pieces[u][5] == bitboard_after(b, mv, piece, u, 5));
    assert(n.pieces[t][0] == bitboard_after(b, mv, piece, t, 0));
    assert(n.pieces[t][1] == bitboard_after(b, mv, piece, t, 1));
    assert(n.pieces[t][2] == bitboard_after(b, mv, piece, t, 2));
    assert(n.pieces[t][3] == bitboard_after(b, mv, piece, t, 3));
    assert(n.pieces[t][4] == bitboard_after(b, mv, piece, t, 4));
    assert(n.pieces[t][5] == bitboard_after(b, mv, piece, t, 5));
    if mv.flags.bits == 1 || mv.flags.bits == 5 {
        let theirs = color_set(b, us.flipped());
        let row = b.pieces[t];
        assert(bit_set(theirs, mv.to as u64));
        lemma_bit_ops(row[0] | row[1] | row[2] | row[3] | row[4], row[5], mv.to as u64);
        lemma_bit_ops(row[0] | row[1] | row[2] | row[3], row[4], mv.to as u64);
        lemma_bit_ops(row[0] | row[1] | row[2], row[3], mv.to as u64);
        lemma_bit_ops(row[0] | row[1], row[2], mv.to as u64);
        lemma_bit_ops(row[0], row[1], mv.to as u64);
    }
    if u == 0 {
        assert(t == 1);
    } else {
        assert(t == 0);
    }
}


// ── Search preconditions ──────────────────────────────────────────────────────

/// A position the search can start from: the en passant square is on the
/// board and the castling rights fit the hash table of rights.
pub open spec fn search_ready(b: Board) -> bool {
    ep_on_board(b) && b.castling_rights < 16
}

/// The move counters cannot overflow within a search of `depth` plies plus
/// its quiescence extension (at most `measure` captures deep).
pub open spec fn counters_fit(b: Board, depth: int) -> bool {
    &&& b.halfmove_clock + 4 * depth + measure(b) <= u32::MAX - 1
    &&& b.fullmove_number + 4 * depth + measure(b) <= u32::MAX - 1
}

/// The score a table entry gives a search of `depth` plies in the window
/// `alpha..beta` without searching: that of an entry for `key` searched at
/// least as deep that is exact, or whose bound already settles the window.
pub open spec fn tt_cutoff(tt: TranspositionTable, key: u64, depth: u8, alpha: i32, beta: i32) -> Option<i32> {
    match lookup(tt.slots(), tt.cap(), key) {
        Some(e) => if e.depth >= depth && (e.bound == Bound::Exact || (e.bound == Bound::LowerBound
            && e.score >= beta) || (e.bound == Bound::UpperBound && e.score <= alpha)) {
            Some(e.score)
        } else {
            None
        },
        None => None,
    }
}

/// The static evaluation from the point of view of the side to move.
pub open spec fn stand_pat_of(b: Board) -> int {
    if b.side_to_move == Color::White {
        eval_spec(b) as int
    } else {
        -eval_spec(b)
    }
}

/// A fail-hard window result: `beta`, or a score in `alpha..beta` that is at
/// least the static evaluation `stand`.
pub open spec fn fail_hard(r: i32, alpha: i32, beta: i32, stand: int) -> bool {
    r == beta || (r >= alpha && r >= stand && (alpha < beta ==> r < beta))
}

/// The bound a search stores with its score `r`, for a window `alpha..beta`:
/// a lower bound after a beta cutoff, exact when `r` raised `alpha`, an upper
/// bound otherwise.
pub open spec fn bound_for(r: i32, alpha: i32, beta: i32) -> Bound {
    if r >= beta {
        Bound::LowerBound
    } else if r > alpha {
        Bound::Exact
    } else {
        Bound::UpperBound
    }
}

/// What a search of `depth` plies may do to the table: entries searched
/// deeper stay, and every slot it changes holds an entry searched at most
/// `depth` plies.
pub open spec fn table_frame(old: Seq<Option<TTEntry>>, new: Seq<Option<TTEntry>>, depth: int) -> bool {
    &&& new.len() == old.len()
    &&& forall|i: int| 0 <= i < old.len() ==> (#[trigger] new[i] == old[i] || (new[i] matches Some(e) && e.depth <= depth))
    &&& forall|i: int| 0 <= i < old.len() && (#[trigger] old[i] matches Some(e) && e.depth > depth) ==> new[i] == old[i]
}

/// Two searches' changes to the table, one after the other, change it as one
/// search of the same depth may.
proof fn lemma_frame_trans(a: Seq<Option<TTEntry>>, b: Seq<Option<TTEntry>>, c: Seq<Option<TTEntry>>, depth: int)
    requires
        table_frame(a, b, depth),
        table_frame(b, c, depth),
    ensures
        table_frame(a, c, depth),
{
    assert forall|i: int| 0 <= i < a.len() implies (#[trigger] c[i] == a[i] || (c[i] matches Some(e) && e.depth <= depth)) by {
        assert(b[i] == a[i] || (b[i] matches Some(e) && e.depth <= depth));
        assert(c[i] == b[i] || (c[i] matches Some(e) && e.depth <= depth));
    }
    assert forall|i: int| 0 <= i < a.len() && (#[trigger] a[i] matches Some(e) && e.depth > depth) implies c[i] == a[i] by {
        assert(b[i] == a[i]);
    }
}

/// The table is well formed and holds no score that cannot be negated.
pub open spec fn tt_ok(tt: TranspositionTable) -> bool {
    &&& tt.wf()
    &&& forall|i: int| 0 <= i < tt.cap() ==> (#[trigger] tt.slots()[i] matches Some(e) ==> e.score > i32::MIN)
}

proof fn lemma_rights_small(cr: u8, m: u8)
    ensures
        cr < 16 ==> (cr & m) < 16,
{
    assert(cr < 16 ==> (cr & m) < 16) by (bit_vector);
}

/// What a generated move keeps of the search preconditions, and how it moves
/// the measure.
pub proof fn lemma_child(b: Board, mv: Move, piece: Piece, n: Board)
    requires
        search_ready(b),
        kind_on(b, b.side_to_move, mv.from as u64) == Some(piece),
        board_after(b, mv, piece, n),
        move_facts(b, mv),
    ensures
        search_ready(n),
        n.halfmove_clock <= b.halfmove_clock + 1,
        n.fullmove_number <= b.fullmove_number + 1,
        measure(n) <= measure(b) + 3,
        (mv.flags.has(flags_of(CAPTURE)) || mv.flags.has(flags_of(EN_PASSANT))) ==> measure(n) < measure(b),
{
    lemma_flags(mv.flags.bits);
    lemma_apply_total(b, mv, piece, n);
    let cr = b.castling_rights;
    lemma_rights_small(cr, !0b0011u8);
    lemma_rights_small(cr, !0b1100u8);
    let c1 = if piece == Piece::King {
        match b.side_to_move {
            Color::White => cr & !0b0011u8,
            Color::Black => cr & !0b1100u8,
        }
    } else {
        cr
    };
    lemma_rights_small(c1, !0b0010u8);
    let c2 = if mv.from == 0 || mv.to == 0 { c1 & !0b0010u8 } else { c1 };
    lemma_rights_small(c2, !0b0001u8);
    let c3 = if mv.from == 7 || mv.to == 7 { c2 & !0b0001u8 } else { c2 };
    lemma_rights_small(c3, !0b1000u8);
    let c4 = if mv.from == 56 || mv.to == 56 { c3 & !0b1000u8 } else { c3 };
    lemma_rights_small(c4, !0b0100u8);
}

// ── Move ordering ─────────────────────────────────────────────────────────────

/// The material value of an optional piece (0 for none).
pub open spec fn value_of(k: Option<Piece>) -> int {
    match k {
        Some(p) => PIECE_VALUES[p.idx()] as int,
        None => 0,
    }
}

/// The move takes a piece.
/// The move captures, en passant included: the moves quiescence plays.
pub open spec fn is_noisy(m: Move) -> bool {
    m.flags.has(flags_of(CAPTURE)) || m.flags.has(flags_of(EN_PASSANT))
}

/// No capture of the side to move can be played.
pub open spec fn no_noisy_move(b: Board) -> bool {
    forall|k: int| 0 <= k < moves_spec(b).len() && is_noisy(#[trigger] moves_spec(b)[k]) ==> !applies(b, moves_spec(b)[k])
}

/// The static evaluation from the side to move's point of view.
pub open spec fn stand_score(b: Board) -> int {
    if b.side_to_move == Color::White {
        eval_spec(b)
    } else {
        -eval_spec(b)
    }
}

/// `x` held to the window: `beta` from `beta` up, at least `alpha`.
pub open spec fn held_to_window(x: int, alpha: int, beta: int) -> int {
    if x >= beta {
        beta
    } else if x > alpha {
        x
    } else {
        alpha
    }
}

/// A capture among those that was played is a noisy generated move that
/// applies, so the position has one.
proof fn lemma_noisy_played(b: Board, caps: Seq<Move>, i: int)
    requires
        0 <= i <= caps.len(),
        forall|t: int| 0 <= t < caps.len() ==> is_noisy(#[trigger] caps[t]) && moves_spec(b).contains(caps[t]),
        !(forall|t: int| 0 <= t < i ==> !applies(b, #[trigger] caps[t])),
    ensures
        !no_noisy_move(b),
{
    let t = choose|t: int| 0 <= t < i && applies(b, #[trigger] caps[t]);
    let k = choose|k: int| 0 <= k < moves_spec(b).len() && moves_spec(b)[k] == caps[t];
    assert(is_noisy(moves_spec(b)[k]));
}

// ── The search value: specification ──────────────────────────────────────────

/// The board that playing the generated move `mv` on `b` gives.
pub open spec fn child_of(b: Board, mv: Move) -> Board {
    choose|n: Board| #[trigger] board_after(b, mv, kind_on(b, b.side_to_move, mv.from as u64)->0, n)
}

/// The moves of `s` that quiescence plays (captures, en passant included), in order.
pub open spec fn noisy_of(s: Seq<Move>) -> Seq<Move>
    decreases s.len(),
{
    if s.len() == 0 {
        Seq::empty()
    } else if is_noisy(s.last()) {
        noisy_of(s.drop_last()).push(s.last())
    } else {
        noisy_of(s.drop_last())
    }
}

/// `m` put into `s` after every move whose ordering score is at least its own.
pub open spec fn insert_ordered(b: Board, s: Seq<Move>, m: Move) -> Seq<Move>
    decreases s.len(),
{
    if s.len() == 0 {
        seq![m]
    } else if order_score(b, s[0]) >= order_score(b, m) {
        seq![s[0]] + insert_ordered(b, s.drop_first(), m)
    } else {
        seq![m] + s
    }
}

/// The moves of `s` stably sorted by descending ordering score.
pub open spec fn ordered_moves(b: Board, s: Seq<Move>) -> Seq<Move>
    decreases s.len(),
{
    if s.len() == 0 {
        Seq::empty()
    } else {
        insert_ordered(b, ordered_moves(b, s.drop_last()), s.last())
    }
}

/// The node counter after `c` more positions: it wraps at 2^64.
pub open spec fn add_count(n: u64, c: nat) -> u64 {
    ((n as int + c) % 0x1_0000_0000_0000_0000int) as u64
}

/// The score a table entry for `key` gives a search of `depth` plies in the
/// window `alpha..beta` without searching.
pub open spec fn slot_cutoff(slots: Seq<Option<TTEntry>>, cap: nat, key: u64, depth: nat, alpha: int, beta: int) -> Option<int> {
    match lookup(slots, cap, key) {
        Some(e) => if e.depth >= depth && (e.bound == Bound::Exact || (e.bound == Bound::LowerBound
            && e.score >= beta) || (e.bound == Bound::UpperBound && e.score <= alpha)) {
            Some(e.score as int)
        } else {
            None
        },
        None => None,
    }
}

/// The quiescence value of `b` in the window `alpha..beta`, with the number
/// of positions it visits: the static evaluation stands if it reaches
/// `beta`; otherwise each playable capture in generation order is searched
/// with the window narrowed to the best score so far, and a capture scoring
/// `beta` or more ends the search with `beta`.
#[verifier::opaque]
pub open spec fn qs_value(b: Board, alpha: int, beta: int) -> (int, nat)
    decreases measure(b), 1int, 0int,
{
    let stand = stand_score(b);
    if stand >= beta {
        (beta, 1)
    } else {
        let caps = noisy_of(moves_spec(b));
        let st = qs_state(b, if stand > alpha { stand } else { alpha }, beta, caps, caps.len() as int);
        (if st.1 { beta } else { st.0 }, st.2 + 1)
    }
}

/// Quiescence after the first `i` captures of `caps`: the raised `alpha`,
/// whether a capture reached `beta`, and the positions visited.
pub open spec fn qs_state(b: Board, alpha: int, beta: int, caps: Seq<Move>, i: int) -> (int, bool, nat)
    decreases measure(b), 0int, i,
{
    if i <= 0 || i > caps.len() {
        (alpha, false, 0)
    } else {
        let p = qs_state(b, alpha, beta, caps, i - 1);
        let mv = caps[i - 1];
        let n = child_of(b, mv);
        if p.1 || !applies(b, mv) || !(0 <= measure(n) < measure(b)) {
            p
        } else {
            let c = qs_value(n, -beta, -p.0);
            let sc = -c.0;
            if sc >= beta {
                (p.0, true, p.2 + c.1)
            } else {
                (if sc > p.0 { sc } else { p.0 }, false, p.2 + c.1)
            }
        }
    }
}

/// Whether a probe for `key` finds its entry: one table hit or none.
pub open spec fn probe_hits(slots: Seq<Option<TTEntry>>, cap: nat, key: u64) -> nat {
    if lookup(slots, cap, key) is Some {
        1
    } else {
        0
    }
}

/// Whether storing `entry` writes its slot: one table store or none.
pub open spec fn store_writes(slots: Seq<Option<TTEntry>>, cap: nat, entry: TTEntry) -> nat {
    if replaces(slots[slot_index(entry.key, cap)], entry.key, entry.depth) {
        1
    } else {
        0
    }
}

/// The alpha-beta value of `b` searched `depth` plies in the window
/// `alpha..beta` with the table `slots`: the score, the table after the
/// search, the number of positions visited, of table hits and of table
/// stores. A table entry that settles
/// the window gives its score; at depth 0 the quiescence value counts; with
/// no generated move the position is a draw; otherwise the moves are
/// searched in order, each child in the window negated and narrowed to the
/// best score so far, until one reaches `beta`, and the result is stored.
#[verifier::opaque]
pub open spec fn nm_value(slots: Seq<Option<TTEntry>>, cap: nat, b: Board, depth: nat, alpha: int, beta: int) -> (
    int,
    Seq<Option<TTEntry>>,
    nat,
    nat,
    nat,
)
    decreases depth, 1int, 0int,
{
    let key = hash_spec(b);
    let h = probe_hits(slots, cap, key);
    match slot_cutoff(slots, cap, key, depth, alpha, beta) {
        Some(s) => (s, slots, 1, h, 0),
        None => if depth == 0 {
            let q = qs_value(b, alpha, beta);
            (q.0, slots, q.1 + 1, h, 0)
        } else if moves_spec(b).len() == 0 {
            (DRAW_SCORE as int, slots, 1, h, 0)
        } else {
            let ms = ordered_moves(b, moves_spec(b));
            let st = nm_state(slots, cap, b, depth, alpha, beta, ms, ms.len() as int);
            let entry = TTEntry {
                key,
                depth: depth as u8,
                score: st.2 as i32,
                bound: st.5,
                best_from: st.3,
                best_to: st.4,
            };
            (st.2, stored(st.0, cap, entry), st.7 + 1, h + st.8, st.9 + store_writes(st.0, cap, entry))
        }
    }
}

/// The search of `b` after the first `i` moves of `ms`: the table, the raised
/// `alpha`, the best score, the best move's squares, the bound to store,
/// whether a move reached `beta`, and the positions, table hits and table
/// stores counted.
pub open spec fn nm_state(
    slots: Seq<Option<TTEntry>>,
    cap: nat,
    b: Board,
    depth: nat,
    alpha: int,
    beta: int,
    ms: Seq<Move>,
    i: int,
) -> (Seq<Option<TTEntry>>, int, int, u8, u8, Bound, bool, nat, nat, nat)
    decreases depth, 0int, i,
{
    if i <= 0 || i > ms.len() || depth == 0 {
        (slots, alpha, i32::MIN as int + 1, 0, 0, Bound::UpperBound, false, 0, 0, 0)
    } else {
        let p = nm_state(slots, cap, b, depth, alpha, beta, ms, i - 1);
        let mv = ms[i - 1];
        if p.6 || !applies(b, mv) {
            p
        } else {
            let c = nm_value(p.0, cap, child_of(b, mv), (depth - 1) as nat, -beta, -p.1);
            let sc = -c.0;
            let better = sc > p.2;
            let raised = sc > p.1;
            let a = if raised { sc } else { p.1 };
            (
                c.1,
                a,
                if better { sc } else { p.2 },
                if better { mv.from as u8 } else { p.3 },
                if better { mv.to as u8 } else { p.4 },
                if a >= beta { Bound::LowerBound } else if raised { Bound::Exact } else { p.5 },
                a >= beta,
                p.7 + c.2,
                p.8 + c.3,
                p.9 + c.4,
            )
        }
    }
}

/// The root search after the first `i` moves of `ms`: the table, the best
/// score, the best move, and the positions, table hits and table stores
/// counted. Every playable move is
/// searched in the full window; a move is kept only if it scores strictly
/// better than the best so far.
#[verifier::opaque]
pub open spec fn root_state(slots: Seq<Option<TTEntry>>, cap: nat, b: Board, depth: nat, ms: Seq<Move>, i: int) -> (
    Seq<Option<TTEntry>>,
    int,
    Option<Move>,
    nat,
    nat,
    nat,
)
    decreases i,
{
    if i <= 0 || i > ms.len() {
        (slots, i32::MIN as int, None, 0, 0, 0)
    } else {
        let p = root_state(slots, cap, b, depth, ms, i - 1);
        let mv = ms[i - 1];
        if !applies(b, mv) || depth == 0 {
            p
        } else {
            let c = nm_value(p.0, cap, child_of(b, mv), (depth - 1) as nat, -(i32::MAX as int), -(i32::MIN as int + 1));
            let sc = -c.0;
            if sc > p.1 {
                (c.1, sc, Some(mv), p.3 + c.2, p.4 + c.3, p.5 + c.4)
            } else {
                (c.1, p.1, p.2, p.3 + c.2, p.4 + c.3, p.5 + c.4)
            }
        }
    }
}

/// The score the root search gives the `k`-th move of `ms`: the negated
/// value of its child, searched from the table the earlier moves left.
pub open spec fn root_score(slots: Seq<Option<TTEntry>>, cap: nat, b: Board, depth: nat, ms: Seq<Move>, k: int) -> int {
    let p = root_state(slots, cap, b, depth, ms, k);
    -nm_value(p.0, cap, child_of(b, ms[k]), (depth - 1) as nat, -(i32::MAX as int), -(i32::MIN as int + 1)).0
}

pub open spec fn is_capture(m: Move) -> bool {
    m.flags.has(flags_of(CAPTURE))
}

/// The move promotes a pawn.
pub open spec fn is_promotion(m: Move) -> bool {
    m.flags.has(flags_of(PROMOTION))
}

/// `mv` is a playable root move whose search score is at least that of
/// every other playable root move.
#[verifier::opaque]
pub open spec fn is_best_root_move(slots: Seq<Option<TTEntry>>, cap: nat, b: Board, depth: nat, mv: Move) -> bool {
    let ms = ordered_moves(b, moves_spec(b));
    exists|k: int|
        0 <= k < ms.len() && #[trigger] ms[k] == mv && applies(b, mv) && forall|j: int|
            0 <= j < ms.len() && applies(b, #[trigger] ms[j]) ==> root_score(slots, cap, b, depth, ms, j)
                <= root_score(slots, cap, b, depth, ms, k)
}

/// One playable root move: its child is searched from the table the earlier
/// moves left, and it is kept if it scores better than the best so far.
proof fn lemma_root_step(
    slots: Seq<Option<TTEntry>>,
    cap: nat,
    b: Board,
    depth: nat,
    ms: Seq<Move>,
    i: int,
    c: (int, Seq<Option<TTEntry>>, nat, nat, nat),
)
    requires
        0 <= i < ms.len(),
        applies(b, ms[i]),
        depth >= 1,
        c == nm_value(root_state(slots, cap, b, depth, ms, i).0, cap, child_of(b, ms[i]), (depth - 1) as nat, -(i32::MAX as int), -(i32::MIN as int + 1)),
    ensures
        ({
            let p = root_state(slots, cap, b, depth, ms, i);
            root_state(slots, cap, b, depth, ms, i + 1) == if -c.0 > p.1 {
                (c.1, -c.0, Some(ms[i]), p.3 + c.2, p.4 + c.3, p.5 + c.4)
            } else {
                (c.1, p.1, p.2, p.3 + c.2, p.4 + c.3, p.5 + c.4)
            }
        }),
{
    reveal(root_state);
}

/// A root move that cannot be played changes nothing.
proof fn lemma_root_skip(slots: Seq<Option<TTEntry>>, cap: nat, b: Board, depth: nat, ms: Seq<Move>, i: int)
    requires
        0 <= i < ms.len(),
        !applies(b, ms[i]),
    ensures
        root_state(slots, cap, b, depth, ms, i + 1) == root_state(slots, cap, b, depth, ms, i),
{
    reveal(root_state);
}

/// The root search keeps the best score of the moves searched so far, and
/// the move it keeps scored it.
proof fn lemma_root_best(slots: Seq<Option<TTEntry>>, cap: nat, b: Board, depth: nat, ms: Seq<Move>, i: int)
    requires
        0 <= i <= ms.len(),
        depth >= 1,
    ensures
        forall|j: int| 0 <= j < i && applies(b, #[trigger] ms[j]) ==> root_score(slots, cap, b, depth, ms, j)
            <= root_state(slots, cap, b, depth, ms, i).1,
        root_state(slots, cap, b, depth, ms, i).2 matches Some(m) ==> exists|k: int|
            0 <= k < i && #[trigger] ms[k] == m && applies(b, m) && root_score(slots, cap, b, depth, ms, k)
                == root_state(slots, cap, b, depth, ms, i).1,
    decreases i,
{
    reveal(root_state);
    if i > 0 {
        lemma_root_best(slots, cap, b, depth, ms, i - 1);
        let p = root_state(slots, cap, b, depth, ms, i - 1);
        let q = root_state(slots, cap, b, depth, ms, i);
        if applies(b, ms[i - 1]) {
            let sc = root_score(slots, cap, b, depth, ms, i - 1);
            assert(q.1 == if sc > p.1 { sc } else { p.1 });
            if sc > p.1 {
                assert(ms[i - 1] == ms[i - 1]);
            } else {
                if let Some(m) = q.2 {
                    let k = choose|k: int| 0 <= k < i - 1 && #[trigger] ms[k] == m && applies(b, m)
                        && root_score(slots, cap, b, depth, ms, k) == p.1;
                    assert(0 <= k < i && ms[k] == m);
                }
            }
        } else {
            assert(q == p);
            if let Some(m) = q.2 {
                let k = choose|k: int| 0 <= k < i - 1 && #[trigger] ms[k] == m && applies(b, m)
                    && root_score(slots, cap, b, depth, ms, k) == p.1;
                assert(0 <= k < i && ms[k] == m);
            }
        }
    }
}

/// The move the root search keeps is a best playable move.
proof fn lemma_best_chosen(slots: Seq<Option<TTEntry>>, cap: nat, b: Board, depth: nat, m: Move)
    requires
        depth >= 1,
        ({
            let ms = ordered_moves(b, moves_spec(b));
            root_state(slots, cap, b, depth, ms, ms.len() as int).2 == Some(m)
        }),
    ensures
        is_best_root_move(slots, cap, b, depth, m),
{
    reveal(is_best_root_move);
    let ms = ordered_moves(b, moves_spec(b));
    lemma_root_best(slots, cap, b, depth, ms, ms.len() as int);
    let k = choose|k: int| 0 <= k < ms.len() && #[trigger] ms[k] == m && applies(b, m)
        && root_score(slots, cap, b, depth, ms, k) == root_state(slots, cap, b, depth, ms, ms.len() as int).1;
    assert(0 <= k < ms.len() && ms[k] == m && applies(b, m));
}

/// Before any move, the root search has kept nothing.
proof fn lemma_root_start(slots: Seq<Option<TTEntry>>, cap: nat, b: Board, depth: nat, ms: Seq<Move>)
    ensures
        root_state(slots, cap, b, depth, ms, 0) == (slots, i32::MIN as int, Option::<Move>::None, 0nat, 0nat, 0nat),
{
    reveal(root_state);
}

/// Once a capture reaches `beta`, quiescence plays no further capture.
proof fn lemma_qs_cut_stays(b: Board, alpha: int, beta: int, caps: Seq<Move>, i: int, k: int)
    requires
        0 <= i <= k <= caps.len(),
        qs_state(b, alpha, beta, caps, i).1,
    ensures
        qs_state(b, alpha, beta, caps, k) == qs_state(b, alpha, beta, caps, i),
    decreases k - i,
{
    reveal(qs_value);
    if k > i {
        lemma_qs_cut_stays(b, alpha, beta, caps, i, k - 1);
    }
}

/// Once a move reaches `beta`, the search plays no further move.
proof fn lemma_nm_cut_stays(
    slots: Seq<Option<TTEntry>>,
    cap: nat,
    b: Board,
    depth: nat,
    alpha: int,
    beta: int,
    ms: Seq<Move>,
    i: int,
    k: int,
)
    requires
        0 <= i <= k <= ms.len(),
        nm_state(slots, cap, b, depth, alpha, beta, ms, i).6,
    ensures
        nm_state(slots, cap, b, depth, alpha, beta, ms, k) == nm_state(slots, cap, b, depth, alpha, beta, ms, i),
    decreases k - i,
{
    reveal(nm_value);
    if k > i {
        lemma_nm_cut_stays(slots, cap, b, depth, alpha, beta, ms, i, k - 1);
    }
}

/// The board `apply_move` gives is the child of the move.
proof fn lemma_child_of(b: Board, mv: Move, piece: Piece, n: Board)
    requires
        kind_on(b, b.side_to_move, mv.from as u64) == Some(piece),
        board_after(b, mv, piece, n),
    ensures
        child_of(b, mv) == n,
{
    let c = child_of(b, mv);
    assert(board_after(b, mv, piece, c));
    lemma_board_after_unique(b, mv, piece, n, c);
}

/// Counting one position is one wrapping step of the counter.
proof fn lemma_count_one(n: u64)
    ensures
        n.wrapping_add(1) == add_count(n, 1),
{
    if n as int + 1 > u64::MAX as int {
        assert((n as int + 1) % 0x1_0000_0000_0000_0000int == 0);
    } else {
        vstd::arithmetic::div_mod::lemma_small_mod((n as int + 1) as nat, 0x1_0000_0000_0000_0000nat);
    }
}

/// Counting no position leaves the counter alone.
proof fn lemma_count_zero(n: u64)
    ensures
        add_count(n, 0) == n,
{
    vstd::arithmetic::div_mod::lemma_small_mod(n as nat, 0x1_0000_0000_0000_0000nat);
}

/// Counting `a` positions and then `c` counts `a + c`.
proof fn lemma_count_add(n: u64, a: nat, c: nat)
    ensures
        add_count(add_count(n, a), c) == add_count(n, a + c),
{
    let m = 0x1_0000_0000_0000_0000int;
    vstd::arithmetic::div_mod::lemma_mod_bound(n as int + a, m);
    vstd::arithmetic::div_mod::lemma_mod_bound(n as int + a + c, m);
    vstd::arithmetic::div_mod::lemma_add_mod_noop_right(c as int, n as int + a, m);
    let x = add_count(n, a);
    assert(x as int == (n as int + a) % m);
    vstd::arithmetic::div_mod::lemma_mod_bound(x as int + c, m);
    assert(c as int + (n as int + a) == n as int + (a + c));
    assert(x as int + c == c as int + (n as int + a) % m);
}

/// Inserting `m` where the first lower-scoring move stands is the ordered
/// insertion.
proof fn lemma_insert_at(b: Board, s: Seq<Move>, m: Move, j: int)
    requires
        0 <= j <= s.len(),
        forall|t: int| 0 <= t < j ==> order_score(b, #[trigger] s[t]) >= order_score(b, m),
        j < s.len() ==> order_score(b, s[j]) < order_score(b, m),
    ensures
        insert_ordered(b, s, m) == s.insert(j, m),
    decreases s.len(),
{
    if s.len() == 0 {
        assert(s.insert(j, m) =~= seq![m]);
    } else if j == 0 {
        assert(s.insert(0, m) =~= seq![m] + s);
    } else {
        assert(order_score(b, s[0]) >= order_score(b, m));
        let r = s.drop_first();
        assert forall|t: int| 0 <= t < j - 1 implies order_score(b, #[trigger] r[t]) >= order_score(b, m) by {
            assert(r[t] == s[t + 1]);
        }
        lemma_insert_at(b, r, m, j - 1);
        assert(seq![s[0]] + r.insert(j - 1, m) =~= s.insert(j, m));
    }
}

/// Captures score at least 8000, quiet promotions 5000, other moves 0.
proof fn lemma_order_classes(b: Board, m: Move)
    ensures
        is_capture(m) ==> order_score(b, m) >= 8000,
        !is_capture(m) && is_promotion(m) ==> order_score(b, m) == 5000,
        !is_capture(m) && !is_promotion(m) ==> order_score(b, m) == 0,
{
    let us = b.side_to_move;
    lemma_value_bounds(kind_on(b, us.flipped(), m.to as u64));
    lemma_value_bounds(kind_on(b, us, m.from as u64));
}

proof fn lemma_value_bounds(k: Option<Piece>)
    ensures
        0 <= value_of(k) <= 20000,
{
    match k {
        Some(p) => {
            assert(PIECE_VALUES[p.idx()] <= 20000 && PIECE_VALUES[p.idx()] >= 0);
        },
        None => {},
    }
}

/// The ordering score of a move: captures by most valuable victim, least
/// valuable attacker, then promotions.
pub open spec fn order_score(b: Board, m: Move) -> int {
    let us = b.side_to_move;
    (if m.flags.has(flags_of(CAPTURE)) {
        10000 + value_of(kind_on(b, us.flipped(), m.to as u64)) - value_of(
            kind_on(b, us, m.from as u64),
        ) / 10
    } else {
        0
    }) + if m.flags.has(flags_of(PROMOTION)) {
        5000int
    } else {
        0int
    }
}

fn piece_value(k: Option<Piece>) -> (v: i32)
    ensures
        v == value_of(k),
        0 <= v <= 20000,
{
    match k {
        Some(p) => PIECE_VALUES[p.index()],
        None => 0,
    }
}

fn order_key(board: &Board, mv: Move) -> (key: i32)
    requires
        mv.from < 64,
        mv.to < 64,
    ensures
        key == -order_score(*board, mv),
{
    let mut score: i32 = 0;
    if mv.flags.contains(MoveFlags { bits: CAPTURE }) {
        let victim = piece_value(board.piece_on(board.side_to_move.flip(), mv.to));
        let attacker = piece_value(board.piece_on(board.side_to_move, mv.from));
        score += 10_000 + victim - attacker / 10;
    }
    if mv.flags.contains(MoveFlags { bits: PROMOTION }) {
        score += 5_000;
    }
    -score
}

/// Order moves to improve pruning efficiency: captures by MVV-LVA, then
/// promotions, then quiet moves (a stable sort by descending ordering score).
fn order_moves(moves: Vec<Move>, board: &Board) -> (r: Vec<Move>)
    requires
        forall|i: int| 0 <= i < moves.len() ==> #[trigger] moves[i].from < 64 && moves[i].to < 64,
    ensures
        r@ == ordered_moves(*board, moves@),
        r@.to_multiset() == moves@.to_multiset(),
        r.len() == moves.len(),
        forall|i: int| 0 <= i < r.len() ==> moves@.contains(#[trigger] r[i]),
        forall|i: int, j: int|
            0 <= i < j < r.len() ==> order_score(*board, #[trigger] r[i]) >= order_score(
                *board,
                #[trigger] r[j],
            ),
        forall|i: int, j: int|
            0 <= i < j < r.len() && is_capture(#[trigger] r[j]) ==> is_capture(#[trigger] r[i]),
        forall|i: int, j: int|
            0 <= i < j < r.len() && is_promotion(#[trigger] r[j]) ==> is_capture(#[trigger] r[i])
                || is_promotion(r[i]),
{
    let mut out: Vec<Move> = Vec::new();
    let mut keys: Vec<i32> = Vec::new();
    let mut i: usize = 0;
    proof {
        assert(out@ =~= moves@.take(0));
    }
    while i < moves.len()
        invariant
            i <= moves.len(),
            forall|t: int| 0 <= t < moves.len() ==> #[trigger] moves[t].from < 64 && moves[t].to < 64,
            out.len() == i,
            keys.len() == out.len(),
            forall|t: int| 0 <= t < out.len() ==> #[trigger] keys[t] == -order_score(*board, out[t]),
            forall|a: int, c: int| 0 <= a < c < keys.len() ==> #[trigger] keys[a] <= #[trigger] keys[c],
            out@.to_multiset() == moves@.take(i as int).to_multiset(),
            out@ == ordered_moves(*board, moves@.take(i as int)),
            forall|t: int| 0 <= t < out.len() ==> moves@.contains(#[trigger] out[t]),
        decreases moves.len() - i,
    {
        let mv = moves[i];
        let k = order_key(board, mv);
        let mut j: usize = 0;
        while j < out.len() && keys[j] <= k
            invariant
                j <= out.len(),
                keys.len() == out.len(),
                forall|t: int| 0 <= t < j ==> #[trigger] keys[t] <= k,
            decreases out.len() - j,
        {
            j += 1;
        }
        let ghost old_out = out@;
        let ghost old_keys = keys@;
        proof {
            assert forall|t: int| 0 <= t < j implies order_score(*board, #[trigger] out@[t]) >= order_score(*board, mv) by {
                assert(keys[t] <= k);
            }
            if j < out.len() {
                assert(keys[j as int] > k);
            }
            lemma_insert_at(*board, out@, mv, j as int);
            assert(moves@.take(i as int + 1).drop_last() =~= moves@.take(i as int));
            assert(moves@.take(i as int + 1).last() == mv);
        }
        out.insert(j, mv);
        keys.insert(j, k);
        proof {
            assert(moves@.take(i as int + 1) =~= moves@.take(i as int).push(mv));
            assert(out@ == old_out.insert(j as int, mv));
            vstd::seq_lib::to_multiset_insert(old_out, j as int, mv);
            vstd::seq_lib::to_multiset_build(moves@.take(i as int), mv);
            assert(moves@.contains(mv)) by {
                assert(moves@[i as int] == mv);
            }
            assert forall|t: int| 0 <= t < out.len() implies moves@.contains(#[trigger] out[t]) by {
                if t < j {
                    assert(out[t] == old_out[t]);
                } else if t > j {
                    assert(out[t] == old_out[t - 1]);
                }
            }
            assert forall|t: int| 0 <= t < out.len() implies #[trigger] keys[t] == -order_score(*board, out[t]) by {
                if t < j {
                    assert(out[t] == old_out[t]);
                    assert(keys[t] == old_keys[t]);
                } else if t > j {
                    assert(out[t] == old_out[t - 1]);
                    assert(keys[t] == old_keys[t - 1]);
                }
            }
            assert forall|a: int, c: int| 0 <= a < c < keys.len() implies #[trigger] keys[a] <= #[trigger] keys[c] by {
                let ka = if a < j { old_keys[a] } else if a == j { k } else { old_keys[a - 1] };
                let kc = if c < j { old_keys[c] } else if c == j { k } else { old_keys[c - 1] };
                assert(keys[a] == ka);
                assert(keys[c] == kc);
                if c == j {
                    assert(old_keys[a] <= k);
                } else if a == j {
                    assert(c - 1 >= j);
                    assert(!(j < old_keys.len() && old_keys[j as int] <= k) || j == old_keys.len());
                    assert(old_keys[j as int] <= old_keys[c - 1]);
                }
            }
        }
        i += 1;
    }
    proof {
        assert(moves@.take(moves.len() as int) =~= moves@);
        assert forall|a: int, c: int| 0 <= a < c < out.len() implies order_score(*board, #[trigger] out[a]) >= order_score(*board, #[trigger] out[c]) by {
            assert(keys[a] <= keys[c]);
        }
    }
    proof {
        assert forall|a: int, c: int| 0 <= a < c < out.len() implies (is_capture(#[trigger] out[c]) ==> is_capture(#[trigger] out[a]))
            && (is_promotion(out[c]) ==> is_capture(out[a]) || is_promotion(out[a])) by {
            lemma_order_classes(*board, out[a]);
            lemma_order_classes(*board, out[c]);
            assert(keys[a] <= keys[c]);
        }
    }
    out
}

/// Evaluate from the perspective of the side to move (negamax convention).
fn evaluate_from_side(board: &Board) -> (s: i32)
    ensures
        s == if board.side_to_move == Color::White {
            eval_spec(*board)
        } else {
            -eval_spec(*board)
        },
        -20_000_000 <= s <= 20_000_000,
{
    let score = evaluate(board);
    if board.side_to_move == Color::White {
        score
    } else {
        -score
    }
}

// ── Time ──────────────────────────────────────────────────────────────────────

#[verifier::external_type_specification]
#[verifier::external_body]
pub struct ExInstant(Instant);

/// `Instant::now`: a reading of the monotonic clock. Trusted; nothing is
/// claimed of the reading.
#[verifier::external_body]
fn clock_now() -> Instant {
    Instant::now()
}

/// `Instant::elapsed`: the time since `start`. Trusted; nothing is claimed of
/// the duration.
#[verifier::external_body]
fn elapsed_since(start: &Instant) -> Duration {
    start.elapsed()
}

/// `Duration::as_millis`: whole milliseconds. Trusted; nothing is claimed.
#[verifier::external_body]
fn millis_of(d: &Duration) -> u128 {
    d.as_millis()
}

// ── Search ────────────────────────────────────────────────────────────────────

pub struct SearchStats {
    pub nodes: u64,
    pub tt_hits: u64,
    pub depth_reached: u8,
    pub elapsed_ms: u64,
}

pub struct Searcher {
    pub tt: TranspositionTable,
}

impl Searcher {
    pub fn new(tt_size_mb: usize) -> (r: Self)
        requires
            table_fits(tt_size_mb),
        ensures
            tt_ok(r.tt),
            r.tt.cap() == table_capacity(tt_size_mb),
            forall|i: int| 0 <= i < r.tt.cap() ==> #[trigger] r.tt.slots()[i] is None,
            r.tt.hit_count() == 0,
            r.tt.store_count() == 0,
    {
        Searcher { tt: TranspositionTable::new(tt_size_mb) }
    }

    /// Find the best move for the side to move, searching to `depth` ply.
    /// The move returned is a generated move that can be played without
    /// leaving the mover's king attacked, and scores at least as well as
    /// every other such move; there is none exactly when no generated move
    /// can be played.
    #[verifier::rlimit(60)]
    pub fn best_move(&mut self, board: &mut Board, depth: u8) -> (r: Option<(Move, SearchStats)>)
        requires
            tt_ok(old(self).tt),
            search_ready(*old(board)),
            counters_fit(*old(board), depth as int),
            depth >= 1 || forall|i: int|
                0 <= i < moves_spec(*old(board)).len() ==> !applies(*old(board), #[trigger] moves_spec(*old(board))[i]),
        ensures
            tt_ok(final(self).tt),
            *final(board) == *old(board),
            r matches Some((mv, stats)) ==> {
                &&& moves_spec(*old(board)).contains(mv)
                &&& applies(*old(board), mv)
                &&& stats.depth_reached == depth
                &&& stats.tt_hits == final(self).tt.hit_count()
            },
            r is Some <==> exists|i: int|
                0 <= i < moves_spec(*old(board)).len() && applies(*old(board), #[trigger] moves_spec(*old(board))[i]),
            ({
                let ms = ordered_moves(*old(board), moves_spec(*old(board)));
                let rs = root_state(old(self).tt.slots(), old(self).tt.cap(), *old(board), depth as nat, ms, ms.len() as int);
                &&& final(self).tt.slots() == rs.0
                &&& final(self).tt.hit_count() == add_count(old(self).tt.hit_count(), rs.4)
                &&& final(self).tt.store_count() == add_count(old(self).tt.store_count(), rs.5)
                &&& r matches Some((mv, stats)) ==> rs.2 == Some(mv) && stats.nodes == add_count(0, rs.3)
                &&& r is None ==> rs.2 is None
            }),
            r matches Some((mv, stats)) ==> is_best_root_move(old(self).tt.slots(), old(self).tt.cap(), *old(board), depth as nat, mv),
    {
        let start = clock_now();
        let mut nodes: u64 = 0;
        let ghost tt_start = self.tt;
        proof {
            lemma_count_zero(0);
            lemma_count_zero(tt_start.hit_count());
            lemma_count_zero(tt_start.store_count());
        }

        let mut best_move: Option<Move> = None;
        let mut best_score: i32 = i32::MIN;
        let alpha: i32 = i32::MIN + 1;
        let beta: i32 = i32::MAX;

        let moves = generate_moves(board);
        if moves.len() == 0 {
            proof {
                lemma_root_start(tt_start.slots(), tt_start.cap(), *board, depth as nat, ordered_moves(*board, moves@));
            }
            return None;
        }
        proof {
            lemma_moves_facts(*board);
            lemma_measure_bounds(*board);
        }
        let ghost b0 = *board;
        let ordered = order_moves(moves, board);
        proof {
            lemma_root_start(tt_start.slots(), tt_start.cap(), b0, depth as nat, ordered@);
        }
        let mut i: usize = 0;
        while i < ordered.len()
            invariant
                *board == b0,
                search_ready(b0),
                counters_fit(b0, depth as int),
                depth >= 1 || forall|t: int|
                    0 <= t < moves_spec(b0).len() ==> !applies(b0, #[trigger] moves_spec(b0)[t]),
                moves@ == moves_spec(b0),
                all_facts(b0, moves_spec(b0)),
                i <= ordered.len(),
                forall|t: int| 0 <= t < ordered.len() ==> moves@.contains(#[trigger] ordered[t]),
                tt_ok(self.tt),
                alpha == i32::MIN + 1,
                beta == i32::MAX,
                best_move is None ==> best_score == i32::MIN,
                best_move matches Some(mv) ==> moves_spec(b0).contains(mv) && applies(b0, mv),
                best_move is Some <==> exists|t: int| 0 <= t < i && applies(b0, #[trigger] ordered@[t]),
                ordered@ == ordered_moves(b0, moves_spec(b0)),
                self.tt.cap() == tt_start.cap(),
                ({
                    let rs = root_state(tt_start.slots(), tt_start.cap(), b0, depth as nat, ordered@, i as int);
                    &&& self.tt.slots() == rs.0
                    &&& best_score == rs.1
                    &&& best_move == rs.2
                    &&& nodes == add_count(0, rs.3)
                    &&& self.tt.hit_count() == add_count(tt_start.hit_count(), rs.4)
                    &&& self.tt.store_count() == add_count(tt_start.store_count(), rs.5)
                }),
            decreases ordered.len() - i,
        {
            let mv = ordered[i];
            proof {
                let t = choose|t: int| 0 <= t < moves@.len() && moves@[t] == mv;
                assert(move_facts(b0, moves_spec(b0)[t]));
                lemma_flags(mv.flags.bits);
                lemma_measure_bounds(b0);
            }
            match apply_move(board, mv) {
                Some(new_board) => {
                    let ghost piece = kind_on(b0, b0.side_to_move, mv.from as u64)->0;
                    proof {
                        lemma_child(b0, mv, piece, new_board);
                        let t = choose|t: int| 0 <= t < moves@.len() && moves@[t] == mv;
                        assert(applies(b0, moves_spec(b0)[t]));
                        assert(depth >= 1);
                    }
                    let mut child = new_board;
                    let ghost tt_mid = self.tt;
                    let ghost rs = root_state(tt_start.slots(), tt_start.cap(), b0, depth as nat, ordered@, i as int);
                    proof {
                        lemma_child_of(b0, mv, piece, new_board);
                    }
                    let score = -self.negamax(&mut child, depth - 1, -beta, -alpha, &mut nodes);
                    proof {
                        let c = nm_value(tt_mid.slots(), tt_start.cap(), new_board, (depth - 1) as nat, -(i32::MAX as int), -(i32::MIN as int + 1));
                        lemma_count_add(0, rs.3, c.2);
                        lemma_count_add(tt_start.hit_count(), rs.4, c.3);
                        lemma_count_add(tt_start.store_count(), rs.5, c.4);
                        assert(ordered@[i as int] == mv);
                        lemma_root_step(tt_start.slots(), tt_start.cap(), b0, depth as nat, ordered@, i as int, c);
                    }
                    if score > best_score {
                        best_score = score;
                        best_move = Some(mv);
                    }
                    proof {
                        assert(applies(b0, ordered@[i as int]));
                    }
                },
                None => {
                    proof {
                        lemma_root_skip(tt_start.slots(), tt_start.cap(), b0, depth as nat, ordered@, i as int);
                    }
                },
            }
            proof {
                if best_move is Some {
                    let w = choose|t: int| 0 <= t < i + 1 && applies(b0, #[trigger] ordered@[t]);
                    assert(0 <= w < i + 1 && applies(b0, ordered@[w]));
                }
            }
            i += 1;
        }
        proof {
            broadcast use vstd::seq_lib::group_to_multiset_ensures;
            if exists|t: int| 0 <= t < moves_spec(b0).len() && applies(b0, #[trigger] moves_spec(b0)[t]) {
                let t = choose|t: int| 0 <= t < moves_spec(b0).len() && applies(b0, #[trigger] moves_spec(b0)[t]);
                assert(moves@.to_multiset().count(moves@[t]) > 0);
                assert(ordered@.contains(moves@[t]));
                let u = choose|u: int| 0 <= u < ordered@.len() && ordered@[u] == moves@[t];
                assert(applies(b0, ordered@[u]));
            }
            if let Some(m) = best_move {
                lemma_best_chosen(tt_start.slots(), tt_start.cap(), b0, depth as nat, m);
            }
        }

        let elapsed = elapsed_since(&start);
        let elapsed_ms = millis_of(&elapsed) as u64;
        let stats = SearchStats {
            nodes,
            tt_hits: self.tt.hits(),
            depth_reached: depth,
            elapsed_ms,
        };
        match best_move {
            Some(mv) => Some((mv, stats)),
            None => None,
        }
    }

    /// Negamax with alpha-beta pruning. Returns the best score for the side to
    /// move; the caller's perspective is the negation. The score, the table
    /// it leaves and the positions it counts are those of `nm_value`.
    fn negamax(&mut self, board: &mut Board, depth: u8, alpha: i32, beta: i32, nodes: &mut u64) -> (r: i32)
        requires
            tt_ok(old(self).tt),
            search_ready(*old(board)),
            counters_fit(*old(board), depth as int),
            alpha > i32::MIN,
            beta > i32::MIN,
        ensures
            tt_ok(final(self).tt),
            *final(board) == *old(board),
            r > i32::MIN,
            match tt_cutoff(old(self).tt, hash_spec(*old(board)), depth, alpha, beta) {
                Some(score) => r == score,
                None => if depth == 0 {
                    fail_hard(r, alpha, beta, stand_pat_of(*old(board)))
                } else if moves_spec(*old(board)).len() == 0 {
                    r == DRAW_SCORE
                } else {
                    &&& (forall|t: int| 0 <= t < moves_spec(*old(board)).len() ==> !applies(
                        *old(board),
                        #[trigger] moves_spec(*old(board))[t],
                    )) ==> r == i32::MIN + 1
                    &&& {
                        let i = slot_index(hash_spec(*old(board)), old(self).tt.cap());
                        let before = old(self).tt.slots()[i];
                        if before matches Some(e) && e.depth > depth {
                            final(self).tt.slots()[i] == before
                        } else {
                            final(self).tt.slots()[i] matches Some(e) && e.key == hash_spec(*old(board))
                                && e.depth == depth && e.score == r && (alpha < beta ==> e.bound
                                == bound_for(r, alpha, beta))
                        }
                    }
                },
            },
            final(self).tt.cap() == old(self).tt.cap(),
            table_frame(old(self).tt.slots(), final(self).tt.slots(), depth as int),
            ({
                let v = nm_value(old(self).tt.slots(), old(self).tt.cap(), *old(board), depth as nat, alpha as int, beta as int);
                &&& r == v.0
                &&& final(self).tt.slots() == v.1
                &&& *final(nodes) == add_count(*old(nodes), v.2)
                &&& final(self).tt.hit_count() == add_count(old(self).tt.hit_count(), v.3)
                &&& final(self).tt.store_count() == add_count(old(self).tt.store_count(), v.4)
            }),
        decreases depth,
    {
        let ghost n0 = *nodes;
        let ghost h0 = self.tt.hit_count();
        let ghost s0 = self.tt.store_count();
        proof {
            lemma_count_one(n0);
            lemma_count_one(h0);
            lemma_count_zero(h0);
            lemma_count_zero(s0);
            reveal(nm_value);
        }
        *nodes = nodes.wrapping_add(1);
        let ghost n1 = *nodes;
        let mut alpha = alpha;
        let key = hash(board);

        // Transposition table probe
        let ghost tt0 = self.tt;
        proof {
            tt0.lemma_wf();
            let i = slot_index(key, tt0.cap());
            assert(0 <= i < tt0.cap()) by (nonlinear_arith)
                requires
                    i == (key as usize) as int % (tt0.cap() as int),
                    tt0.cap() > 0;
            assert(tt0.slots()[i] matches Some(e) ==> e.score > i32::MIN);
        }
        match self.tt.probe(key) {
            Some(entry) => {
                if entry.depth >= depth {
                    match entry.bound {
                        Bound::Exact => return entry.score,
                        Bound::LowerBound => {
                            if entry.score >= beta {
                                return entry.score;
                            }
                        },
                        Bound::UpperBound => {
                            if entry.score <= alpha {
                                return entry.score;
                            }
                        },
                    }
                }
            },
            None => {},
        }

        let ghost h1 = self.tt.hit_count();
        proof {
            assert(h1 == add_count(h0, probe_hits(tt0.slots(), tt0.cap(), key)));
        }

        // Leaf node: quiescence search
        if depth == 0 {
            let q = self.quiesce(board, alpha, beta, nodes);
            proof {
                lemma_count_add(n0, 1, qs_value(*board, alpha as int, beta as int).1);
            }
            return q;
        }

        // Generate and order moves
        let moves = generate_moves(board);
        if moves.len() == 0 {
            return DRAW_SCORE;
        }
        proof {
            lemma_moves_facts(*board);
        }
        let ghost b0 = *board;
        let ghost alpha0 = alpha;
        let ghost tt_start = self.tt;
        let ordered = order_moves(moves, board);
        let mut best_score: i32 = i32::MIN + 1;
        let mut best_from: u8 = 0;
        let mut best_to: u8 = 0;
        let mut bound = Bound::UpperBound;
        proof {
            assert(tt_start.slots() == tt0.slots());
            lemma_count_zero(n1);
            lemma_count_zero(h1);
        }

        let mut i: usize = 0;
        while i < ordered.len()
            invariant_except_break
                alpha0 < beta ==> alpha < beta && bound == if best_score > alpha0 {
                    Bound::Exact
                } else {
                    Bound::UpperBound
                },
                ({
                    let st = nm_state(tt_start.slots(), tt0.cap(), b0, depth as nat, alpha0 as int, beta as int, ordered@, i as int);
                    &&& self.tt.slots() == st.0
                    &&& alpha == st.1
                    &&& best_score == st.2
                    &&& best_from == st.3
                    &&& best_to == st.4
                    &&& bound == st.5
                    &&& !st.6
                    &&& *nodes == add_count(n1, st.7)
                    &&& self.tt.hit_count() == add_count(h1, st.8)
                    &&& self.tt.store_count() == add_count(s0, st.9)
                }),
            invariant
                i <= ordered.len(),
                ordered@ == ordered_moves(b0, moves_spec(b0)),
                *board == b0,
                search_ready(b0),
                counters_fit(b0, depth as int),
                depth >= 1,
                moves@ == moves_spec(b0),
                all_facts(b0, moves_spec(b0)),
                forall|t: int| 0 <= t < ordered.len() ==> moves@.contains(#[trigger] ordered[t]),
                tt_ok(self.tt),
                best_score > i32::MIN,
                alpha > i32::MIN,
                beta > i32::MIN,
                alpha0 > i32::MIN,
                (forall|t: int| 0 <= t < moves_spec(b0).len() ==> !applies(b0, #[trigger] moves_spec(b0)[t]))
                    ==> best_score == i32::MIN + 1,
                self.tt.cap() == tt0.cap(),
                table_frame(tt0.slots(), self.tt.slots(), depth - 1),
                alpha == if best_score > alpha0 { best_score } else { alpha0 },
            ensures
                alpha0 < beta ==> bound == bound_for(best_score, alpha0, beta),
                ({
                    let st = nm_state(tt_start.slots(), tt0.cap(), b0, depth as nat, alpha0 as int, beta as int, ordered@, ordered@.len() as int);
                    &&& self.tt.slots() == st.0
                    &&& best_score == st.2
                    &&& best_from == st.3
                    &&& best_to == st.4
                    &&& bound == st.5
                    &&& *nodes == add_count(n1, st.7)
                    &&& self.tt.hit_count() == add_count(h1, st.8)
                    &&& self.tt.store_count() == add_count(s0, st.9)
                }),
            decreases ordered.len() - i,
        {
            let mv = ordered[i];
            proof {
                reveal(nm_value);
                let t = choose|t: int| 0 <= t < moves@.len() && moves@[t] == mv;
                assert(move_facts(b0, moves_spec(b0)[t]));
                lemma_flags(mv.flags.bits);
                lemma_measure_bounds(b0);
            }
            match apply_move(board, mv) {
                Some(new_board) => {
                    let ghost piece = kind_on(b0, b0.side_to_move, mv.from as u64)->0;
                    proof {
                        lemma_child(b0, mv, piece, new_board);
                    }
                    let mut child = new_board;
                    let ghost tt_mid = self.tt;
                    let ghost st = nm_state(tt_start.slots(), tt0.cap(), b0, depth as nat, alpha0 as int, beta as int, ordered@, i as int);
                    proof {
                        lemma_child_of(b0, mv, piece, new_board);
                    }
                    let score = -self.negamax(&mut child, depth - 1, -beta, -alpha, nodes);
                    proof {
                        lemma_frame_trans(tt0.slots(), tt_mid.slots(), self.tt.slots(), depth - 1);
                        let c = nm_value(tt_mid.slots(), tt0.cap(), new_board, (depth - 1) as nat, -(beta as int), -(alpha as int));
                        lemma_count_add(n1, st.7, c.2);
                        lemma_count_add(h1, st.8, c.3);
                        lemma_count_add(s0, st.9, c.4);
                        assert(ordered@[i as int] == mv);
                        assert(applies(b0, mv));
                    }
                    if score > best_score {
                        best_score = score;
                        best_from = mv.from as u8;
                        best_to = mv.to as u8;
                    }
                    if score > alpha {
                        alpha = score;
                        bound = Bound::Exact;
                    }
                    // Beta cutoff: the opponent will never allow this position.
                    if alpha >= beta {
                        bound = Bound::LowerBound;
                        proof {
                            lemma_nm_cut_stays(tt_start.slots(), tt0.cap(), b0, depth as nat, alpha0 as int, beta as int, ordered@, i + 1, ordered@.len() as int);
                        }
                        break;
                    }
                },
                None => {},
            }
            i += 1;
        }

        // Store in transposition table
        let ghost tt1 = self.tt;
        proof {
            tt1.lemma_wf();
        }
        let ghost s1 = self.tt.store_count();
        proof {
            lemma_count_one(s1);
            lemma_count_zero(s1);
        }
        self.tt.store(key, depth, best_score, bound, best_from, best_to);
        proof {
            let st = nm_state(tt_start.slots(), tt0.cap(), b0, depth as nat, alpha0 as int, beta as int, ordered@, ordered@.len() as int);
            lemma_count_add(n0, 1, st.7);
            lemma_count_add(h0, probe_hits(tt0.slots(), tt0.cap(), key), st.8);
            let entry = TTEntry { key, depth, score: best_score, bound, best_from, best_to };
            lemma_count_add(s0, st.9, store_writes(st.0, tt0.cap(), entry));
            self.tt.lemma_wf();
            let i = slot_index(key, tt0.cap());
            assert(0 <= i < tt0.cap()) by (nonlinear_arith)
                requires
                    i == (key as usize) as int % (tt0.cap() as int),
                    tt0.cap() > 0;
            assert(tt1.slots()[i] == tt0.slots()[i] || (tt1.slots()[i] matches Some(e) && e.depth <= depth - 1));
            assert forall|j: int| 0 <= j < tt0.slots().len() implies (#[trigger] self.tt.slots()[j] == tt0.slots()[j]
                || (self.tt.slots()[j] matches Some(e) && e.depth <= depth)) by {
                assert(tt1.slots()[j] == tt0.slots()[j] || (tt1.slots()[j] matches Some(e) && e.depth <= depth - 1));
            }
            assert forall|j: int| 0 <= j < tt0.slots().len() && (#[trigger] tt0.slots()[j] matches Some(e) && e.depth > depth)
                implies self.tt.slots()[j] == tt0.slots()[j] by {
                assert(tt1.slots()[j] == tt0.slots()[j]);
            }
            assert forall|t: int| 0 <= t < self.tt.cap() implies (#[trigger] self.tt.slots()[t] matches Some(e) ==> e.score > i32::MIN) by {
                assert(tt1.slots()[t] matches Some(e) ==> e.score > i32::MIN);
            }
        }
        best_score
    }

    /// Quiescence search: keep searching captures until a quiet position is
    /// reached. Fails hard: the result is `beta`, or lies in `alpha..beta` and
    /// is at least the static evaluation. A static evaluation of at least
    /// `beta` gives `beta` at once; where no capture can be played, the
    /// result is the static evaluation held to the window. The result is the
    /// quiescence value, and the node counter grows by the positions it
    /// visits.
    fn quiesce(&mut self, board: &mut Board, alpha: i32, beta: i32, nodes: &mut u64) -> (r: i32)
        requires
            search_ready(*old(board)),
            counters_fit(*old(board), 0),
            alpha > i32::MIN,
            beta > i32::MIN,
        ensures
            *final(self) == *old(self),
            *final(board) == *old(board),
            r > i32::MIN,
            r == beta || {
                &&& r >= alpha
                &&& r >= stand_score(*old(board))
                &&& alpha < beta ==> r < beta
            },
            stand_score(*old(board)) >= beta ==> r == beta,
            no_noisy_move(*old(board)) ==> r == held_to_window(stand_score(*old(board)), alpha as int, beta as int),
            alpha <= beta ==> r <= beta,
            r == qs_value(*old(board), alpha as int, beta as int).0,
            *final(nodes) == add_count(*old(nodes), qs_value(*old(board), alpha as int, beta as int).1),
        decreases measure(*old(board)),
    {
        let ghost n0 = *nodes;
        proof {
            lemma_count_one(n0);
            reveal(qs_value);
        }
        *nodes = nodes.wrapping_add(1);
        let ghost n1 = *nodes;
        let mut a = alpha;
        let alpha0 = a;

        let stand_pat = evaluate_from_side(board);
        if stand_pat >= beta {
            return beta;
        }
        if stand_pat > a {
            a = stand_pat;
        }

        let moves = generate_moves(board);
        proof {
            lemma_moves_facts(*board);
        }
        let ghost b0 = *board;
        let mut captures: Vec<Move> = Vec::new();
        let mut j: usize = 0;
        while j < moves.len()
            invariant
                j <= moves.len(),
                moves@ == moves_spec(b0),
                all_facts(b0, moves_spec(b0)),
                forall|t: int| 0 <= t < captures.len() ==> move_facts(b0, #[trigger] captures[t])
                    && is_noisy(captures[t]) && moves_spec(b0).contains(captures[t]),
                captures@ == noisy_of(moves@.take(j as int)),
            decreases moves.len() - j,
        {
            let m = moves[j];
            proof {
                assert(moves@.take(j as int + 1).drop_last() =~= moves@.take(j as int));
                assert(moves@.take(j as int + 1).last() == m);
            }
            if m.flags.contains(MoveFlags { bits: CAPTURE }) || m.flags.contains(MoveFlags { bits: EN_PASSANT }) {
                proof {
                    assert(move_facts(b0, moves_spec(b0)[j as int]));
                    assert(moves_spec(b0)[j as int] == m);
                }
                captures.push(m);
            }
            j += 1;
        }
        let ghost alpha_start = a;
        let ghost mut played = false;
        proof {
            assert(moves@.take(moves@.len() as int) =~= moves@);
        }

        let mut i: usize = 0;
        while i < captures.len()
            invariant
                *board == b0,
                *self == *old(self),
                search_ready(b0),
                counters_fit(b0, 0),
                forall|t: int| 0 <= t < captures.len() ==> move_facts(b0, #[trigger] captures[t])
                    && is_noisy(captures[t]) && moves_spec(b0).contains(captures[t]),
                a > i32::MIN,
                beta > i32::MIN,
                stand_pat < beta,
                i <= captures@.len(),
                captures@ == noisy_of(moves_spec(b0)),
                n0 == *old(nodes),
                alpha0 == alpha,
                alpha0 <= beta ==> a <= beta,
                n1 == add_count(n0, 1),
                ({
                    let st = qs_state(b0, alpha_start as int, beta as int, captures@, i as int);
                    &&& a == st.0
                    &&& !st.1
                    &&& *nodes == add_count(n1, st.2)
                }),
                alpha_start == held_to_window(stand_pat as int, alpha0 as int, beta as int),
                !played ==> a == alpha_start,
                !played <==> forall|t: int| 0 <= t < i ==> !applies(b0, #[trigger] captures[t]),
                a >= alpha0,
                a >= stand_pat,
                alpha0 < beta ==> a < beta,
                stand_pat == if b0.side_to_move == Color::White { eval_spec(b0) } else { -eval_spec(b0) },
            decreases captures.len() - i,
        {
            let mv = captures[i];
            proof {
                reveal(qs_value);
                assert(move_facts(b0, captures[i as int]));
                lemma_flags(mv.flags.bits);
                lemma_measure_bounds(b0);
            }
            match apply_move(board, mv) {
                Some(new_board) => {
                    let ghost piece = kind_on(b0, b0.side_to_move, mv.from as u64)->0;
                    proof {
                        lemma_child(b0, mv, piece, new_board);
                    }
                    let mut child = new_board;
                    let ghost st = qs_state(b0, alpha_start as int, beta as int, captures@, i as int);
                    let ghost nb = *nodes;
                    proof {
                        lemma_child_of(b0, mv, piece, new_board);
                        lemma_measure_bounds(new_board);
                    }
                    let score = -self.quiesce(&mut child, -beta, -a, nodes);
                    proof {
                        let c = qs_value(new_board, -(beta as int), -(a as int));
                        lemma_count_add(n1, st.2, c.1);
                        assert(qs_state(b0, alpha_start as int, beta as int, captures@, i as int + 1) == if score >= beta {
                            (st.0, true, st.2 + c.1)
                        } else {
                            (if score > st.0 { score as int } else { st.0 }, false, st.2 + c.1)
                        });
                        played = true;
                        assert(applies(b0, captures@[i as int]));
                        assert(!(forall|t: int| 0 <= t < i + 1 ==> !applies(b0, #[trigger] captures@[t])));
                    }
                    if score >= beta {
                        proof {
                            lemma_noisy_played(b0, captures@, i + 1);
                            lemma_qs_cut_stays(b0, alpha_start as int, beta as int, captures@, i + 1, captures@.len() as int);
                            lemma_count_add(n0, 1, qs_state(b0, alpha_start as int, beta as int, captures@, i + 1).2);
                        }
                        return beta;
                    }
                    if score > a {
                        a = score;
                    }
                },
                None => {},
            }
            i += 1;
        }
        proof {
            if played {
                assert(!(forall|t: int| 0 <= t < captures@.len() ==> !applies(b0, #[trigger] captures@[t])));
                lemma_noisy_played(b0, captures@, captures@.len() as int);
            }
            lemma_count_add(n0, 1, qs_state(b0, alpha_start as int, beta as int, captures@, captures@.len() as int).2);
        }
        a
    }
}

} // verus!
