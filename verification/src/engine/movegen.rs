//! Pseudo-legal move generation using bitboard attack maps.
//!
//! Sliding-piece attacks follow each ray up to and including the first
//! occupied square.

use vstd::prelude::*;
use super::bitboard::{
    Bitboard, Board, Color, Piece, bit_set, lowest, squares, pieces_of, color_set, occupied_set,
    sq_bb, lsb, pop_lsb, lemma_squares, lemma_without_lowest, lemma_bit_ops, lemma_single, lemma_empty, lemma_shl,
    lemma_shr, lemma_edge_masks, lemma_bit_nonzero, FILE_A, FILE_H,
};

verus! {

/// Flag bits of a move (a union of the bit constants below).
#[derive(Clone, Copy, Debug, PartialEq, Eq, Structural)]
pub struct MoveFlags {
    pub bits: u8,
}

pub const QUIET: u8 = 0b0000_0000;
pub const CAPTURE: u8 = 0b0000_0001;
pub const EN_PASSANT: u8 = 0b0000_0010;
pub const PROMOTION: u8 = 0b0000_0100;
pub const CASTLE_K: u8 = 0b0000_1000;
pub const CASTLE_Q: u8 = 0b0001_0000;
pub const DOUBLE_PUSH: u8 = 0b0010_0000;

impl MoveFlags {
    pub open spec fn has(self, other: MoveFlags) -> bool {
        self.bits & other.bits == other.bits
    }

    pub open spec fn with(self, other: MoveFlags) -> MoveFlags {
        MoveFlags { bits: self.bits | other.bits }
    }

    /// All flags of `other` are set in `self`.
    pub fn contains(self, other: MoveFlags) -> (r: bool)
        ensures
            r == self.has(other),
    {
        self.bits & other.bits == other.bits
    }

    /// The flags of both.
    pub fn union(self, other: MoveFlags) -> (r: MoveFlags)
        ensures
            r == self.with(other),
    {
        MoveFlags { bits: self.bits | other.bits }
    }
}

#[derive(Clone, Copy, Debug, PartialEq, Eq, Structural)]
pub struct Move {
    pub from: u32,
    pub to: u32,
    pub flags: MoveFlags,
}

// ── Attack maps: specifications ───────────────────────────────────────────────

pub open spec fn knight_step(s: u64, t: u64) -> bool {
    let sf = s % 8;
    let sr = s / 8;
    let tf = t % 8;
    let tr = t / 8;
    ((tf == sf + 1 || sf == tf + 1) && (tr == sr + 2 || sr == tr + 2)) || ((tf == sf + 2 || sf
        == tf + 2) && (tr == sr + 1 || sr == tr + 1))
}

pub open spec fn king_step(s: u64, t: u64) -> bool {
    let sf = s % 8;
    let sr = s / 8;
    let tf = t % 8;
    let tr = t / 8;
    t != s && (tf == sf || tf == sf + 1 || sf == tf + 1) && (tr == sr || tr == sr + 1 || sr == tr
        + 1)
}

/// The knight-move squares from `s`.
pub open spec fn knight_set(s: u64) -> u64 {
    let bb = 1u64 << s;
    let h1 = ((bb >> 1u64) & !FILE_H) | ((bb << 1u64) & !FILE_A);
    let h2 = ((bb >> 2u64) & !(FILE_G | FILE_H)) | ((bb << 2u64) & !(FILE_A | FILE_B));
    (h1 << 16u64) | (h1 >> 16u64) | (h2 << 8u64) | (h2 >> 8u64)
}

/// The king-move squares from `s`.
pub open spec fn king_set(s: u64) -> u64 {
    let bb = 1u64 << s;
    let lr = ((bb >> 1u64) & !FILE_H) | ((bb << 1u64) & !FILE_A);
    let ring = bb | lr;
    (ring << 8u64) | (ring >> 8u64) | lr
}

/// The squares a rook on `s` reaches: along each rank and file direction,
/// every square up to and including the first occupied one.
pub open spec fn rook_set(s: u64, occ: u64) -> u64 {
    crate::chess::rules::rook_bits(s as int, occ)
}

/// The squares a bishop on `s` reaches: along each diagonal direction,
/// every square up to and including the first occupied one.
pub open spec fn bishop_set(s: u64, occ: u64) -> u64 {
    crate::chess::rules::bishop_bits(s as int, occ)
}

// ── Attack maps ───────────────────────────────────────────────────────────────

pub const FILE_G: Bitboard = 0x4040_4040_4040_4040;
pub const FILE_B: Bitboard = 0x0202_0202_0202_0202;

/// Squares a knight on `sq` attacks.
pub fn knight_attacks(sq: u32) -> (r: Bitboard)
    requires
        sq < 64,
    ensures
        r == knight_set(sq as u64),
        forall|t: u64| t < 64 ==> (#[trigger] bit_set(r, t) <==> knight_step(sq as u64, t)),
{
    let bb = sq_bb(sq);
    let l1 = (bb >> 1u64) & !FILE_H;
    let r1 = (bb << 1u64) & !FILE_A;
    let h1 = l1 | r1;
    let l2 = (bb >> 2u64) & !(FILE_G | FILE_H);
    let r2 = (bb << 2u64) & !(FILE_A | FILE_B);
    let h2 = l2 | r2;
    let res = (h1 << 16u64) | (h1 >> 16u64) | (h2 << 8u64) | (h2 >> 8u64);
    let s = sq as u64;
    assert forall|t: u64| t < 64 implies (#[trigger] bit_set(res, t) <==> knight_step(s, t)) by {
        assert((res >> t) & 1 == 1 <==> (((t % 8 == s % 8 + 1 || s % 8 == t % 8 + 1) && (t / 8 == s
            / 8 + 2 || s / 8 == t / 8 + 2)) || ((t % 8 == s % 8 + 2 || s % 8 == t % 8 + 2) && (t
            / 8 == s / 8 + 1 || s / 8 == t / 8 + 1)))) by (bit_vector)
            requires
                s < 64,
                t < 64,
                bb == 1u64 << s,
                l1 == (bb >> 1u64) & !0x8080_8080_8080_8080u64,
                r1 == (bb << 1u64) & !0x0101_0101_0101_0101u64,
                h1 == l1 | r1,
                l2 == (bb >> 2u64) & !(0x4040_4040_4040_4040u64 | 0x8080_8080_8080_8080u64),
                r2 == (bb << 2u64) & !(0x0101_0101_0101_0101u64 | 0x0202_0202_0202_0202u64),
                h2 == l2 | r2,
                res == (h1 << 16u64) | (h1 >> 16u64) | (h2 << 8u64) | (h2 >> 8u64),
        ;
    }
    res
}

/// Squares a king on `sq` attacks.
pub fn king_attacks(sq: u32) -> (r: Bitboard)
    requires
        sq < 64,
    ensures
        r == king_set(sq as u64),
        forall|t: u64| t < 64 ==> (#[trigger] bit_set(r, t) <==> king_step(sq as u64, t)),
{
    let bb = sq_bb(sq);
    let lr = ((bb >> 1u64) & !FILE_H) | ((bb << 1u64) & !FILE_A);
    let ring = bb | lr;
    let res = (ring << 8u64) | (ring >> 8u64) | lr;
    let s = sq as u64;
    assert forall|t: u64| t < 64 implies (#[trigger] bit_set(res, t) <==> king_step(s, t)) by {
        assert((res >> t) & 1 == 1 <==> (t != s && (t % 8 == s % 8 || t % 8 == s % 8 + 1 || s % 8
            == t % 8 + 1) && (t / 8 == s / 8 || t / 8 == s / 8 + 1 || s / 8 == t / 8 + 1)))
            by (bit_vector)
            requires
                s < 64,
                t < 64,
                bb == 1u64 << s,
                lr == ((bb >> 1u64) & !0x8080_8080_8080_8080u64) | ((bb << 1u64)
                    & !0x0101_0101_0101_0101u64),
                ring == bb | lr,
                res == (ring << 8u64) | (ring >> 8u64) | lr,
        ;
    }
    res
}

pub fn rook_attacks(sq: u32, occ: Bitboard) -> (r: Bitboard)
    requires
        sq < 64,
    ensures
        r == rook_set(sq as u64, occ),
        forall|t: u64| t < 64 ==> (#[trigger] bit_set(r, t) <==> crate::chess::rules::rook_hits(sq as int, occ, t as int)),
{
    let r = crate::chess::logic::rook_attacks(sq as usize, occ);
    proof {
        assert forall|t: u64| t < 64 implies (#[trigger] bit_set(r, t) <==> crate::chess::rules::rook_hits(sq as int, occ, t as int)) by {
            crate::chess::board::lemma_bits_where(|x: int| crate::chess::rules::rook_hits(sq as int, occ, x), 64, t);
        }
    }
    r
}

pub fn bishop_attacks(sq: u32, occ: Bitboard) -> (r: Bitboard)
    requires
        sq < 64,
    ensures
        r == bishop_set(sq as u64, occ),
        forall|t: u64| t < 64 ==> (#[trigger] bit_set(r, t) <==> crate::chess::rules::bishop_hits(sq as int, occ, t as int)),
{
    let r = crate::chess::logic::bishop_attacks(sq as usize, occ);
    proof {
        assert forall|t: u64| t < 64 implies (#[trigger] bit_set(r, t) <==> crate::chess::rules::bishop_hits(sq as int, occ, t as int)) by {
            crate::chess::board::lemma_bits_where(|x: int| crate::chess::rules::bishop_hits(sq as int, occ, x), 64, t);
        }
    }
    r
}

// ── Move lists: specifications ────────────────────────────────────────────────

pub open spec fn flags_of(bits: u8) -> MoveFlags {
    MoveFlags { bits }
}

/// A capture when the opponent occupies `to`, else a quiet move.
pub open spec fn capture_flag(their: u64, to: u32) -> MoveFlags {
    if bit_set(their, to as u64) {
        flags_of(CAPTURE)
    } else {
        flags_of(QUIET)
    }
}

/// Moves from `from` to each square of `targets`, in increasing order.
pub open spec fn target_moves(from: u32, targets: u64, their: u64) -> Seq<Move> {
    squares(targets).map_values(|to: u32| Move { from, to, flags: capture_flag(their, to) })
}

pub open spec fn promoted(flags: MoveFlags, promote: bool) -> MoveFlags {
    if promote {
        flags.with(flags_of(PROMOTION))
    } else {
        flags
    }
}

/// White pawn moves onto each square of `targets`, from `offset` squares below.
pub open spec fn pawn_moves_up(targets: u64, offset: u32, flags: MoveFlags) -> Seq<Move> {
    squares(targets).map_values(
        |to: u32| Move { from: (to - offset) as u32, to, flags: promoted(flags, to >= 56) },
    )
}

/// Black pawn moves onto each square of `targets`, from `offset` squares above.
pub open spec fn pawn_moves_down(targets: u64, offset: u32, flags: MoveFlags) -> Seq<Move> {
    squares(targets).map_values(
        |to: u32| Move { from: (to + offset) as u32, to, flags: promoted(flags, to < 8) },
    )
}

pub const RANK_3: Bitboard = 0x0000_0000_00FF_0000;
pub const RANK_6: Bitboard = 0x0000_FF00_0000_0000;

/// The en passant square as a bitboard.
pub open spec fn ep_board(b: Board) -> u64 {
    match b.en_passant {
        Some(e) => 1u64 << e as u64,
        None => 0,
    }
}

/// One en passant capture onto `e` from `from`, when `hit` holds.
pub open spec fn ep_move(hit: bool, from: u32, e: u32) -> Seq<Move> {
    if hit {
        seq![Move { from, to: e, flags: flags_of(EN_PASSANT) }]
    } else {
        Seq::empty()
    }
}

/// Pawn pushes, double pushes, captures and en passant captures of `us`.
pub open spec fn pawn_moves_spec(b: Board, us: Color, occ: u64, their: u64) -> Seq<Move> {
    let pawns = pieces_of(b, us, Piece::Pawn);
    let ep_bb = ep_board(b);
    let e = lowest(ep_bb) as u32;
    match us {
        Color::White => {
            let push1 = (pawns << 8u64) & !occ;
            let push2 = ((push1 & RANK_3) << 8u64) & !occ;
            let cap_l = ((pawns & !FILE_A) << 7u64) & their;
            let cap_r = ((pawns & !FILE_H) << 9u64) & their;
            pawn_moves_up(push1, 8, flags_of(QUIET)) + pawn_moves_up(push2, 16, flags_of(DOUBLE_PUSH))
                + pawn_moves_up(cap_l, 7, flags_of(CAPTURE)) + pawn_moves_up(
                cap_r,
                9,
                flags_of(CAPTURE),
            ) + ep_move(ep_bb != 0 && ((pawns & !FILE_A) << 7u64) & ep_bb != 0, (e - 7) as u32, e)
                + ep_move(ep_bb != 0 && ((pawns & !FILE_H) << 9u64) & ep_bb != 0, (e - 9) as u32, e)
        },
        Color::Black => {
            let push1 = (pawns >> 8u64) & !occ;
            let push2 = ((push1 & RANK_6) >> 8u64) & !occ;
            let cap_l = ((pawns & !FILE_H) >> 7u64) & their;
            let cap_r = ((pawns & !FILE_A) >> 9u64) & their;
            pawn_moves_down(push1, 8, flags_of(QUIET)) + pawn_moves_down(
                push2,
                16,
                flags_of(DOUBLE_PUSH),
            ) + pawn_moves_down(cap_l, 7, flags_of(CAPTURE)) + pawn_moves_down(
                cap_r,
                9,
                flags_of(CAPTURE),
            ) + ep_move(ep_bb != 0 && ((pawns & !FILE_H) >> 7u64) & ep_bb != 0, (e + 7) as u32, e)
                + ep_move(ep_bb != 0 && ((pawns & !FILE_A) >> 9u64) & ep_bb != 0, (e + 9) as u32, e)
        },
    }
}

/// The squares a piece of kind `kind` on `s` attacks.
pub open spec fn attack_set(kind: Piece, s: u64, occ: u64) -> u64 {
    match kind {
        Piece::Knight => knight_set(s),
        Piece::Bishop => bishop_set(s, occ),
        Piece::Rook => rook_set(s, occ),
        Piece::Queen => bishop_set(s, occ) | rook_set(s, occ),
        Piece::King => king_set(s),
        Piece::Pawn => 0,
    }
}

/// The moves of pieces of kind `kind` standing on `sqs`, in that order.
pub open spec fn piece_moves(kind: Piece, sqs: Seq<u32>, occ: u64, ours: u64, theirs: u64) -> Seq<
    Move,
>
    decreases sqs.len(),
{
    if sqs.len() == 0 {
        Seq::empty()
    } else {
        target_moves(sqs[0], attack_set(kind, sqs[0] as u64, occ) & !ours, theirs) + piece_moves(
            kind,
            sqs.drop_first(),
            occ,
            ours,
            theirs,
        )
    }
}

pub open spec fn castle_move(ok: bool, from: u32, to: u32, flag: u8) -> Seq<Move> {
    if ok {
        seq![Move { from, to, flags: flags_of(flag) }]
    } else {
        Seq::empty()
    }
}

/// Castling moves whose right is held and whose squares between are empty.
pub open spec fn castling_spec(b: Board, us: Color, occ: u64) -> Seq<Move> {
    let cr = b.castling_rights;
    match us {
        Color::White => castle_move(cr & 1 != 0 && occ & 0x60 == 0, 4, 6, CASTLE_K) + castle_move(
            cr & 2 != 0 && occ & 0x0E == 0,
            4,
            2,
            CASTLE_Q,
        ),
        Color::Black => castle_move(
            cr & 4 != 0 && occ & 0x6000_0000_0000_0000 == 0,
            60,
            62,
            CASTLE_K,
        ) + castle_move(cr & 8 != 0 && occ & 0x0E00_0000_0000_0000 == 0, 60, 58, CASTLE_Q),
    }
}

/// The king moves of `us` (from its lowest-indexed king, if any).
pub open spec fn king_moves_spec(b: Board, us: Color, ours: u64, theirs: u64) -> Seq<Move> {
    let kings = pieces_of(b, us, Piece::King);
    if kings == 0 {
        Seq::empty()
    } else {
        target_moves(lowest(kings) as u32, king_set(lowest(kings)) & !ours, theirs)
    }
}

/// The pseudo-legal moves of the side to move, in generation order: pawns,
/// knights, bishops, rooks, queens, king, castling.
#[verifier::opaque]
pub open spec fn moves_spec(b: Board) -> Seq<Move> {
    let us = b.side_to_move;
    let them = us.flipped();
    let occ = occupied_set(b);
    let ours = color_set(b, us);
    let theirs = color_set(b, them);
    pawn_moves_spec(b, us, occ, theirs) + piece_moves(
        Piece::Knight,
        squares(pieces_of(b, us, Piece::Knight)),
        occ,
        ours,
        theirs,
    ) + piece_moves(Piece::Bishop, squares(pieces_of(b, us, Piece::Bishop)), occ, ours, theirs)
        + piece_moves(Piece::Rook, squares(pieces_of(b, us, Piece::Rook)), occ, ours, theirs)
        + piece_moves(Piece::Queen, squares(pieces_of(b, us, Piece::Queen)), occ, ours, theirs)
        + king_moves_spec(b, us, ours, theirs) + castling_spec(b, us, occ)
}

/// The en passant square, where there is one, is on the board.
pub open spec fn ep_on_board(b: Board) -> bool {
    b.en_passant matches Some(e) ==> e < 64
}

// ── Move generation ───────────────────────────────────────────────────────────

/// Generate all pseudo-legal moves for the side to move.
/// Caller is responsible for legality filtering (king in check after move).
pub fn generate_moves(board: &Board) -> (moves: Vec<Move>)
    requires
        ep_on_board(*board),
    ensures
        moves@ == moves_spec(*board),
{
    let mut moves = Vec::with_capacity(64);
    let us = board.side_to_move;
    let them = us.flip();
    let occ = board.occupied();
    let our_pieces = board.color_bb(us);
    let their_pieces = board.color_bb(them);

    // Pawns
    pawn_moves(board, us, occ, their_pieces, &mut moves);

    // Knights, bishops, rooks, queens
    push_piece_moves(Piece::Knight, board.piece_bb(us, Piece::Knight), occ, our_pieces, their_pieces, &mut moves);
    push_piece_moves(Piece::Bishop, board.piece_bb(us, Piece::Bishop), occ, our_pieces, their_pieces, &mut moves);
    push_piece_moves(Piece::Rook, board.piece_bb(us, Piece::Rook), occ, our_pieces, their_pieces, &mut moves);
    push_piece_moves(Piece::Queen, board.piece_bb(us, Piece::Queen), occ, our_pieces, their_pieces, &mut moves);

    // King
    let kings = board.piece_bb(us, Piece::King);
    if kings != 0 {
        let king_sq = lsb(kings);
        let king_attacks = king_attacks(king_sq) & !our_pieces;
        push_quiet_and_captures(king_sq, king_attacks, their_pieces, &mut moves);
    }
    // Castling
    castling_moves(board, us, occ, &mut moves);
    proof {
        reveal(moves_spec);
        assert(moves@ =~= moves_spec(*board));
    }
    moves
}

/// The attack set of one piece.
fn attacks_of(kind: Piece, sq: u32, occ: Bitboard) -> (r: Bitboard)
    requires
        sq < 64,
    ensures
        r == attack_set(kind, sq as u64, occ),
{
    match kind {
        Piece::Knight => knight_attacks(sq),
        Piece::Bishop => bishop_attacks(sq, occ),
        Piece::Rook => rook_attacks(sq, occ),
        Piece::Queen => bishop_attacks(sq, occ) | rook_attacks(sq, occ),
        Piece::King => king_attacks(sq),
        Piece::Pawn => 0,
    }
}

/// Appends the moves of every piece of kind `kind` on `pieces`.
fn push_piece_moves(
    kind: Piece,
    pieces: Bitboard,
    occ: Bitboard,
    our_pieces: Bitboard,
    their_pieces: Bitboard,
    moves: &mut Vec<Move>,
)
    ensures
        final(moves)@ == old(moves)@ + piece_moves(kind, squares(pieces), occ, our_pieces, their_pieces),
{
    let mut bb = pieces;
    while bb != 0
        invariant
            moves@ + piece_moves(kind, squares(bb), occ, our_pieces, their_pieces) == old(moves)@
                + piece_moves(kind, squares(pieces), occ, our_pieces, their_pieces),
        decreases bb,
    {
        let ghost before = moves@;
        let ghost bb0 = bb;
        let sq = pop_lsb(&mut bb);
        let attacks = attacks_of(kind, sq, occ) & !our_pieces;
        push_quiet_and_captures(sq, attacks, their_pieces, moves);
        proof {
            let s = squares(bb0);
            assert(s[0] == sq);
            assert(s.drop_first() =~= squares(bb));
            assert(piece_moves(kind, s, occ, our_pieces, their_pieces) == target_moves(
                sq,
                attacks,
                their_pieces,
            ) + piece_moves(kind, squares(bb), occ, our_pieces, their_pieces));
            assert(moves@ + piece_moves(kind, squares(bb), occ, our_pieces, their_pieces) =~= before
                + piece_moves(kind, s, occ, our_pieces, their_pieces));
        }
    }
    proof {
        assert(squares(0) =~= Seq::<u32>::empty());
        assert(moves@ =~= moves@ + piece_moves(kind, squares(bb), occ, our_pieces, their_pieces));
    }
}

// ── Pawn moves ────────────────────────────────────────────────────────────────

fn pawn_moves(board: &Board, us: Color, occ: Bitboard, their_pieces: Bitboard, moves: &mut Vec<Move>)
    requires
        ep_on_board(*board),
    ensures
        final(moves)@ == old(moves)@ + pawn_moves_spec(*board, us, occ, their_pieces),
{
    let pawns = board.piece_bb(us, Piece::Pawn);
    let ep_bb = match board.en_passant {
        Some(e) => sq_bb(e),
        None => 0,
    };
    let ghost m0 = moves@;
    match us {
        Color::White => {
            // Single push
            let push1 = (pawns << 8u64) & !occ;
            // Double push from rank 2
            let push2 = ((push1 & RANK_3) << 8u64) & !occ;
            // Captures
            let cap_l = ((pawns & !FILE_A) << 7u64) & their_pieces;
            let cap_r = ((pawns & !FILE_H) << 9u64) & their_pieces;
            proof {
                assert forall|i: u64| bit_set(push1, i) implies i >= 8 by {
                    lemma_bit_ops(pawns << 8u64, !occ, i);
                    lemma_shl(pawns, 8, i);
                }
                assert forall|i: u64| bit_set(push2, i) implies i >= 16 by {
                    lemma_bit_ops((push1 & RANK_3) << 8u64, !occ, i);
                    lemma_shl(push1 & RANK_3, 8, i);
                    if i >= 8 {
                        lemma_bit_ops(push1, RANK_3, (i - 8) as u64);
                        lemma_rank_3_6((i - 8) as u64);
                    }
                }
                assert forall|i: u64| bit_set(cap_l, i) implies i >= 7 by {
                    lemma_bit_ops((pawns & !FILE_A) << 7u64, their_pieces, i);
                    lemma_shl(pawns & !FILE_A, 7, i);
                }
                assert forall|i: u64| bit_set(cap_r, i) implies i >= 9 by {
                    lemma_bit_ops((pawns & !FILE_H) << 9u64, their_pieces, i);
                    lemma_shl(pawns & !FILE_H, 9, i);
                }
            }
            emit_pawn_moves(push1, 8, MoveFlags { bits: QUIET }, moves);
            emit_pawn_moves(push2, 16, MoveFlags { bits: DOUBLE_PUSH }, moves);
            emit_pawn_moves(cap_l, 7, MoveFlags { bits: CAPTURE }, moves);
            emit_pawn_moves(cap_r, 9, MoveFlags { bits: CAPTURE }, moves);
            let ghost m1 = moves@;
            let ghost e = lowest(ep_bb) as u32;
            // En passant
            if ep_bb != 0 {
                let e = lsb(ep_bb);
                proof {
                    lemma_ep_square(ep_bb, board.en_passant);
                    lemma_bit_ops((pawns & !FILE_A) << 7u64, ep_bb, e as u64);
                    lemma_bit_ops((pawns & !FILE_H) << 9u64, ep_bb, e as u64);
                    lemma_bit_nonzero(((pawns & !FILE_A) << 7u64) & ep_bb, e as u64);
                    lemma_bit_nonzero(((pawns & !FILE_H) << 9u64) & ep_bb, e as u64);
                    lemma_only_square((pawns & !FILE_A) << 7u64, ep_bb, e as u64);
                    lemma_only_square((pawns & !FILE_H) << 9u64, ep_bb, e as u64);
                    lemma_shl(pawns & !FILE_A, 7, e as u64);
                    lemma_shl(pawns & !FILE_H, 9, e as u64);
                }
                if ((pawns & !FILE_A) << 7u64) & ep_bb != 0 {
                    moves.push(Move { from: e - 7, to: e, flags: MoveFlags { bits: EN_PASSANT } });
                }
                if ((pawns & !FILE_H) << 9u64) & ep_bb != 0 {
                    moves.push(Move { from: e - 9, to: e, flags: MoveFlags { bits: EN_PASSANT } });
                }
            }
            proof {
                assert(moves@ =~= m0 + pawn_moves_spec(*board, us, occ, their_pieces));
            }
        },
        Color::Black => {
            let push1 = (pawns >> 8u64) & !occ;
            let push2 = ((push1 & RANK_6) >> 8u64) & !occ;
            let cap_l = ((pawns & !FILE_H) >> 7u64) & their_pieces;
            let cap_r = ((pawns & !FILE_A) >> 9u64) & their_pieces;
            proof {
                assert forall|i: u64| bit_set(push1, i) implies i + 8 < 64 by {
                    lemma_bit_ops(pawns >> 8u64, !occ, i);
                    lemma_shr(pawns, 8, i);
                }
                assert forall|i: u64| bit_set(push2, i) implies i + 16 < 64 by {
                    lemma_bit_ops((push1 & RANK_6) >> 8u64, !occ, i);
                    lemma_shr(push1 & RANK_6, 8, i);
                    if i + 8 < 64 {
                        lemma_bit_ops(push1, RANK_6, (i + 8) as u64);
                        lemma_rank_3_6((i + 8) as u64);
                    }
                }
                assert forall|i: u64| bit_set(cap_l, i) implies i + 7 < 64 by {
                    lemma_bit_ops((pawns & !FILE_H) >> 7u64, their_pieces, i);
                    lemma_shr(pawns & !FILE_H, 7, i);
                }
                assert forall|i: u64| bit_set(cap_r, i) implies i + 9 < 64 by {
                    lemma_bit_ops((pawns & !FILE_A) >> 9u64, their_pieces, i);
                    lemma_shr(pawns & !FILE_A, 9, i);
                }
            }
            emit_pawn_moves_back(push1, 8, MoveFlags { bits: QUIET }, moves);
            emit_pawn_moves_back(push2, 16, MoveFlags { bits: DOUBLE_PUSH }, moves);
            emit_pawn_moves_back(cap_l, 7, MoveFlags { bits: CAPTURE }, moves);
            emit_pawn_moves_back(cap_r, 9, MoveFlags { bits: CAPTURE }, moves);
            if ep_bb != 0 {
                let e = lsb(ep_bb);
                proof {
                    lemma_ep_square(ep_bb, board.en_passant);
                }
                if ((pawns & !FILE_H) >> 7u64) & ep_bb != 0 {
                    moves.push(Move { from: e + 7, to: e, flags: MoveFlags { bits: EN_PASSANT } });
                }
                if ((pawns & !FILE_A) >> 9u64) & ep_bb != 0 {
                    moves.push(Move { from: e + 9, to: e, flags: MoveFlags { bits: EN_PASSANT } });
                }
            }
            proof {
                assert(moves@ =~= m0 + pawn_moves_spec(*board, us, occ, their_pieces));
            }
        },
    }
}

/// Rank 3 and rank 6.
proof fn lemma_rank_3_6(i: u64)
    requires
        i < 64,
    ensures
        bit_set(RANK_3, i) <==> i / 8 == 2,
        bit_set(RANK_6, i) <==> i / 8 == 5,
{
    assert(((0x0000_0000_00FF_0000u64 >> i) & 1 == 1 <==> i / 8 == 2) && ((0x0000_FF00_0000_0000u64
        >> i) & 1 == 1 <==> i / 8 == 5)) by (bit_vector)
        requires
            i < 64,
    ;
}

/// The en passant bitboard holds exactly the en passant square.
proof fn lemma_ep_square(ep_bb: u64, ep: Option<u32>)
    requires
        ep matches Some(e) ==> e < 64 && ep_bb == 1u64 << e as u64,
        ep is None ==> ep_bb == 0,
        ep_bb != 0,
    ensures
        ep matches Some(e) && lowest(ep_bb) == e,
        forall|i: u64| bit_set(ep_bb, i) <==> i == lowest(ep_bb),
{
    let e = ep->0;
    assert forall|i: u64| i < 64 implies (bit_set(ep_bb, i) <==> i == e) by {
        lemma_single(e as u64, i);
    }
    crate::engine::bitboard::lemma_without_lowest(ep_bb);
}

/// A board meets a single-square board exactly when it holds that square.
proof fn lemma_only_square(y: u64, single: u64, e: u64)
    requires
        e < 64,
        forall|i: u64| bit_set(single, i) <==> i == e,
    ensures
        (y & single) != 0 <==> bit_set(y, e),
{
    assert forall|i: u64| i < 64 implies (bit_set(y & single, i) <==> (bit_set(y, i) && i == e)) by {
        lemma_bit_ops(y, single, i);
    }
    lemma_empty(y & single);
    lemma_bit_nonzero(y & single, e);
    if (y & single) != 0 && !bit_set(y, e) {
        assert(!(forall|i: u64| i < 64 ==> !bit_set(y & single, i)));
        let i = choose|i: u64| !(i < 64 ==> !bit_set(y & single, i));
        lemma_bit_ops(y, single, i);
        assert(false);
    }
}

fn emit_pawn_moves(targets: Bitboard, offset: u32, flags: MoveFlags, moves: &mut Vec<Move>)
    requires
        forall|i: u64| bit_set(targets, i) ==> i >= offset,
    ensures
        final(moves)@ == old(moves)@ + pawn_moves_up(targets, offset, flags),
{
    let mut targets = targets;
    let ghost t0 = targets;
    while targets != 0
        invariant
            forall|i: u64| bit_set(targets, i) ==> i >= offset,
            moves@ + pawn_moves_up(targets, offset, flags) == old(moves)@ + pawn_moves_up(
                t0,
                offset,
                flags,
            ),
        decreases targets,
    {
        let ghost tb = targets;
        let ghost before = moves@;
        let to = pop_lsb(&mut targets);
        let from = to - offset;
        let f = if to >= 56 {
            flags.union(MoveFlags { bits: PROMOTION })
        } else {
            flags
        };
        moves.push(Move { from, to, flags: f });
        proof {
            assert(squares(tb).drop_first() =~= squares(targets));
            assert(pawn_moves_up(tb, offset, flags) =~= seq![Move { from, to, flags: f }]
                + pawn_moves_up(targets, offset, flags));
            assert(moves@ + pawn_moves_up(targets, offset, flags) =~= before + pawn_moves_up(
                tb,
                offset,
                flags,
            ));
        }
    }
    proof {
        assert(squares(0) =~= Seq::<u32>::empty());
        assert(moves@ =~= moves@ + pawn_moves_up(targets, offset, flags));
    }
}

fn emit_pawn_moves_back(targets: Bitboard, offset: u32, flags: MoveFlags, moves: &mut Vec<Move>)
    requires
        forall|i: u64| bit_set(targets, i) ==> i + offset < 64,
    ensures
        final(moves)@ == old(moves)@ + pawn_moves_down(targets, offset, flags),
{
    let mut targets = targets;
    let ghost t0 = targets;
    while targets != 0
        invariant
            forall|i: u64| bit_set(targets, i) ==> i + offset < 64,
            moves@ + pawn_moves_down(targets, offset, flags) == old(moves)@ + pawn_moves_down(
                t0,
                offset,
                flags,
            ),
        decreases targets,
    {
        let ghost tb = targets;
        let ghost before = moves@;
        let to = pop_lsb(&mut targets);
        let from = to + offset;
        let f = if to < 8 {
            flags.union(MoveFlags { bits: PROMOTION })
        } else {
            flags
        };
        moves.push(Move { from, to, flags: f });
        proof {
            assert(squares(tb).drop_first() =~= squares(targets));
            assert(pawn_moves_down(tb, offset, flags) =~= seq![Move { from, to, flags: f }]
                + pawn_moves_down(targets, offset, flags));
            assert(moves@ + pawn_moves_down(targets, offset, flags) =~= before + pawn_moves_down(
                tb,
                offset,
                flags,
            ));
        }
    }
    proof {
        assert(squares(0) =~= Seq::<u32>::empty());
        assert(moves@ =~= moves@ + pawn_moves_down(targets, offset, flags));
    }
}

// ── Castling ──────────────────────────────────────────────────────────────────

fn castling_moves(board: &Board, us: Color, occ: Bitboard, moves: &mut Vec<Move>)
    ensures
        final(moves)@ == old(moves)@ + castling_spec(*board, us, occ),
{
    let ghost m0 = moves@;
    match us {
        Color::White => {
            if board.castling_rights & 0b0001 != 0 && occ & 0x0000_0000_0000_0060 == 0 {
                moves.push(Move { from: 4, to: 6, flags: MoveFlags { bits: CASTLE_K } });
            }
            if board.castling_rights & 0b0010 != 0 && occ & 0x0000_0000_0000_000E == 0 {
                moves.push(Move { from: 4, to: 2, flags: MoveFlags { bits: CASTLE_Q } });
            }
        },
        Color::Black => {
            if board.castling_rights & 0b0100 != 0 && occ & 0x6000_0000_0000_0000 == 0 {
                moves.push(Move { from: 60, to: 62, flags: MoveFlags { bits: CASTLE_K } });
            }
            if board.castling_rights & 0b1000 != 0 && occ & 0x0E00_0000_0000_0000 == 0 {
                moves.push(Move { from: 60, to: 58, flags: MoveFlags { bits: CASTLE_Q } });
            }
        },
    }
    proof {
        assert(moves@ =~= m0 + castling_spec(*board, us, occ));
    }
}

// ── Helper ────────────────────────────────────────────────────────────────────

fn push_quiet_and_captures(from: u32, targets: Bitboard, their_pieces: Bitboard, moves: &mut Vec<Move>)
    ensures
        final(moves)@ == old(moves)@ + target_moves(from, targets, their_pieces),
{
    let mut targets = targets;
    let ghost t0 = targets;
    while targets != 0
        invariant
            moves@ + target_moves(from, targets, their_pieces) == old(moves)@ + target_moves(
                from,
                t0,
                their_pieces,
            ),
        decreases targets,
    {
        let ghost tb = targets;
        let ghost before = moves@;
        let to = pop_lsb(&mut targets);
        proof {
            lemma_single_and(to as u64, their_pieces);
        }
        let flags = if sq_bb(to) & their_pieces != 0 {
            MoveFlags { bits: CAPTURE }
        } else {
            MoveFlags { bits: QUIET }
        };
        moves.push(Move { from, to, flags });
        proof {
            assert(squares(tb).drop_first() =~= squares(targets));
            assert(target_moves(from, tb, their_pieces) =~= seq![Move { from, to, flags }]
                + target_moves(from, targets, their_pieces));
            assert(moves@ + target_moves(from, targets, their_pieces) =~= before + target_moves(
                from,
                tb,
                their_pieces,
            ));
        }
    }
    proof {
        assert(squares(0) =~= Seq::<u32>::empty());
        assert(moves@ =~= moves@ + target_moves(from, targets, their_pieces));
    }
}

/// The single-square board meets `bb` exactly when `bb` holds the square.
proof fn lemma_single_and(s: u64, bb: u64)
    requires
        s < 64,
    ensures
        ((1u64 << s) & bb != 0) <==> bit_set(bb, s),
{
    assert(((1u64 << s) & bb != 0) <==> (bb >> s) & 1 == 1) by (bit_vector)
        requires
            s < 64,
    ;
}


// ── Facts about generated moves ───────────────────────────────────────────────

/// The flag values move generation produces.
pub open spec fn generated_flags(bits: u8) -> bool {
    bits == 0 || bits == 1 || bits == 2 || bits == 4 || bits == 5 || bits == 8 || bits == 16
        || bits == 32 || bits == 36
}

/// What holds of every move `generate_moves` returns for `b`: both squares
/// are on the board; a capture takes an opponent piece; an en passant capture
/// goes to the en passant square, with the captured pawn on the board; a
/// double push leaves an en passant square on the board.
pub open spec fn move_facts(b: Board, m: Move) -> bool {
    let us = b.side_to_move;
    let theirs = color_set(b, us.flipped());
    &&& m.from < 64
    &&& m.to < 64
    &&& m.from != m.to
    &&& generated_flags(m.flags.bits)
    &&& (m.flags.bits == 1 || m.flags.bits == 5) ==> bit_set(theirs, m.to as u64)
    &&& m.flags.bits == 2 ==> b.en_passant == Some(m.to) && match us {
        Color::White => m.to >= 8,
        Color::Black => m.to + 8 < 64,
    }
    &&& (m.flags.bits == 32 || m.flags.bits == 36) ==> match us {
        Color::White => m.from + 8 < 64,
        Color::Black => m.from >= 8,
    }
    &&& castle_path_clear(b, m)
}

/// A castling move is made only with its right held; it goes from the
/// king's square two squares towards its rook, and every square between king
/// and rook is empty: f1, g1 (f8, g8) for the king side, b1, c1, d1 (b8, c8,
/// d8) for the queen side.
pub open spec fn castle_path_clear(b: Board, m: Move) -> bool {
    let occ = occupied_set(b);
    let cr = b.castling_rights;
    if m.flags.bits == CASTLE_K {
        match b.side_to_move {
            Color::White => cr & 1 != 0 && m.from == 4 && m.to == 6 && !bit_set(occ, 5) && !bit_set(occ, 6),
            Color::Black => cr & 4 != 0 && m.from == 60 && m.to == 62 && !bit_set(occ, 61) && !bit_set(occ, 62),
        }
    } else if m.flags.bits == CASTLE_Q {
        match b.side_to_move {
            Color::White => cr & 2 != 0 && m.from == 4 && m.to == 2 && !bit_set(occ, 1) && !bit_set(occ, 2)
                && !bit_set(occ, 3),
            Color::Black => cr & 8 != 0 && m.from == 60 && m.to == 58 && !bit_set(occ, 57) && !bit_set(occ, 58)
                && !bit_set(occ, 59),
        }
    } else {
        true
    }
}

/// The empty-square masks of castling name exactly the squares between.
proof fn lemma_castle_masks(occ: u64)
    ensures
        occ & 0x60 == 0 ==> !bit_set(occ, 5) && !bit_set(occ, 6),
        occ & 0x0E == 0 ==> !bit_set(occ, 1) && !bit_set(occ, 2) && !bit_set(occ, 3),
        occ & 0x6000_0000_0000_0000 == 0 ==> !bit_set(occ, 61) && !bit_set(occ, 62),
        occ & 0x0E00_0000_0000_0000 == 0 ==> !bit_set(occ, 57) && !bit_set(occ, 58) && !bit_set(occ, 59),
{
    assert((occ & 0x60 == 0 ==> (occ >> 5u64) & 1 != 1 && (occ >> 6u64) & 1 != 1) && (occ & 0x0E == 0 ==> (occ
        >> 1u64) & 1 != 1 && (occ >> 2u64) & 1 != 1 && (occ >> 3u64) & 1 != 1) && (occ & 0x6000_0000_0000_0000
        == 0 ==> (occ >> 61u64) & 1 != 1 && (occ >> 62u64) & 1 != 1) && (occ & 0x0E00_0000_0000_0000 == 0 ==> (
    occ >> 57u64) & 1 != 1 && (occ >> 58u64) & 1 != 1 && (occ >> 59u64) & 1 != 1)) by (bit_vector);
}

/// A generated castling move needs its right, and never passes through an
/// occupied square: the squares between king and rook are empty, whatever
/// else stands on the board.
pub proof fn law_castling_path_is_empty(b: Board, i: int)
    requires
        ep_on_board(b),
        0 <= i < moves_spec(b).len(),
    ensures
        ({
            let m = moves_spec(b)[i];
            let occ = occupied_set(b);
            let cr = b.castling_rights;
            &&& m.flags.bits == CASTLE_K ==> cr & (if b.side_to_move == Color::White { 1u8 } else { 4u8 }) != 0
            &&& m.flags.bits == CASTLE_Q ==> cr & (if b.side_to_move == Color::White { 2u8 } else { 8u8 }) != 0
            &&& m.flags.bits == CASTLE_K && b.side_to_move == Color::White ==> m.from == 4 && m.to == 6
                && !bit_set(occ, 5) && !bit_set(occ, 6)
            &&& m.flags.bits == CASTLE_Q && b.side_to_move == Color::White ==> m.from == 4 && m.to == 2
                && !bit_set(occ, 1) && !bit_set(occ, 2) && !bit_set(occ, 3)
            &&& m.flags.bits == CASTLE_K && b.side_to_move == Color::Black ==> m.from == 60 && m.to == 62
                && !bit_set(occ, 61) && !bit_set(occ, 62)
            &&& m.flags.bits == CASTLE_Q && b.side_to_move == Color::Black ==> m.from == 60 && m.to == 58
                && !bit_set(occ, 57) && !bit_set(occ, 58) && !bit_set(occ, 59)
        }),
{
    lemma_moves_facts(b);
    assert(move_facts(b, moves_spec(b)[i]));
}

pub open spec fn all_facts(b: Board, s: Seq<Move>) -> bool {
    forall|k: int| 0 <= k < s.len() ==> move_facts(b, #[trigger] s[k])
}

/// Which flags each generated flag value has.
pub proof fn lemma_flags(bits: u8)
    requires
        generated_flags(bits),
    ensures
        (bits & CAPTURE == CAPTURE) <==> (bits == 1 || bits == 5),
        (bits & EN_PASSANT == EN_PASSANT) <==> bits == 2,
        (bits & PROMOTION == PROMOTION) <==> (bits == 4 || bits == 5 || bits == 36),
        (bits & CASTLE_K == CASTLE_K) <==> bits == 8,
        (bits & CASTLE_Q == CASTLE_Q) <==> bits == 16,
        (bits & DOUBLE_PUSH == DOUBLE_PUSH) <==> (bits == 32 || bits == 36),
{
    assert(((bits & 1u8 == 1u8) <==> (bits == 1 || bits == 5)) && ((bits & 2u8 == 2u8) <==> bits
        == 2) && ((bits & 4u8 == 4u8) <==> (bits == 4 || bits == 5 || bits == 36)) && ((bits & 8u8
        == 8u8) <==> bits == 8) && ((bits & 16u8 == 16u8) <==> bits == 16) && ((bits & 32u8
        == 32u8) <==> (bits == 32 || bits == 36))) by (bit_vector)
        requires
            bits == 0 || bits == 1 || bits == 2 || bits == 4 || bits == 5 || bits == 8 || bits
                == 16 || bits == 32 || bits == 36,
    ;
}

/// Adding the promotion flag to a quiet move, a capture or a double push.
proof fn lemma_promoted_bits()
    ensures
        (0u8 | 4u8) == 4u8,
        (1u8 | 4u8) == 5u8,
        (32u8 | 4u8) == 36u8,
{
    assert((0u8 | 4u8) == 4u8 && (1u8 | 4u8) == 5u8 && (32u8 | 4u8) == 36u8) by (bit_vector);
}

proof fn lemma_concat_facts(b: Board, s: Seq<Move>, t: Seq<Move>)
    requires
        all_facts(b, s),
        all_facts(b, t),
    ensures
        all_facts(b, s + t),
{
    assert forall|k: int| 0 <= k < (s + t).len() implies move_facts(b, #[trigger] (s + t)[k]) by {
        if k < s.len() {
            assert((s + t)[k] == s[k]);
        } else {
            assert((s + t)[k] == t[k - s.len()]);
        }
    }
}

proof fn lemma_target_moves_facts(b: Board, from: u32, targets: u64)
    requires
        from < 64,
        !bit_set(targets, from as u64),
    ensures
        all_facts(b, target_moves(from, targets, color_set(b, b.side_to_move.flipped()))),
{
    lemma_squares(targets);
    let theirs = color_set(b, b.side_to_move.flipped());
    let s = target_moves(from, targets, theirs);
    assert forall|k: int| 0 <= k < s.len() implies move_facts(b, #[trigger] s[k]) by {
        let to = squares(targets)[k];
        assert(bit_set(targets, to as u64));
    }
}

proof fn lemma_piece_moves_facts(b: Board, kind: Piece, sqs: Seq<u32>, occ: u64, ours: u64)
    requires
        forall|k: int| 0 <= k < sqs.len() ==> #[trigger] sqs[k] < 64 && bit_set(ours, sqs[k] as u64),
    ensures
        all_facts(b, piece_moves(kind, sqs, occ, ours, color_set(b, b.side_to_move.flipped()))),
    decreases sqs.len(),
{
    let theirs = color_set(b, b.side_to_move.flipped());
    if sqs.len() > 0 {
        assert(forall|k: int| 0 <= k < sqs.drop_first().len() ==> sqs.drop_first()[k] == sqs[k + 1]);
        lemma_piece_moves_facts(b, kind, sqs.drop_first(), occ, ours);
        lemma_bit_ops(attack_set(kind, sqs[0] as u64, occ), !ours, sqs[0] as u64);
        lemma_bit_ops(ours, 0, sqs[0] as u64);
        lemma_target_moves_facts(b, sqs[0], attack_set(kind, sqs[0] as u64, occ) & !ours);
        lemma_concat_facts(
            b,
            target_moves(sqs[0], attack_set(kind, sqs[0] as u64, occ) & !ours, theirs),
            piece_moves(kind, sqs.drop_first(), occ, ours, theirs),
        );
    }
}

proof fn lemma_squares_on_board(bb: u64)
    ensures
        forall|k: int| 0 <= k < squares(bb).len() ==> #[trigger] squares(bb)[k] < 64 && bit_set(bb, squares(bb)[k] as u64),
{
    lemma_squares(bb);
    assert forall|k: int| 0 <= k < squares(bb).len() implies #[trigger] squares(bb)[k] < 64 && bit_set(bb, squares(bb)[k] as u64) by {
        assert(bit_set(bb, squares(bb)[k] as u64));
    }
}

/// A square of one kind of a color is a square of that color.
proof fn lemma_in_color(b: Board, c: Color, k: Piece, i: u64)
    requires
        bit_set(pieces_of(b, c, k), i),
    ensures
        bit_set(color_set(b, c), i),
{
    let row = b.pieces[c.idx()];
    lemma_bit_ops(row[0] | row[1] | row[2] | row[3] | row[4], row[5], i);
    lemma_bit_ops(row[0] | row[1] | row[2] | row[3], row[4], i);
    lemma_bit_ops(row[0] | row[1] | row[2], row[3], i);
    lemma_bit_ops(row[0] | row[1], row[2], i);
    lemma_bit_ops(row[0], row[1], i);
}

proof fn lemma_kind_squares_in_color(b: Board, c: Color, k: Piece)
    ensures
        forall|j: int| 0 <= j < squares(pieces_of(b, c, k)).len() ==> #[trigger] squares(pieces_of(b, c, k))[j] < 64
            && bit_set(color_set(b, c), squares(pieces_of(b, c, k))[j] as u64),
{
    lemma_squares_on_board(pieces_of(b, c, k));
    assert forall|j: int| 0 <= j < squares(pieces_of(b, c, k)).len() implies #[trigger] squares(pieces_of(b, c, k))[j] < 64
            && bit_set(color_set(b, c), squares(pieces_of(b, c, k))[j] as u64) by {
        lemma_in_color(b, c, k, squares(pieces_of(b, c, k))[j] as u64);
    }
}

/// Every element of a pawn move list meets the facts, given what holds of
/// each target square.
proof fn lemma_pawn_list_facts(b: Board, s: Seq<Move>, targets: u64, up: bool, offset: u32, flags: MoveFlags)
    requires
        s == (if up { pawn_moves_up(targets, offset, flags) } else { pawn_moves_down(targets, offset, flags) }),
        forall|to: u64| #[trigger] bit_set(targets, to) ==> {
            let from: int = if up { to - offset } else { to + offset };
            let f = promoted(flags, if up { to >= 56 } else { to < 8 });
            move_facts(b, Move { from: from as u32, to: to as u32, flags: f }) && 0 <= from < 64
        },
    ensures
        all_facts(b, s),
{
    lemma_squares(targets);
    assert forall|k: int| 0 <= k < s.len() implies move_facts(b, #[trigger] s[k]) by {
        let to = squares(targets)[k];
        assert(bit_set(targets, to as u64));
    }
}

/// Every generated move meets the facts.
pub proof fn lemma_moves_facts(b: Board)
    requires
        ep_on_board(b),
    ensures
        all_facts(b, moves_spec(b)),
{
    reveal(moves_spec);
    let us = b.side_to_move;
    let them = us.flipped();
    let occ = occupied_set(b);
    let ours = color_set(b, us);
    let theirs = color_set(b, them);
    lemma_promoted_bits();
    lemma_pawn_facts(b, us, occ, theirs);
    let kinds = seq![Piece::Knight, Piece::Bishop, Piece::Rook, Piece::Queen];
    lemma_kind_squares_in_color(b, us, Piece::Knight);
    lemma_kind_squares_in_color(b, us, Piece::Bishop);
    lemma_kind_squares_in_color(b, us, Piece::Rook);
    lemma_kind_squares_in_color(b, us, Piece::Queen);
    lemma_piece_moves_facts(b, Piece::Knight, squares(pieces_of(b, us, Piece::Knight)), occ, ours);
    lemma_piece_moves_facts(b, Piece::Bishop, squares(pieces_of(b, us, Piece::Bishop)), occ, ours);
    lemma_piece_moves_facts(b, Piece::Rook, squares(pieces_of(b, us, Piece::Rook)), occ, ours);
    lemma_piece_moves_facts(b, Piece::Queen, squares(pieces_of(b, us, Piece::Queen)), occ, ours);
    let kings = pieces_of(b, us, Piece::King);
    if kings != 0 {
        lemma_without_lowest(kings);
        lemma_in_color(b, us, Piece::King, lowest(kings));
        lemma_bit_ops(king_set(lowest(kings)), !ours, lowest(kings));
        lemma_bit_ops(ours, 0, lowest(kings));
        lemma_target_moves_facts(b, lowest(kings) as u32, king_set(lowest(kings)) & !ours);
    }
    let cs = castling_spec(b, us, occ);
    lemma_castle_masks(occ);
    assert(all_facts(b, cs));
    let p = pawn_moves_spec(b, us, occ, theirs);
    let n = piece_moves(Piece::Knight, squares(pieces_of(b, us, Piece::Knight)), occ, ours, theirs);
    let bi = piece_moves(Piece::Bishop, squares(pieces_of(b, us, Piece::Bishop)), occ, ours, theirs);
    let r = piece_moves(Piece::Rook, squares(pieces_of(b, us, Piece::Rook)), occ, ours, theirs);
    let q = piece_moves(Piece::Queen, squares(pieces_of(b, us, Piece::Queen)), occ, ours, theirs);
    let k = king_moves_spec(b, us, ours, theirs);
    lemma_concat_facts(b, p, n);
    lemma_concat_facts(b, p + n, bi);
    lemma_concat_facts(b, p + n + bi, r);
    lemma_concat_facts(b, p + n + bi + r, q);
    lemma_concat_facts(b, p + n + bi + r + q, k);
    lemma_concat_facts(b, p + n + bi + r + q + k, cs);
}

proof fn lemma_pawn_facts(b: Board, us: Color, occ: u64, theirs: u64)
    requires
        ep_on_board(b),
        us == b.side_to_move,
        occ == occupied_set(b),
        theirs == color_set(b, us.flipped()),
    ensures
        all_facts(b, pawn_moves_spec(b, us, occ, theirs)),
{
    lemma_promoted_bits();
    let pawns = pieces_of(b, us, Piece::Pawn);
    let ep_bb = ep_board(b);
    let e = lowest(ep_bb) as u32;
    if ep_bb != 0 {
        lemma_ep_square(ep_bb, b.en_passant);
    }
    match us {
        Color::White => {
            let push1 = (pawns << 8u64) & !occ;
            let push2 = ((push1 & RANK_3) << 8u64) & !occ;
            let cap_l = ((pawns & !FILE_A) << 7u64) & theirs;
            let cap_r = ((pawns & !FILE_H) << 9u64) & theirs;
            assert forall|to: u64| #[trigger] bit_set(push1, to) implies to >= 8 by {
                lemma_bit_ops(pawns << 8u64, !occ, to);
                lemma_shl(pawns, 8, to);
            }
            assert forall|to: u64| #[trigger] bit_set(push2, to) implies to >= 16 && to < 32 by {
                lemma_bit_ops((push1 & RANK_3) << 8u64, !occ, to);
                lemma_shl(push1 & RANK_3, 8, to);
                if to >= 8 {
                    lemma_bit_ops(push1, RANK_3, (to - 8) as u64);
                    lemma_rank_3_6((to - 8) as u64);
                }
            }
            assert forall|to: u64| #[trigger] bit_set(cap_l, to) implies to >= 7 && bit_set(theirs, to) by {
                lemma_bit_ops((pawns & !FILE_A) << 7u64, theirs, to);
                lemma_shl(pawns & !FILE_A, 7, to);
            }
            assert forall|to: u64| #[trigger] bit_set(cap_r, to) implies to >= 9 && bit_set(theirs, to) by {
                lemma_bit_ops((pawns & !FILE_H) << 9u64, theirs, to);
                lemma_shl(pawns & !FILE_H, 9, to);
            }
            lemma_pawn_list_facts(b, pawn_moves_up(push1, 8, flags_of(QUIET)), push1, true, 8, flags_of(QUIET));
            lemma_pawn_list_facts(b, pawn_moves_up(push2, 16, flags_of(DOUBLE_PUSH)), push2, true, 16, flags_of(DOUBLE_PUSH));
            lemma_pawn_list_facts(b, pawn_moves_up(cap_l, 7, flags_of(CAPTURE)), cap_l, true, 7, flags_of(CAPTURE));
            lemma_pawn_list_facts(b, pawn_moves_up(cap_r, 9, flags_of(CAPTURE)), cap_r, true, 9, flags_of(CAPTURE));
            let e1 = ep_move(ep_bb != 0 && ((pawns & !FILE_A) << 7u64) & ep_bb != 0, (e - 7) as u32, e);
            let e2 = ep_move(ep_bb != 0 && ((pawns & !FILE_H) << 9u64) & ep_bb != 0, (e - 9) as u32, e);
            if ep_bb != 0 {
                lemma_only_square((pawns & !FILE_A) << 7u64, ep_bb, e as u64);
                lemma_only_square((pawns & !FILE_H) << 9u64, ep_bb, e as u64);
                lemma_shl(pawns & !FILE_A, 7, e as u64);
                lemma_shl(pawns & !FILE_H, 9, e as u64);
                if ((pawns & !FILE_A) << 7u64) & ep_bb != 0 {
                    lemma_bit_ops(pawns, !FILE_A, (e - 7) as u64);
                    lemma_bit_ops(FILE_A, 0, (e - 7) as u64);
                    lemma_edge_masks((e - 7) as u64);
                }
            }
            assert(all_facts(b, e1));
            assert(all_facts(b, e2));
            let a = pawn_moves_up(push1, 8, flags_of(QUIET));
            let c = pawn_moves_up(push2, 16, flags_of(DOUBLE_PUSH));
            let d = pawn_moves_up(cap_l, 7, flags_of(CAPTURE));
            let f = pawn_moves_up(cap_r, 9, flags_of(CAPTURE));
            lemma_concat_facts(b, a, c);
            lemma_concat_facts(b, a + c, d);
            lemma_concat_facts(b, a + c + d, f);
            lemma_concat_facts(b, a + c + d + f, e1);
            lemma_concat_facts(b, a + c + d + f + e1, e2);
        },
        Color::Black => {
            let push1 = (pawns >> 8u64) & !occ;
            let push2 = ((push1 & RANK_6) >> 8u64) & !occ;
            let cap_l = ((pawns & !FILE_H) >> 7u64) & theirs;
            let cap_r = ((pawns & !FILE_A) >> 9u64) & theirs;
            assert forall|to: u64| #[trigger] bit_set(push1, to) implies to + 8 < 64 by {
                lemma_bit_ops(pawns >> 8u64, !occ, to);
                lemma_shr(pawns, 8, to);
            }
            assert forall|to: u64| #[trigger] bit_set(push2, to) implies to + 16 < 64 && to >= 24 by {
                lemma_bit_ops((push1 & RANK_6) >> 8u64, !occ, to);
                lemma_shr(push1 & RANK_6, 8, to);
                if to + 8 < 64 {
                    lemma_bit_ops(push1, RANK_6, (to + 8) as u64);
                    lemma_rank_3_6((to + 8) as u64);
                }
            }
            assert forall|to: u64| #[trigger] bit_set(cap_l, to) implies to + 7 < 64 && bit_set(theirs, to) by {
                lemma_bit_ops((pawns & !FILE_H) >> 7u64, theirs, to);
                lemma_shr(pawns & !FILE_H, 7, to);
            }
            assert forall|to: u64| #[trigger] bit_set(cap_r, to) implies to + 9 < 64 && bit_set(theirs, to) by {
                lemma_bit_ops((pawns & !FILE_A) >> 9u64, theirs, to);
                lemma_shr(pawns & !FILE_A, 9, to);
            }
            lemma_pawn_list_facts(b, pawn_moves_down(push1, 8, flags_of(QUIET)), push1, false, 8, flags_of(QUIET));
            lemma_pawn_list_facts(b, pawn_moves_down(push2, 16, flags_of(DOUBLE_PUSH)), push2, false, 16, flags_of(DOUBLE_PUSH));
            lemma_pawn_list_facts(b, pawn_moves_down(cap_l, 7, flags_of(CAPTURE)), cap_l, false, 7, flags_of(CAPTURE));
            lemma_pawn_list_facts(b, pawn_moves_down(cap_r, 9, flags_of(CAPTURE)), cap_r, false, 9, flags_of(CAPTURE));
            let e1 = ep_move(ep_bb != 0 && ((pawns & !FILE_H) >> 7u64) & ep_bb != 0, (e + 7) as u32, e);
            let e2 = ep_move(ep_bb != 0 && ((pawns & !FILE_A) >> 9u64) & ep_bb != 0, (e + 9) as u32, e);
            if ep_bb != 0 {
                lemma_only_square((pawns & !FILE_H) >> 7u64, ep_bb, e as u64);
                lemma_only_square((pawns & !FILE_A) >> 9u64, ep_bb, e as u64);
                lemma_shr(pawns & !FILE_H, 7, e as u64);
                lemma_shr(pawns & !FILE_A, 9, e as u64);
                if e + 7 < 64 {
                    lemma_bit_ops(pawns, !FILE_H, (e + 7) as u64);
                    lemma_bit_ops(FILE_H, 0, (e + 7) as u64);
                    lemma_edge_masks((e + 7) as u64);
                }
            }
            assert(all_facts(b, e1));
            assert(all_facts(b, e2));
            let a = pawn_moves_down(push1, 8, flags_of(QUIET));
            let c = pawn_moves_down(push2, 16, flags_of(DOUBLE_PUSH));
            let d = pawn_moves_down(cap_l, 7, flags_of(CAPTURE));
            let f = pawn_moves_down(cap_r, 9, flags_of(CAPTURE));
            lemma_concat_facts(b, a, c);
            lemma_concat_facts(b, a + c, d);
            lemma_concat_facts(b, a + c + d, f);
            lemma_concat_facts(b, a + c + d + f, e1);
            lemma_concat_facts(b, a + c + d + f + e1, e2);
        },
    }
}

} // verus!
