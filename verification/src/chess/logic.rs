//! The rules engine of the board: bitboard attack helpers (plain ray-casting),
//! move generation, making and unmaking moves, and game state queries.

use vstd::prelude::*;
use crate::chess::piece::{Class, Color, Piece};
use crate::chess::moves::{Move, MoveFlag, MoveInstruction, Tile};
use crate::chess::board::{Board, BoardModel, bits_where, lemma_bits_where, lemma_bits_where_ext, piece_bits, occupied_bits};
use crate::chess::board_state::{Bitboard, BoardState, CastlingRights, CastlingState};
use crate::chess::logic_base::{ChessLogic, GameResult, UnmakeInfo};
use crate::chess::rules;
use crate::chess::rules::{
    steps, legal_moves, keeps_king_safe, starts_on, names_move, illegal_move_text, class_name, checkmate, stalemate,
    insufficient_material, result_of, perft_count, perft_sum, perft_safe, law_unmake_undoes_make,
    pawn_step_moves, pawn_moves_over, target_moves, castle_move, castle_moves, pseudo_moves,
    attacker_of, attackers_bits, attacked, king_sq, in_check, make_spec, unmake_spec, info_matches,
    relocated, drop_right, rook_squares, is_castle, is_promo, piece_of, promo_class,
    sq_at, pawn_hits, ray_from, ray_hits, any_ray, rook_hits, bishop_hits, knight_bits, king_bits, pawn_bits,
    rook_bits, bishop_bits, queen_bits,
};
use crate::chess::move_facts::{move_ok, lemma_pseudo_moves_ok};
use crate::engine::bitboard::{bit_set, lowest, lsb, pop_lsb, popcount, squares, lemma_bit_ops, lemma_single, lemma_empty};
use crate::engine::movegen::{knight_step, king_step};

verus! {

const FILE_A: Bitboard = 0x0101_0101_0101_0101;
const FILE_B: Bitboard = 0x0202_0202_0202_0202;
const FILE_G: Bitboard = 0x4040_4040_4040_4040;
const FILE_H: Bitboard = 0x8080_8080_8080_8080;
const FILE_AB: Bitboard = 0x0303_0303_0303_0303;
const FILE_GH: Bitboard = 0xC0C0_C0C0_C0C0_C0C0;

fn knight_attacks(sq: usize) -> (r: Bitboard)
    requires
        sq < 64,
    ensures
        r == knight_bits(sq as int),
        forall|t: u64| t < 64 ==> (#[trigger] bit_set(r, t) <==> knight_step(sq as u64, t)),
{
    let b: Bitboard = 1u64 << sq as u64;
    let res = ((b << 17u64) & !FILE_A) | ((b << 15u64) & !FILE_H) | ((b << 10u64) & !FILE_AB) | ((b
        << 6u64) & !FILE_GH) | ((b >> 17u64) & !FILE_H) | ((b >> 15u64) & !FILE_A) | ((b >> 10u64)
        & !FILE_GH) | ((b >> 6u64) & !FILE_AB);
    let s = sq as u64;
    assert forall|t: u64| t < 64 implies (#[trigger] bit_set(res, t) <==> knight_step(s, t)) by {
        assert((res >> t) & 1 == 1 <==> (((t % 8 == s % 8 + 1 || s % 8 == t % 8 + 1) && (t / 8 == s
            / 8 + 2 || s / 8 == t / 8 + 2)) || ((t % 8 == s % 8 + 2 || s % 8 == t % 8 + 2) && (t
            / 8 == s / 8 + 1 || s / 8 == t / 8 + 1)))) by (bit_vector)
            requires
                s < 64,
                t < 64,
                b == 1u64 << s,
                res == ((b << 17u64) & !0x0101_0101_0101_0101u64) | ((b << 15u64)
                    & !0x8080_8080_8080_8080u64) | ((b << 10u64) & !0x0303_0303_0303_0303u64) | ((b
                    << 6u64) & !0xC0C0_C0C0_C0C0_C0C0u64) | ((b >> 17u64) & !0x8080_8080_8080_8080u64)
                    | ((b >> 15u64) & !0x0101_0101_0101_0101u64) | ((b >> 10u64)
                    & !0xC0C0_C0C0_C0C0_C0C0u64) | ((b >> 6u64) & !0x0303_0303_0303_0303u64),
        ;
    }
    proof {
        lemma_bits_where_ext(|t: int| knight_step(s, t as u64), res);
    }
    res
}

fn king_attacks(sq: usize) -> (r: Bitboard)
    requires
        sq < 64,
    ensures
        r == king_bits(sq as int),
        forall|t: u64| t < 64 ==> (#[trigger] bit_set(r, t) <==> king_step(sq as u64, t)),
{
    let b: Bitboard = 1u64 << sq as u64;
    let res = (b << 8u64) | (b >> 8u64) | ((b << 1u64) & !FILE_A) | ((b >> 1u64) & !FILE_H) | ((b
        << 9u64) & !FILE_A) | ((b << 7u64) & !FILE_H) | ((b >> 7u64) & !FILE_A) | ((b >> 9u64)
        & !FILE_H);
    let s = sq as u64;
    assert forall|t: u64| t < 64 implies (#[trigger] bit_set(res, t) <==> king_step(s, t)) by {
        assert((res >> t) & 1 == 1 <==> (t != s && (t % 8 == s % 8 || t % 8 == s % 8 + 1 || s % 8
            == t % 8 + 1) && (t / 8 == s / 8 || t / 8 == s / 8 + 1 || s / 8 == t / 8 + 1)))
            by (bit_vector)
            requires
                s < 64,
                t < 64,
                b == 1u64 << s,
                res == (b << 8u64) | (b >> 8u64) | ((b << 1u64) & !0x0101_0101_0101_0101u64) | ((b
                    >> 1u64) & !0x8080_8080_8080_8080u64) | ((b << 9u64)
                    & !0x0101_0101_0101_0101u64) | ((b << 7u64) & !0x8080_8080_8080_8080u64) | ((b
                    >> 7u64) & !0x0101_0101_0101_0101u64) | ((b >> 9u64)
                    & !0x8080_8080_8080_8080u64),
        ;
    }
    proof {
        lemma_bits_where_ext(|t: int| king_step(s, t as u64), res);
    }
    res
}

fn pawn_attacks(sq: usize, color: Color) -> (r: Bitboard)
    requires
        sq < 64,
    ensures
        r == pawn_bits(sq as int, color),
        forall|t: u64| t < 64 ==> (#[trigger] bit_set(r, t) <==> pawn_hits(sq as int, t as int, color)),
{
    let b: Bitboard = 1u64 << sq as u64;
    let res = match color {
        Color::White => ((b << 7u64) & !FILE_H) | ((b << 9u64) & !FILE_A),
        Color::Black => ((b >> 7u64) & !FILE_A) | ((b >> 9u64) & !FILE_H),
    };
    let s = sq as u64;
    let white = color == Color::White;
    assert forall|t: u64| t < 64 implies (#[trigger] bit_set(res, t) <==> pawn_hits(s as int, t as int, color)) by {
        assert((res >> t) & 1 == 1 <==> (if white {
            (t == s + 7 && s % 8 != 0) || (t == s + 9 && s % 8 != 7)
        } else {
            (t + 7 == s && s % 8 != 7) || (t + 9 == s && s % 8 != 0)
        })) by (bit_vector)
            requires
                s < 64,
                t < 64,
                b == 1u64 << s,
                white ==> res == ((b << 7u64) & !0x8080_8080_8080_8080u64) | ((b << 9u64)
                    & !0x0101_0101_0101_0101u64),
                !white ==> res == ((b >> 7u64) & !0x0101_0101_0101_0101u64) | ((b >> 9u64)
                    & !0x8080_8080_8080_8080u64),
        ;
    }
    proof {
        lemma_bits_where_ext(|t: int| pawn_hits(s as int, t, color), res);
    }
    res
}

/// Testing a bitboard against a single square tells whether the square is set.
proof fn lemma_test_bit(bb: u64, i: u64)
    requires
        i < 64,
    ensures
        (bb & (1u64 << i)) != 0 <==> bit_set(bb, i),
        ((1u64 << i) & bb) != 0 <==> bit_set(bb, i),
{
    let m = bb & (1u64 << i);
    let n = (1u64 << i) & bb;
    assert forall|k: u64| k < 64 implies (#[trigger] bit_set(m, k) <==> (bit_set(bb, k) && k == i)) by {
        lemma_bit_ops(bb, 1u64 << i, k);
        lemma_single(i, k);
    }
    assert forall|k: u64| k < 64 implies (#[trigger] bit_set(n, k) <==> (bit_set(bb, k) && k == i)) by {
        lemma_bit_ops(1u64 << i, bb, k);
        lemma_single(i, k);
    }
    assert(bit_set(m, i) <==> bit_set(bb, i));
    assert(bit_set(n, i) <==> bit_set(bb, i));
    lemma_empty(m);
    lemma_empty(n);
}

/// The moves of the pieces of the classes numbered 1 up to `n` (excluded):
/// knights, bishops, rooks, queens, king.
pub open spec fn class_moves_upto(m: BoardModel, n: int) -> Seq<Move>
    decreases n,
{
    if n <= 1 {
        Seq::empty()
    } else {
        class_moves_upto(m, n - 1) + rules::class_moves(m, Class::from_idx(n - 1))
    }
}

/// A direction of one step along a file, a rank or a diagonal.
pub open spec fn step_dir(d: (i8, i8)) -> bool {
    -1 <= d.0 <= 1 && -1 <= d.1 <= 1 && !(d.0 == 0 && d.1 == 0)
}

/// Ray-cast in each (file_delta, rank_delta) direction until an occupied
/// square (inclusive) or the board edge is hit.
fn sliding_attacks(sq: usize, occupied: Bitboard, deltas: &[(i8, i8)]) -> (r: Bitboard)
    requires
        sq < 64,
        forall|k: int| 0 <= k < deltas@.len() ==> step_dir(#[trigger] deltas@[k]),
    ensures
        forall|t: u64| t < 64 ==> (#[trigger] bit_set(r, t) <==> any_ray(sq as int, occupied, deltas@, deltas@.len() as int, t as int)),
{
    let mut attacks: Bitboard = 0;
    let file = (sq % 8) as i8;
    let rank = (sq / 8) as i8;
    let mut k: usize = 0;
    proof {
        lemma_empty(0);
    }
    while k < deltas.len()
        invariant
            k <= deltas@.len(),
            sq < 64,
            file == sq % 8,
            rank == sq / 8,
            forall|k: int| 0 <= k < deltas@.len() ==> step_dir(#[trigger] deltas@[k]),
            forall|t: u64| t < 64 ==> (#[trigger] bit_set(attacks, t) <==> any_ray(sq as int, occupied, deltas@, k as int, t as int)),
        decreases deltas.len() - k,
    {
        let (df, dr) = deltas[k];
        assert(step_dir(deltas@[k as int]));
        let mut f = file + df;
        let mut r = rank + dr;
        let ghost mut j: int = 1;
        let ghost a0 = attacks;
        while 0 <= f && f < 8 && 0 <= r && r < 8
            invariant
                -1 <= df <= 1,
                -1 <= dr <= 1,
                !(df == 0 && dr == 0),
                0 <= file < 8,
                0 <= rank < 8,
                1 <= j <= 8,
                f == file + steps(j, df as int),
                r == rank + steps(j, dr as int),
                forall|t: u64|
                    #![trigger bit_set(attacks, t)]
                    #![trigger ray_hits(sq as int, df as int, dr as int, occupied, t as int)]
                    t < 64 ==> ((bit_set(a0, t) || ray_hits(sq as int, df as int, dr as int, occupied, t as int))
                    <==> (bit_set(attacks, t) || ray_from(f as int, r as int, df as int, dr as int, occupied, t as int, (9 - j) as nat))),
            ensures
                forall|t: u64|
                    #![trigger bit_set(attacks, t)]
                    #![trigger ray_hits(sq as int, df as int, dr as int, occupied, t as int)]
                    t < 64 ==> ((bit_set(a0, t) || ray_hits(sq as int, df as int, dr as int, occupied, t as int))
                    <==> bit_set(attacks, t)),
            decreases 9 - j,
        {
            assert(j <= 7);
            let idx = (r * 8 + f) as usize;
            let ghost prev = attacks;
            attacks = attacks | (1u64 << idx as u64);
            proof {
                assert forall|t: u64| t < 64 implies (#[trigger] bit_set(attacks, t) <==> (bit_set(prev, t) || t == idx)) by {
                    lemma_bit_ops(prev, 1u64 << idx as u64, t);
                    lemma_single(idx as u64, t);
                }
            }
            proof {
                lemma_test_bit(occupied, idx as u64);
                assert forall|t: u64| t < 64 implies (#[trigger] ray_from(f as int, r as int, df as int, dr as int, occupied, t as int, (9 - j) as nat)
                    <==> (t == idx || (!bit_set(occupied, idx as u64) && ray_from(f + df, r + dr, df as int, dr as int, occupied, t as int, (8 - j) as nat)))) by {
                    assert(sq_at(f as int, r as int) == idx);
                }
            }
            if occupied & (1u64 << idx as u64) != 0 {
                proof {
                    assert forall|t: u64| t < 64 implies ((bit_set(a0, t) || #[trigger] ray_hits(sq as int, df as int, dr as int, occupied, t as int))
                        <==> bit_set(attacks, t)) by {
                        assert(ray_from(f as int, r as int, df as int, dr as int, occupied, t as int, (9 - j) as nat) ==> t == idx);
                    }
                }
                break;
            }
            let ghost f0 = f;
            let ghost r0 = r;
            f = f + df;
            r = r + dr;
            proof {
                j = j + 1;
                assert forall|t: u64| t < 64 implies ((bit_set(a0, t) || #[trigger] ray_hits(sq as int, df as int, dr as int, occupied, t as int))
                    <==> (bit_set(attacks, t) || ray_from(f as int, r as int, df as int, dr as int, occupied, t as int, (9 - j) as nat))) by {
                    assert(ray_from(f0 as int, r0 as int, df as int, dr as int, occupied, t as int, (10 - j) as nat) <==>
                        (t == idx || ray_from(f as int, r as int, df as int, dr as int, occupied, t as int, (9 - j) as nat)));
                }
            }
        }
        k += 1;
    }
    attacks
}

pub(crate) fn bishop_attacks(sq: usize, occupied: Bitboard) -> (r: Bitboard)
    requires
        sq < 64,
    ensures
        r == bishop_bits(sq as int, occupied),
{
    let dirs: [(i8, i8); 4] = [(1, 1), (1, -1), (-1, 1), (-1, -1)];
    let r = sliding_attacks(sq, occupied, &dirs);
    proof {
        assert(dirs@ =~= seq![(1i8, 1i8), (1i8, -1i8), (-1i8, 1i8), (-1i8, -1i8)]);
        reveal_with_fuel(any_ray, 5);
        lemma_bits_where_ext(|t: int| bishop_hits(sq as int, occupied, t), r);
    }
    r
}

pub(crate) fn rook_attacks(sq: usize, occupied: Bitboard) -> (r: Bitboard)
    requires
        sq < 64,
    ensures
        r == rook_bits(sq as int, occupied),
{
    let dirs: [(i8, i8); 4] = [(1, 0), (-1, 0), (0, 1), (0, -1)];
    let r = sliding_attacks(sq, occupied, &dirs);
    proof {
        assert(dirs@ =~= seq![(1i8, 0i8), (-1i8, 0i8), (0i8, 1i8), (0i8, -1i8)]);
        reveal_with_fuel(any_ray, 5);
        lemma_bits_where_ext(|t: int| rook_hits(sq as int, occupied, t), r);
    }
    r
}

fn queen_attacks(sq: usize, occupied: Bitboard) -> (r: Bitboard)
    requires
        sq < 64,
    ensures
        r == queen_bits(sq as int, occupied),
{
    let b = bishop_attacks(sq, occupied);
    let q = rook_attacks(sq, occupied);
    let r = b | q;
    proof {
        assert forall|t: u64| t < 64 implies (#[trigger] bit_set(r, t) <==> (bishop_hits(sq as int, occupied, t as int) || rook_hits(sq as int, occupied, t as int))) by {
            lemma_bit_ops(b, q, t);
            crate::chess::board::lemma_bits_where(|t: int| bishop_hits(sq as int, occupied, t), 64, t);
            crate::chess::board::lemma_bits_where(|t: int| rook_hits(sq as int, occupied, t), 64, t);
        }
        lemma_bits_where_ext(|t: int| bishop_hits(sq as int, occupied, t) || rook_hits(sq as int, occupied, t), r);
    }
    r
}


/// The piece on one square moves to another.
fn relocate_rook(board: &mut Board, from_idx: u8, to_idx: u8)
    requires
        from_idx < 64,
        to_idx < 64,
    ensures
        final(board).model() == (
            relocated(old(board).model().0, from_idx as int, to_idx as int),
            old(board).model().1,
            old(board).model().2,
            old(board).model().3,
            old(board).model().4,
            old(board).model().5,
        ),
{
    let rook = board.get_piece(Tile::from_idx(from_idx));
    board.set_piece(Tile::from_idx(from_idx), Piece::NoPiece);
    board.set_piece(Tile::from_idx(to_idx), rook);
}

/// Removes a single castling right from the board's current castling state.
fn block_castling(board: &mut Board, right: CastlingRights)
    ensures
        final(board).model() == (
            old(board).model().0,
            old(board).model().1,
            old(board).model().2,
            drop_right(old(board).model().3, right.bit()),
            old(board).model().4,
            old(board).model().5,
        ),
{
    let mut state = board.get_castling_state();
    state.remove(right);
    board.set_castling_state(state);
}

/// The class a promotion flag promotes to.
fn promo_class_of(flag: MoveFlag) -> (r: Option<Class>)
    ensures
        r == promo_class(flag),
{
    match flag {
        MoveFlag::KnightPromo | MoveFlag::KnightPromoCapture => Some(Class::Knight),
        MoveFlag::BishopPromo | MoveFlag::BishopPromoCapture => Some(Class::Bishop),
        MoveFlag::RookPromo | MoveFlag::RookPromoCapture => Some(Class::Rook),
        MoveFlag::QueenPromo | MoveFlag::QueenPromoCapture => Some(Class::Queen),
        _ => None,
    }
}

/// A bitboard meets a mask in no square exactly when it is empty on each
/// square of the mask.
proof fn lemma_and_zero(a: u64, mask: u64)
    ensures
        (a & mask == 0) <==> (forall|i: u64| i < 64 && #[trigger] bit_set(mask, i) ==> !bit_set(a, i)),
{
    assert forall|i: u64| i < 64 implies (#[trigger] bit_set(a & mask, i) <==> (bit_set(a, i) && bit_set(mask, i))) by {
        lemma_bit_ops(a, mask, i);
    }
    lemma_empty(a & mask);
    if a & mask == 0 {
        assert forall|i: u64| i < 64 && #[trigger] bit_set(mask, i) implies !bit_set(a, i) by {
            assert(!bit_set(a & mask, i));
        }
    } else {
        let i = choose|i: u64| i < 64 && bit_set(a & mask, i);
        assert(bit_set(mask, i) && bit_set(a, i));
    }
}

/// The first square and the rest of a square list.
proof fn lemma_cons(r: u32, rest: Seq<u32>)
    ensures
        (seq![r] + rest).len() > 0,
        (seq![r] + rest)[0] == r,
        (seq![r] + rest).drop_first() == rest,
{
    assert((seq![r] + rest).drop_first() =~= rest);
}

fn push_pawn_move(moves: &mut Vec<Move>, from: Tile, to: Tile, is_promo: bool, is_capture: bool)
    ensures
        final(moves)@ == old(moves)@ + pawn_step_moves(from.sq(), to.sq(), is_promo, is_capture),
{
    if is_promo {
        let flags: [MoveFlag; 4] = if is_capture {
            [
                MoveFlag::KnightPromoCapture,
                MoveFlag::BishopPromoCapture,
                MoveFlag::RookPromoCapture,
                MoveFlag::QueenPromoCapture,
            ]
        } else {
            [MoveFlag::KnightPromo, MoveFlag::BishopPromo, MoveFlag::RookPromo, MoveFlag::QueenPromo]
        };
        let ghost full = pawn_step_moves(from.sq(), to.sq(), true, is_capture);
        let mut i: usize = 0;
        while i < 4
            invariant
                i <= 4,
                full == pawn_step_moves(from.sq(), to.sq(), true, is_capture),
                full.len() == 4,
                forall|k: int| 0 <= k < 4 ==> full[k] == Move::make(from.sq(), to.sq(), #[trigger] flags@[k]),
                moves@ == old(moves)@ + full.take(i as int),
            decreases 4 - i,
        {
            moves.push(Move::new(from, to, flags[i]));
            proof {
                assert(full.take(i + 1) =~= full.take(i as int).push(full[i as int]));
            }
            i += 1;
        }
        proof {
            assert(full.take(4) =~= full);
        }
    } else {
        let flag = if is_capture {
            MoveFlag::Capture
        } else {
            MoveFlag::Quiet
        };
        moves.push(Move::new(from, to, flag));
    }
}

fn push_stepper_moves(board: &Board, moves: &mut Vec<Move>, from_idx: usize, targets: Bitboard, enemy_occupied: Bitboard)
    requires
        from_idx < 64,
    ensures
        final(moves)@ == old(moves)@ + target_moves(from_idx as int, squares(targets), enemy_occupied),
{
    let from = Tile::from_idx(from_idx as u8);
    let mut bb = targets;
    while bb != 0
        invariant
            from.sq() == from_idx,
            moves@ + target_moves(from_idx as int, squares(bb), enemy_occupied) == old(moves)@
                + target_moves(from_idx as int, squares(targets), enemy_occupied),
        decreases bb,
    {
        let ghost b0 = bb;
        let ghost m0 = moves@;
        let to_idx = pop_lsb(&mut bb);
        let to = Tile::from_idx(to_idx as u8);
        proof {
            lemma_test_bit(enemy_occupied, to_idx as u64);
        }
        let flag = if (1u64 << to_idx as u64) & enemy_occupied != 0 {
            MoveFlag::Capture
        } else {
            MoveFlag::Quiet
        };
        // the board is only needed if some target is ever special-cased
        let _ = board;
        moves.push(Move::new(from, to, flag));
        proof {
            lemma_cons(to_idx, squares(bb));
            assert(target_moves(from_idx as int, squares(b0), enemy_occupied) == seq![Move::make(from_idx as int, to_idx as int, flag)]
                + target_moves(from_idx as int, squares(bb), enemy_occupied));
            assert(moves@ + target_moves(from_idx as int, squares(bb), enemy_occupied) =~= m0
                + target_moves(from_idx as int, squares(b0), enemy_occupied));
        }
    }
    proof {
        assert(squares(0) =~= Seq::<u32>::empty());
        assert(moves@ =~= moves@ + target_moves(from_idx as int, squares(bb), enemy_occupied));
    }
}

fn generate_castling_moves(board: &Board, moves: &mut Vec<Move>, side: Color, all_occupied: Bitboard)
    requires
        side == board.model().1,
        rules::has_king(board.model(), side),
        all_occupied == occupied_bits(board.model().0),
    ensures
        final(moves)@ == old(moves)@ + castle_moves(board.model()),
{
    let ghost m = board.model();
    proof {
        use_type_invariant(board);
        board.lemma_model_shape();
    }
    if board.is_in_check(side) {
        proof {
            assert(old(moves)@ + castle_moves(m) =~= old(moves)@);
        }
        return;
    }
    let castling_state = board.get_castling_state();
    proof {
        assert forall|i: u64| i < 64 implies (#[trigger] bit_set(all_occupied, i) <==> !(m.0[i as int] is NoPiece)) by {
            lemma_bits_where(|i: int| !(m.0[i] is NoPiece), 64, i);
        }
    }
    match side {
        Color::White => {
            let mask_k: u64 = (1u64 << 5u64) | (1u64 << 6u64);
            proof {
                lemma_two_squares(5, 6);
                lemma_and_zero(all_occupied, mask_k);
                lemma_free_squares2(m, all_occupied, mask_k, 5, 6, seq![5, 6]);
            }
            let ok_k = castling_state.contains(CastlingRights::WhiteKing) && (all_occupied & mask_k) == 0
                && !board.is_square_attacked(Tile::from_idx(5), Color::Black)
                && !board.is_square_attacked(Tile::from_idx(6), Color::Black);
            let ghost before = moves@;
            if ok_k {
                moves.push(Move::new(Tile::from_idx(4), Tile::from_idx(6), MoveFlag::KingCastle));
            }
            proof {
                lemma_castle_move(m, 1, 4, 6, seq![5, 6], seq![5, 6], MoveFlag::KingCastle, ok_k);
                assert(moves@ == before + castle_move(m, 1, 4, 6, seq![5, 6], seq![5, 6], MoveFlag::KingCastle));
            }
            let mask_q: u64 = (1u64 << 1u64) | (1u64 << 2u64) | (1u64 << 3u64);
            proof {
                lemma_three_squares(1, 2, 3);
                lemma_and_zero(all_occupied, mask_q);
                lemma_free_squares3(m, all_occupied, mask_q, 1, 2, 3, seq![1, 2, 3]);
            }
            let ok_q = castling_state.contains(CastlingRights::WhiteQueen) && (all_occupied & mask_q) == 0
                && !board.is_square_attacked(Tile::from_idx(3), Color::Black)
                && !board.is_square_attacked(Tile::from_idx(2), Color::Black);
            let ghost mid = moves@;
            if ok_q {
                moves.push(Move::new(Tile::from_idx(4), Tile::from_idx(2), MoveFlag::QueenCastle));
            }
            proof {
                lemma_castle_move(m, 2, 4, 2, seq![1, 2, 3], seq![3, 2], MoveFlag::QueenCastle, ok_q);
                assert(moves@ =~= old(moves)@ + castle_moves(m));
            }
        },
        Color::Black => {
            let mask_k: u64 = (1u64 << 61u64) | (1u64 << 62u64);
            proof {
                lemma_two_squares(61, 62);
                lemma_and_zero(all_occupied, mask_k);
                lemma_free_squares2(m, all_occupied, mask_k, 61, 62, seq![61, 62]);
            }
            let ok_k = castling_state.contains(CastlingRights::BlackKing) && (all_occupied & mask_k) == 0
                && !board.is_square_attacked(Tile::from_idx(61), Color::White)
                && !board.is_square_attacked(Tile::from_idx(62), Color::White);
            let ghost before = moves@;
            if ok_k {
                moves.push(Move::new(Tile::from_idx(60), Tile::from_idx(62), MoveFlag::KingCastle));
            }
            proof {
                lemma_castle_move(m, 4, 60, 62, seq![61, 62], seq![61, 62], MoveFlag::KingCastle, ok_k);
            }
            let mask_q: u64 = (1u64 << 57u64) | (1u64 << 58u64) | (1u64 << 59u64);
            proof {
                lemma_three_squares(57, 58, 59);
                lemma_and_zero(all_occupied, mask_q);
                lemma_free_squares3(m, all_occupied, mask_q, 57, 58, 59, seq![57, 58, 59]);
            }
            let ok_q = castling_state.contains(CastlingRights::BlackQueen) && (all_occupied & mask_q) == 0
                && !board.is_square_attacked(Tile::from_idx(59), Color::White)
                && !board.is_square_attacked(Tile::from_idx(58), Color::White);
            if ok_q {
                moves.push(Move::new(Tile::from_idx(60), Tile::from_idx(58), MoveFlag::QueenCastle));
            }
            proof {
                lemma_castle_move(m, 8, 60, 58, seq![57, 58, 59], seq![59, 58], MoveFlag::QueenCastle, ok_q);
                assert(moves@ =~= old(moves)@ + castle_moves(m));
            }
        },
    }
}

/// The squares of a two-square mask.
proof fn lemma_two_squares(a: u64, b: u64)
    requires
        a < 64,
        b < 64,
    ensures
        forall|i: u64| i < 64 ==> (#[trigger] bit_set((1u64 << a) | (1u64 << b), i) <==> (i == a || i == b)),
{
    assert forall|i: u64| i < 64 implies (#[trigger] bit_set((1u64 << a) | (1u64 << b), i) <==> (i == a || i == b)) by {
        lemma_bit_ops(1u64 << a, 1u64 << b, i);
        lemma_single(a, i);
        lemma_single(b, i);
    }
}

/// The squares of a three-square mask.
proof fn lemma_three_squares(a: u64, b: u64, c: u64)
    requires
        a < 64,
        b < 64,
        c < 64,
    ensures
        forall|i: u64| i < 64 ==> (#[trigger] bit_set((1u64 << a) | (1u64 << b) | (1u64 << c), i) <==> (i == a || i == b || i == c)),
{
    assert forall|i: u64| i < 64 implies (#[trigger] bit_set((1u64 << a) | (1u64 << b) | (1u64 << c), i) <==> (i == a || i == b || i == c)) by {
        lemma_bit_ops((1u64 << a) | (1u64 << b), 1u64 << c, i);
        lemma_bit_ops(1u64 << a, 1u64 << b, i);
        lemma_single(a, i);
        lemma_single(b, i);
        lemma_single(c, i);
    }
}

/// A two-square mask meets the occupied squares in none exactly when both
/// squares are empty.
proof fn lemma_free_squares2(m: BoardModel, all: u64, mask: u64, a: u64, b: u64, sq: Seq<int>)
    requires
        sq == seq![a as int, b as int],
        a < 64,
        b < 64,
        forall|i: u64| i < 64 ==> (#[trigger] bit_set(all, i) <==> !(m.0[i as int] is NoPiece)),
        forall|i: u64| i < 64 ==> (#[trigger] bit_set(mask, i) <==> (i == a || i == b)),
        (all & mask == 0) <==> (forall|i: u64| i < 64 && #[trigger] bit_set(mask, i) ==> !bit_set(all, i)),
    ensures
        (all & mask == 0) <==> (forall|i: int| 0 <= i < 2 ==> m.0[#[trigger] sq[i]] is NoPiece),
{
    assert(bit_set(mask, a) && bit_set(mask, b));
    if all & mask == 0 {
        assert forall|i: int| 0 <= i < 2 implies m.0[#[trigger] sq[i]] is NoPiece by {
            assert(bit_set(mask, sq[i] as u64));
        }
    }
    if forall|i: int| 0 <= i < 2 ==> m.0[#[trigger] sq[i]] is NoPiece {
        assert(m.0[sq[0]] is NoPiece && m.0[sq[1]] is NoPiece);
    }
}

/// A three-square mask meets the occupied squares in none exactly when the
/// three squares are empty.
proof fn lemma_free_squares3(m: BoardModel, all: u64, mask: u64, a: u64, b: u64, c: u64, sq: Seq<int>)
    requires
        sq == seq![a as int, b as int, c as int],
        a < 64,
        b < 64,
        c < 64,
        forall|i: u64| i < 64 ==> (#[trigger] bit_set(all, i) <==> !(m.0[i as int] is NoPiece)),
        forall|i: u64| i < 64 ==> (#[trigger] bit_set(mask, i) <==> (i == a || i == b || i == c)),
        (all & mask == 0) <==> (forall|i: u64| i < 64 && #[trigger] bit_set(mask, i) ==> !bit_set(all, i)),
    ensures
        (all & mask == 0) <==> (forall|i: int| 0 <= i < 3 ==> m.0[#[trigger] sq[i]] is NoPiece),
{
    assert(bit_set(mask, a) && bit_set(mask, b) && bit_set(mask, c));
    if all & mask == 0 {
        assert forall|i: int| 0 <= i < 3 implies m.0[#[trigger] sq[i]] is NoPiece by {
            assert(bit_set(mask, sq[i] as u64));
        }
    }
    if forall|i: int| 0 <= i < 3 ==> m.0[#[trigger] sq[i]] is NoPiece {
        assert(m.0[sq[0]] is NoPiece && m.0[sq[1]] is NoPiece && m.0[sq[2]] is NoPiece);
    }
}

/// The castling move is generated exactly when its conditions hold.
proof fn lemma_castle_move(m: BoardModel, right: u8, from: int, to: int, empty: Seq<int>, safe: Seq<int>, flag: MoveFlag, ok: bool)
    requires
        safe.len() == 2,
        ok == (m.3 & right != 0 && (forall|i: int| 0 <= i < empty.len() ==> m.0[#[trigger] empty[i]] is NoPiece)
            && !attacked(m.0, safe[0], m.1.other()) && !attacked(m.0, safe[1], m.1.other())),
    ensures
        castle_move(m, right, from, to, empty, safe, flag) == if ok {
            seq![Move::make(from, to, flag)]
        } else {
            Seq::empty()
        },
{
    if !attacked(m.0, safe[0], m.1.other()) && !attacked(m.0, safe[1], m.1.other()) {
        assert forall|i: int| 0 <= i < safe.len() implies !attacked(m.0, #[trigger] safe[i], m.1.other()) by {
            assert(i == 0 || i == 1);
        }
    }
}

/// The name `Debug` gives a class.
fn class_debug_name(c: Class) -> (r: &'static str)
    ensures
        r@ == class_name(c),
{
    match c {
        Class::Pawn => "Pawn",
        Class::Knight => "Knight",
        Class::Bishop => "Bishop",
        Class::Rook => "Rook",
        Class::Queen => "Queen",
        Class::King => "King",
    }
}

/// A partial sum of path counts is at most the whole sum.
proof fn lemma_perft_sum_bound(m: BoardModel, s: Seq<Move>, depth: nat, n: int, total: int)
    requires
        0 <= n <= total,
    ensures
        perft_sum(m, s, depth, n) <= perft_sum(m, s, depth, total),
    decreases total - n,
{
    if n < total {
        lemma_perft_sum_bound(m, s, depth, n, total - 1);
    }
}

/// Every legal move of a ready position can be made and taken back.
proof fn lemma_legal_ok(m: BoardModel)
    requires
        rules::ready(m),
        forall|i: int| 0 <= i < pseudo_moves(m).len() ==> move_ok(m, #[trigger] pseudo_moves(m)[i]),
    ensures
        forall|i: int| 0 <= i < legal_moves(m).len() ==> move_ok(m, #[trigger] legal_moves(m)[i]),
{
    let l = legal_moves(m);
    assert forall|i: int| 0 <= i < l.len() implies move_ok(m, #[trigger] l[i]) by {
        pseudo_moves(m).lemma_filter_contains_rev(keeps_king_safe(m), l[i]);
        assert(l.contains(l[i]));
    }
}

impl ChessLogic for Board {
    open spec fn has_king(&self, color: Color) -> bool {
        rules::has_king(self.model(), color)
    }

    open spec fn can_generate(&self) -> bool {
        rules::has_king(self.model(), self.model().1)
    }

    open spec fn ready(&self) -> bool {
        rules::ready(self.model())
    }

    open spec fn playable(&self, mv: Move) -> bool {
        rules::playable(self.model(), mv)
    }

    open spec fn perft_ready(&self, depth: u32) -> bool {
        perft_safe(self.model(), depth as nat) && perft_count(self.model(), depth as nat) <= u64::MAX
    }

    #[verifier::rlimit(40)]
    fn generate_pseudo_legal_moves(&self) -> (moves: Vec<Move>)
        ensures
            moves@ == pseudo_moves(self.model()),
    {
        proof {
            use_type_invariant(self);
            self.lemma_model_shape();
        }
        let ghost m = self.model();
        let mut moves: Vec<Move> = Vec::with_capacity(64);
        let side = self.get_side_to_move();
        let own_occupied = self.get_occupied(side);
        let enemy_occupied = self.get_occupied(side.opposite());
        let all_occupied = self.get_all_occupied();

        // --- Pawns ---
        let pawns = self.get_bitboard(Class::Pawn, side);
        let (push_dir, start_rank, promo_rank): (i32, i32, i32) = match side {
            Color::White => (8, 1, 7),
            Color::Black => (-8, 6, 0),
        };
        let mut bb = pawns;
        while bb != 0
            invariant
                m == self.model(),
                m.0.len() == 64,
                side == m.1,
                push_dir == rules::push_dir(side),
                start_rank == rules::start_rank(side),
                promo_rank == rules::promo_rank(side),
                pawns == piece_bits(m.0, side.idx() * 6),
                moves@ + pawn_moves_over(m, squares(bb)) == pawn_moves_over(m, squares(pawns)),
            decreases bb,
        {
            let ghost b0 = bb;
            let ghost before = moves@;
            let from_idx = pop_lsb(&mut bb) as usize;
            let from = Tile::from_idx(from_idx as u8);
            let file = (from_idx % 8) as i32;
            let rank = (from_idx / 8) as i32;

            // Single push
            let one_idx = from_idx as i32 + push_dir;
            if 0 <= one_idx && one_idx < 64 && self.get_piece(Tile::from_idx(one_idx as u8)).is_none() {
                let to = Tile::from_idx(one_idx as u8);
                let to_rank = one_idx / 8;
                push_pawn_move(&mut moves, from, to, to_rank == promo_rank, false);

                // Double push
                if rank == start_rank {
                    let two_idx = from_idx as i32 + push_dir * 2;
                    if self.get_piece(Tile::from_idx(two_idx as u8)).is_none() {
                        moves.push(Move::new(from, Tile::from_idx(two_idx as u8), MoveFlag::DoublePawnPush));
                    }
                }
            }
            proof {
                assert(moves@ =~= before + rules::pawn_pushes(m, from_idx as int));
            }

            // Captures (incl. en passant)
            let caps: [(i32, i32); 2] = [(-1, push_dir - 1), (1, push_dir + 1)];
            let mut c: usize = 0;
            while c < 2
                invariant
                    c <= 2,
                    m == self.model(),
                    m.0.len() == 64,
                    side == m.1,
                    from_idx < 64,
                    from.sq() == from_idx,
                    file == from_idx % 8,
                    push_dir == rules::push_dir(side),
                    promo_rank == rules::promo_rank(side),
                    caps@.len() == 2,
                    caps@[0].0 == -1 && caps@[0].1 == push_dir - 1,
                    caps@[1].0 == 1 && caps@[1].1 == push_dir + 1,
                    moves@ == before + rules::pawn_pushes(m, from_idx as int) + if c == 0 {
                        Seq::empty()
                    } else if c == 1 {
                        rules::pawn_capture(m, from_idx as int, -1)
                    } else {
                        rules::pawn_capture(m, from_idx as int, -1) + rules::pawn_capture(m, from_idx as int, 1)
                    },
                decreases 2 - c,
            {
                let (df, cap_dir) = caps[c];
                let ghost mid = moves@;
                let target_file = file + df;
                let target_idx = from_idx as i32 + cap_dir;
                if 0 <= target_file && target_file < 8 && 0 <= target_idx && target_idx < 64 {
                    let to = Tile::from_idx(target_idx as u8);
                    let to_rank = target_idx / 8;
                    let ep = self.get_en_passant();
                    let is_ep = match ep {
                        Some(ep) => ep == to,
                        None => false,
                    };
                    proof {
                        if let Some(e) = ep {
                            e.lemma_sq_injective(to);
                        }
                    }
                    if is_ep {
                        moves.push(Move::new(from, to, MoveFlag::EpCapture));
                    } else {
                        let target_piece = self.get_piece(to);
                        if !target_piece.is_none() && target_piece.color() != side {
                            push_pawn_move(&mut moves, from, to, to_rank == promo_rank, true);
                        }
                    }
                }
                proof {
                    assert(moves@ =~= mid + rules::pawn_capture(m, from_idx as int, df as int));
                }
                c += 1;
            }
            proof {
                lemma_cons(from_idx as u32, squares(bb));
                assert(moves@ + pawn_moves_over(m, squares(bb)) =~= before + pawn_moves_over(m, squares(b0)));
            }
        }
        proof {
            assert(squares(0) =~= Seq::<u32>::empty());
            assert(moves@ =~= pawn_moves_over(m, squares(pawns)));
        }

        // --- Knights, bishops, rooks, queens, king (non-castling) ---
        let mut class_idx: usize = 1;
        while class_idx < 6
            invariant
                1 <= class_idx <= 6,
                m == self.model(),
                m.0.len() == 64,
                side == m.1,
                own_occupied == crate::chess::board::color_bits(m.0, side),
                enemy_occupied == crate::chess::board::color_bits(m.0, side.other()),
                all_occupied == occupied_bits(m.0),
                moves@ == pawn_moves_over(m, squares(piece_bits(m.0, side.idx() * 6))) + class_moves_upto(m, class_idx as int),
            decreases 6 - class_idx,
        {
            let class = Class::from_index_exec(class_idx);
            let pieces = self.get_bitboard(class, side);
            let ghost start = moves@;
            let mut bb = pieces;
            while bb != 0
                invariant
                    m == self.model(),
                    side == m.1,
                    1 <= class_idx < 6,
                    class.idx() == class_idx,
                    own_occupied == crate::chess::board::color_bits(m.0, side),
                    enemy_occupied == crate::chess::board::color_bits(m.0, side.other()),
                    all_occupied == occupied_bits(m.0),
                    pieces == piece_bits(m.0, side.idx() * 6 + class.idx()),
                    moves@ + rules::piece_moves_over(m, class, squares(bb)) == start + rules::piece_moves_over(m, class, squares(pieces)),
                decreases bb,
            {
                let ghost b0 = bb;
                let ghost before = moves@;
                let from_idx = pop_lsb(&mut bb) as usize;
                let attacks = match class {
                    Class::Knight => knight_attacks(from_idx),
                    Class::Bishop => bishop_attacks(from_idx, all_occupied),
                    Class::Rook => rook_attacks(from_idx, all_occupied),
                    Class::Queen => queen_attacks(from_idx, all_occupied),
                    _ => king_attacks(from_idx),
                } & !own_occupied;
                push_stepper_moves(self, &mut moves, from_idx, attacks, enemy_occupied);
                proof {
                    lemma_cons(from_idx as u32, squares(bb));
                    assert(moves@ + rules::piece_moves_over(m, class, squares(bb)) =~= before + rules::piece_moves_over(m, class, squares(b0)));
                }
            }
            proof {
                assert(squares(0) =~= Seq::<u32>::empty());
                assert(moves@ =~= start + rules::class_moves(m, class));
                assert(class_moves_upto(m, class_idx + 1) == class_moves_upto(m, class_idx as int) + rules::class_moves(m, class));
            }
            class_idx += 1;
        }

        // --- Castling ---
        generate_castling_moves(self, &mut moves, side, all_occupied);
        proof {
            reveal_with_fuel(class_moves_upto, 6);
            assert(class_moves_upto(m, 6) =~= rules::class_moves(m, Class::Knight) + rules::class_moves(m, Class::Bishop)
                + rules::class_moves(m, Class::Rook) + rules::class_moves(m, Class::Queen) + rules::class_moves(m, Class::King));
            assert(moves@ =~= pseudo_moves(m));
        }
        moves
    }

    fn generate_legal_moves(&self) -> (legal: Vec<Move>)
        ensures
            legal@ == legal_moves(self.model()),
    {
        let ghost m = self.model();
        let side = self.get_side_to_move();
        let pseudo = self.generate_pseudo_legal_moves();
        proof {
            lemma_pseudo_moves_ok(m);
        }
        let mut legal = Vec::with_capacity(pseudo.len());

        // Cloning gives us a genuinely owned, mutable scratch board to
        // make/unmake on, so legality checks never need unsafe aliasing
        // tricks.
        let mut scratch = self.clone();
        let mut i: usize = 0;
        while i < pseudo.len()
            invariant
                i <= pseudo@.len(),
                pseudo@ == pseudo_moves(m),
                m == self.model(),
                side == m.1,
                scratch == *self,
                m.0.len() == 64,
                forall|k: int| 0 <= k < pseudo@.len() ==> move_ok(m, #[trigger] pseudo@[k]),
                legal@ == pseudo@.take(i as int).filter(keeps_king_safe(m)),
            decreases pseudo.len() - i,
        {
            let mv = pseudo[i];
            assert(move_ok(m, pseudo@[i as int]));
            let info = scratch.make_move(mv);
            let king_safe = !scratch.is_in_check(side);
            scratch.unmake_move(mv, info);
            proof {
                law_unmake_undoes_make(m, mv, info);
                use_type_invariant(&scratch);
                use_type_invariant(self);
                Board::lemma_model_ext(scratch, *self);
            }
            if king_safe {
                legal.push(mv);
            }
            proof {
                reveal(Seq::filter);
                let t = pseudo@.take(i + 1);
                assert(t.drop_last() =~= pseudo@.take(i as int));
                assert(t.last() == mv);
            }
            i += 1;
        }
        proof {
            assert(pseudo@.take(pseudo@.len() as int) =~= pseudo@);
        }
        legal
    }

    fn generate_moves_for_tile(&self, tile: Tile) -> (moves: Vec<Move>)
        ensures
            moves@ == legal_moves(self.model()).filter(starts_on(tile.sq())),
    {
        let legal = self.generate_legal_moves();
        let mut moves: Vec<Move> = Vec::new();
        let mut i: usize = 0;
        while i < legal.len()
            invariant
                i <= legal@.len(),
                moves@ == legal@.take(i as int).filter(starts_on(tile.sq())),
            decreases legal.len() - i,
        {
            let mv = legal[i];
            let from = mv.from();
            proof {
                from.lemma_sq_injective(tile);
            }
            if from == tile {
                moves.push(mv);
            }
            proof {
                reveal(Seq::filter);
                let t = legal@.take(i + 1);
                assert(t.drop_last() =~= legal@.take(i as int));
                assert(t.last() == mv);
            }
            i += 1;
        }
        proof {
            assert(legal@.take(legal@.len() as int) =~= legal@);
        }
        moves
    }

    fn is_square_attacked(&self, tile: Tile, by_color: Color) -> (r: bool)
        ensures
            r == attacked(self.model().0, tile.sq(), by_color),
    {
        self.get_attackers_of(tile, by_color) != 0
    }

    fn get_attackers_of(&self, tile: Tile, by_color: Color) -> (r: Bitboard)
        ensures
            r == attackers_bits(self.model().0, tile.sq(), by_color),
    {
        let idx = tile.get_idx();
        let occupied = self.get_all_occupied();
        let pawns = self.get_bitboard(Class::Pawn, by_color);
        let knights = self.get_bitboard(Class::Knight, by_color);
        let bishops = self.get_bitboard(Class::Bishop, by_color);
        let rooks = self.get_bitboard(Class::Rook, by_color);
        let queens = self.get_bitboard(Class::Queen, by_color);
        let kings = self.get_bitboard(Class::King, by_color);

        let mut attackers: Bitboard = 0;
        let a1 = pawn_attacks(idx, by_color.opposite()) & pawns;
        attackers |= a1;
        let a2 = knight_attacks(idx) & knights;
        attackers |= a2;
        let a3 = king_attacks(idx) & kings;
        attackers |= a3;
        let a4 = bishop_attacks(idx, occupied) & (bishops | queens);
        attackers |= a4;
        let a5 = rook_attacks(idx, occupied) & (rooks | queens);
        attackers |= a5;
        proof {
            use_type_invariant(self);
            self.lemma_model_shape();
            let mb = self.model().0;
            let t = idx as int;
            let occ = occupied_bits(mb);
            let c = by_color.idx() * 6;
            assert forall|s: u64| s < 64 implies (#[trigger] bit_set(attackers, s) <==> attacker_of(mb, t, by_color, s as int)) by {
                lemma_bit_ops(0, a1, s);
                lemma_bit_ops(0 | a1, a2, s);
                lemma_bit_ops(0 | a1 | a2, a3, s);
                lemma_bit_ops(0 | a1 | a2 | a3, a4, s);
                lemma_bit_ops(0 | a1 | a2 | a3 | a4, a5, s);
                lemma_empty(0);
                lemma_bit_ops(pawn_bits(t, by_color.other()), pawns, s);
                lemma_bit_ops(knight_bits(t), knights, s);
                lemma_bit_ops(king_bits(t), kings, s);
                lemma_bit_ops(bishop_bits(t, occ), bishops | queens, s);
                lemma_bit_ops(bishops, queens, s);
                lemma_bit_ops(rook_bits(t, occ), rooks | queens, s);
                lemma_bit_ops(rooks, queens, s);
                lemma_bits_where(|x: int| pawn_hits(t, x, by_color.other()), 64, s);
                lemma_bits_where(|x: int| knight_step(t as u64, x as u64), 64, s);
                lemma_bits_where(|x: int| king_step(t as u64, x as u64), 64, s);
                lemma_bits_where(|x: int| bishop_hits(t, occ, x), 64, s);
                lemma_bits_where(|x: int| rook_hits(t, occ, x), 64, s);
                let k = mb[s as int].idx();
                assert(bit_set(a1, s) <==> (k == c && pawn_hits(t, s as int, by_color.other())));
                assert(bit_set(a2, s) <==> (k == c + 1 && knight_step(t as u64, s)));
                assert(bit_set(a3, s) <==> (k == c + 5 && king_step(t as u64, s)));
                assert(bit_set(a4, s) <==> ((k == c + 2 || k == c + 4) && bishop_hits(t, occ, s as int)));
                assert(bit_set(a5, s) <==> ((k == c + 3 || k == c + 4) && rook_hits(t, occ, s as int)));
                assert(bit_set(attackers, s) <==> (bit_set(a1, s) || bit_set(a2, s) || bit_set(a3, s) || bit_set(a4, s) || bit_set(a5, s)));
                if c <= k < c + 6 {
                    assert(mb[s as int].class_of().idx() == k - c);
                }
            }
            lemma_bits_where_ext(|s: int| attacker_of(mb, t, by_color, s), attackers);
        }
        attackers
    }

    fn is_in_check(&self, color: Color) -> (r: bool)
        ensures
            r == in_check(self.model(), color),
    {
        self.is_square_attacked(self.king_tile(color), color.opposite())
    }

    fn king_tile(&self, color: Color) -> (t: Tile)
        ensures
            t.sq() == king_sq(self.model(), color),
    {
        let bb = self.get_bitboard(Class::King, color);
        Tile::from_idx(lsb(bb) as u8)
    }

    fn make_move(&mut self, mv: Move) -> (info: UnmakeInfo)
        ensures
            final(self).model() == make_spec(old(self).model(), mv),
            info_matches(info, old(self).model(), mv),
    {
        proof {
            mv.lemma_squares_on_board();
            use_type_invariant(&*self);
            self.lemma_model_shape();
        }
        let ghost m0 = self.model();
        let from = mv.from();
        let to = mv.to();
        let flag = mv.flag();
        let moving_piece = self.get_piece(from);
        let side = moving_piece.color();

        let prev_castling_rights = self.get_castling_state();
        let prev_en_passant = self.get_en_passant();
        let prev_halfmove_clock = self.get_halfmove_clock();
        let prev_fullmove_number = self.get_fullmove_number();

        let mut captured = self.get_piece(to);
        let mut captured_ep_tile: Option<Tile> = None;

        if flag == MoveFlag::EpCapture {
            let cap_idx = if side == Color::White {
                to.get_idx() - 8
            } else {
                to.get_idx() + 8
            };
            let cap_tile = Tile::from_idx(cap_idx as u8);
            captured = self.get_piece(cap_tile);
            captured_ep_tile = Some(cap_tile);
            self.set_piece(cap_tile, Piece::NoPiece);
        }
        self.set_piece(from, Piece::NoPiece);

        let placed_piece = match flag {
            MoveFlag::KnightPromo | MoveFlag::KnightPromoCapture => Piece::new(Class::Knight, side),
            MoveFlag::BishopPromo | MoveFlag::BishopPromoCapture => Piece::new(Class::Bishop, side),
            MoveFlag::RookPromo | MoveFlag::RookPromoCapture => Piece::new(Class::Rook, side),
            MoveFlag::QueenPromo | MoveFlag::QueenPromoCapture => Piece::new(Class::Queen, side),
            _ => moving_piece,
        };
        self.set_piece(to, placed_piece);

        match flag {
            MoveFlag::KingCastle => match side {
                Color::White => relocate_rook(self, 7, 5),
                Color::Black => relocate_rook(self, 63, 61),
            },
            MoveFlag::QueenCastle => match side {
                Color::White => relocate_rook(self, 0, 3),
                Color::Black => relocate_rook(self, 56, 59),
            },
            _ => {},
        }
        let ghost squares_done = self.model().0;

        // Castling rights updates
        match moving_piece {
            Piece::WhiteKing => {
                block_castling(self, CastlingRights::WhiteKing);
                block_castling(self, CastlingRights::WhiteQueen);
            },
            Piece::BlackKing => {
                block_castling(self, CastlingRights::BlackKing);
                block_castling(self, CastlingRights::BlackQueen);
            },
            _ => {},
        }
        let fi = from.get_idx();
        let ti = to.get_idx();
        if fi == 0 || ti == 0 {
            block_castling(self, CastlingRights::WhiteQueen);
        }
        if fi == 7 || ti == 7 {
            block_castling(self, CastlingRights::WhiteKing);
        }
        if fi == 56 || ti == 56 {
            block_castling(self, CastlingRights::BlackQueen);
        }
        if fi == 63 || ti == 63 {
            block_castling(self, CastlingRights::BlackKing);
        }

        // En passant target
        self.clear_en_passants();
        if flag == MoveFlag::DoublePawnPush {
            let ep_idx = if side == Color::White {
                from.get_idx() + 8
            } else {
                from.get_idx() - 8
            };
            self.set_en_passant(Tile::from_idx(ep_idx as u8));
        }

        // Halfmove clock
        let is_capture = !captured.is_none() || flag == MoveFlag::EpCapture;
        if moving_piece.class() == Class::Pawn || is_capture {
            self.set_halfmove_clock(0);
        } else {
            self.set_halfmove_clock(prev_halfmove_clock + 1);
        }

        // Fullmove number increments after Black's move
        if side == Color::Black {
            self.set_fullmove_number(prev_fullmove_number + 1);
        }

        self.pass_player_turn();
        proof {
            assert(squares_done == rules::squares_after(m0, mv));
        }
        UnmakeInfo {
            captured,
            captured_ep_tile,
            prev_castling_rights,
            prev_en_passant,
            prev_halfmove_clock,
            prev_fullmove_number,
        }
    }

    fn unmake_move(&mut self, mv: Move, info: UnmakeInfo)
        ensures
            final(self).model() == unmake_spec(old(self).model(), mv, info),
    {
        proof {
            mv.lemma_squares_on_board();
        }
        // back to the side that made the move
        self.pass_player_turn();

        let from = mv.from();
        let to = mv.to();
        let flag = mv.flag();
        let side = self.get_side_to_move();

        let is_promo = matches!(
            flag,
            MoveFlag::KnightPromo | MoveFlag::KnightPromoCapture | MoveFlag::BishopPromo
                | MoveFlag::BishopPromoCapture | MoveFlag::RookPromo | MoveFlag::RookPromoCapture
                | MoveFlag::QueenPromo | MoveFlag::QueenPromoCapture
        );
        let original_piece = if is_promo {
            Piece::new(Class::Pawn, side)
        } else {
            self.get_piece(to)
        };

        self.set_piece(to, Piece::NoPiece);
        self.set_piece(from, original_piece);

        if flag == MoveFlag::EpCapture {
            if let Some(cap_tile) = info.captured_ep_tile {
                self.set_piece(cap_tile, info.captured);
            }
        } else {
            self.set_piece(to, info.captured);
        }

        match flag {
            MoveFlag::KingCastle => match side {
                Color::White => relocate_rook(self, 5, 7),
                Color::Black => relocate_rook(self, 61, 63),
            },
            MoveFlag::QueenCastle => match side {
                Color::White => relocate_rook(self, 3, 0),
                Color::Black => relocate_rook(self, 59, 56),
            },
            _ => {},
        }

        self.set_castling_state(info.prev_castling_rights);
        self.clear_en_passants();
        if let Some(ep) = info.prev_en_passant {
            self.set_en_passant(ep);
        }
        self.set_halfmove_clock(info.prev_halfmove_clock);
        self.set_fullmove_number(info.prev_fullmove_number);
    }

    fn resolve_move(&self, instr: MoveInstruction) -> (r: Result<Move, String>)
        ensures
            ({
                let legal = legal_moves(self.model());
                match r {
                    Ok(mv) => exists|i: int|
                        0 <= i < legal.len() && legal[i] == mv && names_move(mv, instr.from.sq(), instr.to.sq(), instr.promotion)
                            && forall|j: int| 0 <= j < i ==> !names_move(#[trigger] legal[j], instr.from.sq(), instr.to.sq(), instr.promotion),
                    Err(e) => (forall|j: int| 0 <= j < legal.len() ==> !names_move(#[trigger] legal[j], instr.from.sq(), instr.to.sq(), instr.promotion))
                        && e@ == illegal_move_text(instr.from.sq(), instr.to.sq(), instr.promotion),
                }
            }),
    {
        let legal = self.generate_legal_moves();
        let mut i: usize = 0;
        while i < legal.len()
            invariant
                i <= legal@.len(),
                legal@ == legal_moves(self.model()),
                forall|j: int| 0 <= j < i ==> !names_move(#[trigger] legal@[j], instr.from.sq(), instr.to.sq(), instr.promotion),
            decreases legal.len() - i,
        {
            let mv = legal[i];
            let from = mv.from();
            let to = mv.to();
            proof {
                from.lemma_sq_injective(instr.from);
                to.lemma_sq_injective(instr.to);
            }
            let same_promo = match (promo_class_of(mv.flag()), instr.promotion) {
                (Some(a), Some(b)) => a == b,
                (None, None) => true,
                _ => false,
            };
            if from == instr.from && to == instr.to && same_promo {
                proof {
                    let legal_spec = legal_moves(self.model());
                    assert(names_move(mv, instr.from.sq(), instr.to.sq(), instr.promotion));
                    assert(legal_spec[i as int] == mv);
                    assert(forall|j: int| 0 <= j < i ==> !names_move(#[trigger] legal_spec[j], instr.from.sq(), instr.to.sq(), instr.promotion));
                }
                return Ok(mv);
            }
            i += 1;
        }
        let mut e = crate::text::string_of("Illegal move: ");
        let from_name = instr.from.name();
        crate::text::push_str(&mut e, from_name.as_str());
        let to_name = instr.to.name();
        crate::text::push_str(&mut e, to_name.as_str());
        if let Some(c) = instr.promotion {
            crate::text::push_str(&mut e, class_debug_name(c));
        }
        proof {
            assert(e@ =~= illegal_move_text(instr.from.sq(), instr.to.sq(), instr.promotion));
        }
        Err(e)
    }

    fn is_legal(&self, mv: Move) -> (r: bool)
        ensures
            r == legal_moves(self.model()).contains(mv),
    {
        let legal = self.generate_legal_moves();
        let mut i: usize = 0;
        while i < legal.len()
            invariant
                i <= legal@.len(),
                legal@ == legal_moves(self.model()),
                forall|j: int| 0 <= j < i ==> legal@[j] != mv,
            decreases legal.len() - i,
        {
            if legal[i] == mv {
                assert(legal_moves(self.model())[i as int] == mv);
                return true;
            }
            i += 1;
        }
        false
    }

    fn is_checkmate(&self) -> (r: bool)
        ensures
            r == checkmate(self.model()),
    {
        self.is_in_check(self.get_side_to_move()) && self.generate_legal_moves().len() == 0
    }

    fn is_stalemate(&self) -> (r: bool)
        ensures
            r == stalemate(self.model()),
    {
        !self.is_in_check(self.get_side_to_move()) && self.generate_legal_moves().len() == 0
    }

    fn is_draw_by_insufficient_material(&self) -> (r: bool)
        ensures
            r == insufficient_material(self.model().0),
    {
        // Any pawn, rook, or queen on the board means there's still mating material.
        let wp = self.get_bitboard(Class::Pawn, Color::White);
        let bp = self.get_bitboard(Class::Pawn, Color::Black);
        let wr = self.get_bitboard(Class::Rook, Color::White);
        let br = self.get_bitboard(Class::Rook, Color::Black);
        let wq = self.get_bitboard(Class::Queen, Color::White);
        let bq = self.get_bitboard(Class::Queen, Color::Black);
        let heavy_or_pawns = wp | bp | wr | br | wq | bq;
        proof {
            use_type_invariant(self);
            self.lemma_model_shape();
            let mb = self.model().0;
            assert forall|i: u64| i < 64 implies (#[trigger] bit_set(heavy_or_pawns, i) <==> {
                let k = mb[i as int].idx();
                k == 0 || k == 3 || k == 4 || k == 6 || k == 9 || k == 10
            }) by {
                crate::chess::board::lemma_or6(wp, bp, wr, br, wq, bq, i);
            }
            lemma_empty(heavy_or_pawns);
            if heavy_or_pawns == 0 {
                assert forall|i: int| 0 <= i < 64 implies {
                    let k = #[trigger] mb[i].idx();
                    k != 0 && k != 3 && k != 4 && k != 6 && k != 9 && k != 10
                } by {
                    assert(!bit_set(heavy_or_pawns, i as u64));
                }
            } else {
                let i = choose|i: u64| i < 64 && bit_set(heavy_or_pawns, i);
                assert(!rules::no_heavy_material(mb));
            }
        }
        if heavy_or_pawns != 0 {
            return false;
        }
        let white_knights = popcount(self.get_bitboard(Class::Knight, Color::White));
        let white_minors = white_knights + popcount(self.get_bitboard(Class::Bishop, Color::White));
        let black_knights = popcount(self.get_bitboard(Class::Knight, Color::Black));
        let black_minors = black_knights + popcount(self.get_bitboard(Class::Bishop, Color::Black));

        // K vs K, K+minor vs K, are draws. K+2N vs K is not forced mate but
        // also not automatically declared here (rare edge case, treat as playable).
        (white_minors == 0 && black_minors == 0) || (white_minors == 1 && black_minors == 0 && white_knights <= 1)
            || (black_minors == 1 && white_minors == 0 && black_knights <= 1)
    }

    fn is_draw_by_fifty_move_rule(&self) -> (r: bool)
        ensures
            r == (self.model().4 >= 100),
    {
        self.get_halfmove_clock() >= 100
    }

    fn game_result(&self) -> (r: GameResult)
        ensures
            r == result_of(self.model()),
    {
        if self.is_checkmate() {
            return GameResult::Checkmate(self.get_side_to_move().opposite());
        }
        if self.is_stalemate() {
            return GameResult::Stalemate;
        }
        if self.is_draw_by_fifty_move_rule() {
            return GameResult::DrawByFiftyMoveRule;
        }
        if self.is_draw_by_insufficient_material() {
            return GameResult::DrawByInsufficientMaterial;
        }
        GameResult::Ongoing
    }

    fn perft(&mut self, depth: u32) -> (r: u64)
        ensures
            r == perft_count(old(self).model(), depth as nat),
            *final(self) == *old(self),
        decreases depth,
    {
        if depth == 0 {
            return 1;
        }
        let ghost m = self.model();
        let moves = self.generate_legal_moves();
        proof {
            lemma_pseudo_moves_ok(m);
            lemma_legal_ok(m);
        }
        if depth == 1 {
            return moves.len() as u64;
        }
        let ghost start = *self;
        proof {
            use_type_invariant(&*self);
        }
        let mut nodes = 0u64;
        let mut i: usize = 0;
        while i < moves.len()
            invariant
                1 < depth,
                i <= moves@.len(),
                moves@ == legal_moves(m),
                m == self.model(),
                *self == start,
                start.wf(),
                perft_safe(m, depth as nat),
                perft_count(m, depth as nat) <= u64::MAX,
                forall|k: int| 0 <= k < moves@.len() ==> move_ok(m, #[trigger] moves@[k]),
                nodes == perft_sum(m, moves@, (depth - 1) as nat, i as int),
            decreases moves.len() - i,
        {
            let mv = moves[i];
            assert(move_ok(m, moves@[i as int]));
            assert(perft_safe(make_spec(m, legal_moves(m)[i as int]), (depth - 1) as nat));
            proof {
                lemma_perft_sum_bound(m, moves@, (depth - 1) as nat, i + 1, moves@.len() as int);
            }
            let info = self.make_move(mv);
            let sub = self.perft(depth - 1);
            nodes = nodes + sub;
            self.unmake_move(mv, info);
            proof {
                law_unmake_undoes_make(m, mv, info);
                use_type_invariant(&*self);
                Board::lemma_model_ext(*self, start);
            }
            i += 1;
        }
        nodes
    }
}

} // verus!
