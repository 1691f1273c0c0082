//! Static position evaluation.
//!
//! Returns a centipawn score from White's perspective.
//! Positive = White advantage, negative = Black advantage.

use vstd::prelude::*;
use super::bitboard::{
    Board, Color, Piece, Bitboard, bit_set, ones, squares, pieces_of, color_set, occupied_set,
    pop_lsb, popcount, lemma_squares, lemma_ones_without_lowest, lemma_ones_below_bound,
    lowest, without_lowest, lemma_without_lowest, lemma_empty, lemma_bits_ext, lemma_bit_ops, lemma_single,
};
use super::movegen::{
    knight_attacks, bishop_attacks, rook_attacks, knight_set, bishop_set, rook_set,
};

verus! {

// ── Piece values (centipawns) ─────────────────────────────────────────────────

pub const PAWN_VAL: i32 = 100;
pub const KNIGHT_VAL: i32 = 320;
pub const BISHOP_VAL: i32 = 330;
pub const ROOK_VAL: i32 = 500;
pub const QUEEN_VAL: i32 = 900;
pub const KING_VAL: i32 = 20_000;

pub const PIECE_VALUES: [i32; 6] = [PAWN_VAL, KNIGHT_VAL, BISHOP_VAL, ROOK_VAL, QUEEN_VAL, KING_VAL];

// ── Piece-square tables (from White's perspective, rank 1 = index 0) ──────────

pub const PAWN_PST: [i32; 64] = [
     0,  0,  0,  0,  0,  0,  0,  0,
    50, 50, 50, 50, 50, 50, 50, 50,
    10, 10, 20, 30, 30, 20, 10, 10,
     5,  5, 10, 25, 25, 10,  5,  5,
     0,  0,  0, 20, 20,  0,  0,  0,
     5, -5,-10,  0,  0,-10, -5,  5,
     5, 10, 10,-20,-20, 10, 10,  5,
     0,  0,  0,  0,  0,  0,  0,  0,
];

pub const KNIGHT_PST: [i32; 64] = [
    -50,-40,-30,-30,-30,-30,-40,-50,
    -40,-20,  0,  0,  0,  0,-20,-40,
    -30,  0, 10, 15, 15, 10,  0,-30,
    -30,  5, 15, 20, 20, 15,  5,-30,
    -30,  0, 15, 20, 20, 15,  0,-30,
    -30,  5, 10, 15, 15, 10,  5,-30,
    -40,-20,  0,  5,  5,  0,-20,-40,
    -50,-40,-30,-30,-30,-30,-40,-50,
];

pub const BISHOP_PST: [i32; 64] = [
    -20,-10,-10,-10,-10,-10,-10,-20,
    -10,  0,  0,  0,  0,  0,  0,-10,
    -10,  0,  5, 10, 10,  5,  0,-10,
    -10,  5,  5, 10, 10,  5,  5,-10,
    -10,  0, 10, 10, 10, 10,  0,-10,
    -10, 10, 10, 10, 10, 10, 10,-10,
    -10,  5,  0,  0,  0,  0,  5,-10,
    -20,-10,-10,-10,-10,-10,-10,-20,
];

pub const ROOK_PST: [i32; 64] = [
     0,  0,  0,  0,  0,  0,  0,  0,
     5, 10, 10, 10, 10, 10, 10,  5,
    -5,  0,  0,  0,  0,  0,  0, -5,
    -5,  0,  0,  0,  0,  0,  0, -5,
    -5,  0,  0,  0,  0,  0,  0, -5,
    -5,  0,  0,  0,  0,  0,  0, -5,
    -5,  0,  0,  0,  0,  0,  0, -5,
     0,  0,  0,  5,  5,  0,  0,  0,
];

pub const KING_MG_PST: [i32; 64] = [
    -30,-40,-40,-50,-50,-40,-40,-30,
    -30,-40,-40,-50,-50,-40,-40,-30,
    -30,-40,-40,-50,-50,-40,-40,-30,
    -30,-40,-40,-50,-50,-40,-40,-30,
    -20,-30,-30,-40,-40,-30,-30,-20,
    -10,-20,-20,-20,-20,-20,-20,-10,
     20, 20,  0,  0,  0,  0, 20, 20,
     20, 30, 10,  0,  0, 10, 30, 20,
];

pub const CHECKMATE_SCORE: i32 = 100_000;
pub const DRAW_SCORE: i32 = 0;

/// The piece-square value of kind index `p` on square `sq` (the queen uses the
/// pawn table).
pub open spec fn pst_spec(p: int, sq: int) -> i32 {
    if p == 0 || p == 4 {
        PAWN_PST[sq]
    } else if p == 1 {
        KNIGHT_PST[sq]
    } else if p == 2 {
        BISHOP_PST[sq]
    } else if p == 3 {
        ROOK_PST[sq]
    } else {
        KING_MG_PST[sq]
    }
}

/// Every table entry lies within -50..50.
pub proof fn lemma_pst_bounds(p: int, sq: int)
    requires
        0 <= p < 6,
        0 <= sq < 64,
    ensures
        -50 <= pst_spec(p, sq) <= 50,
{
    assert(forall|i: int| 0 <= i < 64 ==> -50 <= #[trigger] PAWN_PST[i] <= 50);
    assert(forall|i: int| 0 <= i < 64 ==> -50 <= #[trigger] KNIGHT_PST[i] <= 50);
    assert(forall|i: int| 0 <= i < 64 ==> -50 <= #[trigger] BISHOP_PST[i] <= 50);
    assert(forall|i: int| 0 <= i < 64 ==> -50 <= #[trigger] ROOK_PST[i] <= 50);
    assert(forall|i: int| 0 <= i < 64 ==> -50 <= #[trigger] KING_MG_PST[i] <= 50);
}

fn pst(p: usize, sq: usize) -> (r: i32)
    requires
        p < 6,
        sq < 64,
    ensures
        r == pst_spec(p as int, sq as int),
{
    if p == 0 || p == 4 {
        PAWN_PST[sq]
    } else if p == 1 {
        KNIGHT_PST[sq]
    } else if p == 2 {
        BISHOP_PST[sq]
    } else if p == 3 {
        ROOK_PST[sq]
    } else {
        KING_MG_PST[sq]
    }
}

// ── Evaluation: specification ─────────────────────────────────────────────────

/// The table square of `sq` for color index `c` (Black reads the table with
/// the ranks mirrored).
pub open spec fn pst_square(c: int, sq: u32) -> int {
    if c == 0 {
        sq as int
    } else {
        (sq ^ 56) as int
    }
}

/// Material plus piece-square value of pieces of color index `c` and kind
/// index `p` on the squares `sqs`.
pub open spec fn material(c: int, p: int, sqs: Seq<u32>) -> int
    decreases sqs.len(),
{
    if sqs.len() == 0 {
        0
    } else {
        PIECE_VALUES[p] + pst_spec(p, pst_square(c, sqs[0])) + material(c, p, sqs.drop_first())
    }
}

/// Sum of `weight` times the number of attacked squares not holding own
/// pieces, over the pieces on `sqs`, with `attacks` giving each attack set.
pub open spec fn mobility_sum(sqs: Seq<u32>, attacks: spec_fn(u64) -> u64, our: u64, weight: int) -> int
    decreases sqs.len(),
{
    if sqs.len() == 0 {
        0
    } else {
        ones(attacks(sqs[0] as u64) & !our) * weight + mobility_sum(
            sqs.drop_first(),
            attacks,
            our,
            weight,
        )
    }
}

/// Mobility of color `c`: 4 per knight square, 3 per bishop square, 2 per
/// rook square.
pub open spec fn mobility_spec(b: Board, c: Color, occ: u64) -> int {
    let our = color_set(b, c);
    mobility_sum(squares(pieces_of(b, c, Piece::Knight)), |s: u64| knight_set(s), our, 4)
        + mobility_sum(squares(pieces_of(b, c, Piece::Bishop)), |s: u64| bishop_set(s, occ), our, 3)
        + mobility_sum(squares(pieces_of(b, c, Piece::Rook)), |s: u64| rook_set(s, occ), our, 2)
}

/// Material of the first `n` kinds of color index `c`.
pub open spec fn material_upto(b: Board, c: int, n: int) -> int
    decreases n,
{
    if n <= 0 {
        0
    } else {
        material_upto(b, c, n - 1) + material(c, n - 1, squares(b.pieces[c][n - 1]))
    }
}

/// Everything color index `c` scores for itself.
pub open spec fn side_score(b: Board, c: int) -> int {
    material_upto(b, c, 6) + mobility_spec(b, if c == 0 { Color::White } else { Color::Black }, occupied_set(b))
        + if ones(b.pieces[c][2]) >= 2 { 30int } else { 0int }
}

/// The evaluation: White's score minus Black's.
#[verifier::opaque]
pub open spec fn eval_spec(b: Board) -> int {
    side_score(b, 0) - side_score(b, 1)
}

/// `x` counted for White (color index 0) or against it.
pub open spec fn signed(c: int, x: int) -> int {
    if c == 0 {
        x
    } else {
        -x
    }
}

proof fn lemma_sign(sign: int, c: int, x: int)
    requires
        sign == if c == 0 { 1int } else { -1int },
    ensures
        sign * x == signed(c, x),
{
    if c == 0 {
        assert(sign * x == x) by (nonlinear_arith) requires sign == 1;
    } else {
        assert(sign * x == -x) by (nonlinear_arith) requires sign == -1;
    }
}

// ── Bounds ────────────────────────────────────────────────────────────────────

proof fn lemma_material_bound(c: int, p: int, sqs: Seq<u32>)
    requires
        0 <= c < 2,
        0 <= p < 6,
        forall|k: int| 0 <= k < sqs.len() ==> #[trigger] sqs[k] < 64,
    ensures
        -21000 * sqs.len() <= material(c, p, sqs) <= 21000 * sqs.len(),
    decreases sqs.len(),
{
    if sqs.len() > 0 {
        assert(forall|k: int| 0 <= k < sqs.drop_first().len() ==> sqs.drop_first()[k] == sqs[k + 1]);
        lemma_material_bound(c, p, sqs.drop_first());
        lemma_flip_square(sqs[0]);
        lemma_pst_bounds(p, pst_square(c, sqs[0]));
        assert(0 < PIECE_VALUES[p] <= 20000);
    }
}

proof fn lemma_flip_square(sq: u32)
    requires
        sq < 64,
    ensures
        (sq ^ 56) < 64,
{
    assert(sq < 64 ==> (sq ^ 56) < 64) by (bit_vector);
}

proof fn lemma_mobility_bound(sqs: Seq<u32>, attacks: spec_fn(u64) -> u64, our: u64, weight: int)
    requires
        0 <= weight <= 4,
    ensures
        0 <= mobility_sum(sqs, attacks, our, weight) <= 64 * weight * sqs.len(),
    decreases sqs.len(),
{
    if sqs.len() > 0 {
        lemma_mobility_bound(sqs.drop_first(), attacks, our, weight);
        lemma_ones_below_bound(attacks(sqs[0] as u64) & !our, 64);
        assert(0 <= ones(attacks(sqs[0] as u64) & !our) * weight <= 64 * weight) by (nonlinear_arith)
            requires
                0 <= ones(attacks(sqs[0] as u64) & !our) <= 64,
                0 <= weight <= 4,
        ;
        assert(64 * weight * (sqs.len() - 1) + 64 * weight == 64 * weight * sqs.len())
            by (nonlinear_arith);
    }
}

proof fn lemma_squares_small(bb: u64)
    ensures
        squares(bb).len() <= 64,
        forall|k: int| 0 <= k < squares(bb).len() ==> #[trigger] squares(bb)[k] < 64,
{
    lemma_squares(bb);
    lemma_ones_below_bound(bb, 64);
    assert forall|k: int| 0 <= k < squares(bb).len() implies #[trigger] squares(bb)[k] < 64 by {
        assert(bit_set(bb, squares(bb)[k] as u64));
    }
}

proof fn lemma_material_upto_bound(b: Board, c: int, n: int)
    requires
        0 <= c < 2,
        0 <= n <= 6,
    ensures
        -1344000 * n <= material_upto(b, c, n) <= 1344000 * n,
    decreases n,
{
    if n > 0 {
        lemma_material_upto_bound(b, c, n - 1);
        let sqs = squares(b.pieces[c][n - 1]);
        lemma_squares_small(b.pieces[c][n - 1]);
        lemma_material_bound(c, n - 1, sqs);
    }
}

// ── Evaluation ────────────────────────────────────────────────────────────────

/// The static evaluation of a position, from White's perspective.
pub fn evaluate(board: &Board) -> (score: i32)
    ensures
        score == eval_spec(*board),
        -20_000_000 <= score <= 20_000_000,
{
    let mut score: i32 = 0;
    let mut c: usize = 0;
    proof {
        reveal(eval_spec);
    }
    while c < 2
        invariant
            c <= 2,
            score == (if c >= 1 { side_score(*board, 0) } else { 0 }) - (if c >= 2 {
                side_score(*board, 1)
            } else {
                0
            }),
            -10_000_000 * c <= score <= 10_000_000 * c,
        decreases 2 - c,
    {
        let ghost score_c = score;
        let sign: i32 = if c == 0 {
            1
        } else {
            -1
        };
        let mut p: usize = 0;
        while p < 6
            invariant
                c < 2,
                p <= 6,
                sign == if c == 0 { 1int } else { -1int },
                score == score_c + signed(c as int, material_upto(*board, c as int, p as int)),
                -10_000_000 * c <= score_c <= 10_000_000 * c,
            decreases 6 - p,
        {
            let mut bb = board.pieces[c][p];
            let ghost bb0 = bb;
            let ghost score_p = score;
            proof {
                lemma_material_upto_bound(*board, c as int, p as int);
                lemma_squares_small(bb0);
                lemma_squares(bb0);
            }
            while bb != 0
                invariant
                    c < 2,
                    p < 6,
                    sign == if c == 0 { 1int } else { -1int },
                    score + signed(c as int, material(c as int, p as int, squares(bb))) == score_p
                        + signed(c as int, material(c as int, p as int, squares(bb0))),
                    -(squares(bb0).len() - squares(bb).len()) * 21000 <= score - score_p <= (squares(
                        bb0,
                    ).len() - squares(bb).len()) * 21000,
                    squares(bb).len() <= squares(bb0).len() <= 64,
                    score_p == score_c + signed(c as int, material_upto(*board, c as int, p as int)),
                    -10_000_000 * c <= score_c <= 10_000_000 * c,
                    -1344000 * p <= material_upto(*board, c as int, p as int) <= 1344000 * p,
                decreases bb,
            {
                let ghost b0 = bb;
                let sq = pop_lsb(&mut bb);
                proof {
                    lemma_flip_square(sq);
                    assert(squares(b0).drop_first() =~= squares(bb));
                    assert(squares(b0)[0] == sq);
                }
                let pst_sq = if c == 0 {
                    sq
                } else {
                    sq ^ 56
                };
                proof {
                    lemma_pst_bounds(p as int, pst_sq as int);
                    assert(0 < PIECE_VALUES[p as int] <= 20000);
                    assert(pst_sq as int == pst_square(c as int, sq));
                    let v = PIECE_VALUES[p as int] + pst_spec(p as int, pst_sq as int);
                    assert(material(c as int, p as int, squares(b0)) == v + material(
                        c as int,
                        p as int,
                        squares(bb),
                    ));
                    assert(-1344000 * 6 <= material_upto(*board, c as int, p as int) <= 1344000 * 6);
                    lemma_sign(sign as int, c as int, v as int);
                }
                score += sign * (PIECE_VALUES[p] + pst(p, pst_sq as usize));
            }
            proof {
                assert(squares(0) =~= Seq::<u32>::empty());
                assert(material(c as int, p as int, squares(bb)) == 0);
                assert(material_upto(*board, c as int, p as int + 1) == material_upto(
                    *board,
                    c as int,
                    p as int,
                ) + material(c as int, p as int, squares(bb0)));
                if c == 0 {
                } else {
                }
            }
            p += 1;
        }
        proof {
            lemma_material_upto_bound(*board, c as int, 6);
        }
        // Mobility bonus: count squares attacked by our pieces.
        let occ = board.occupied();
        let mob = mobility_score(
            board,
            if c == 0 {
                Color::White
            } else {
                Color::Black
            },
            occ,
        );
        score += sign * mob;
        // Bishop pair bonus
        if popcount(board.pieces[c][2]) >= 2 {
            score += sign * 30;
        }
        c += 1;
    }
    score
}

fn mobility_score(board: &Board, c: Color, occ: Bitboard) -> (mob: i32)
    ensures
        mob == mobility_spec(*board, c, occ),
        0 <= mob <= 64 * 64 * 9,
{
    let our = board.color_bb(c);
    let mut mob: i32 = 0;
    let ghost kn = |s: u64| knight_set(s);
    let ghost bi = |s: u64| bishop_set(s, occ);
    let ghost ro = |s: u64| rook_set(s, occ);

    let mut knights = board.piece_bb(c, Piece::Knight);
    let ghost k0 = knights;
    proof {
        lemma_squares_small(k0);
        lemma_mobility_bound(squares(k0), kn, our, 4);
    }
    while knights != 0
        invariant
            mob + mobility_sum(squares(knights), kn, our, 4) == mobility_sum(squares(k0), kn, our, 4),
            0 <= mobility_sum(squares(k0), kn, our, 4) <= 64 * 64 * 4,
            kn == (|s: u64| knight_set(s)),
        decreases knights,
    {
        let ghost b0 = knights;
        let sq = pop_lsb(&mut knights);
        proof {
            assert(squares(b0).drop_first() =~= squares(knights));
            lemma_mobility_bound(squares(knights), kn, our, 4);
        }
        mob += popcount(knight_attacks(sq) & !our) as i32 * 4;
    }
    let ghost m1 = mob;
    let mut bishops = board.piece_bb(c, Piece::Bishop);
    let ghost bs0 = bishops;
    proof {
        assert(squares(0) =~= Seq::<u32>::empty());
        lemma_squares_small(bs0);
        lemma_mobility_bound(squares(bs0), bi, our, 3);
    }
    while bishops != 0
        invariant
            mob + mobility_sum(squares(bishops), bi, our, 3) == m1 + mobility_sum(squares(bs0), bi, our, 3),
            0 <= mobility_sum(squares(bs0), bi, our, 3) <= 64 * 64 * 3,
            0 <= m1 <= 64 * 64 * 4,
            bi == (|s: u64| bishop_set(s, occ)),
        decreases bishops,
    {
        let ghost b0 = bishops;
        let sq = pop_lsb(&mut bishops);
        proof {
            assert(squares(b0).drop_first() =~= squares(bishops));
            lemma_mobility_bound(squares(bishops), bi, our, 3);
        }
        mob += popcount(bishop_attacks(sq, occ) & !our) as i32 * 3;
    }
    let ghost m2 = mob;
    let mut rooks = board.piece_bb(c, Piece::Rook);
    let ghost r0 = rooks;
    proof {
        lemma_squares_small(r0);
        lemma_mobility_bound(squares(r0), ro, our, 2);
    }
    while rooks != 0
        invariant
            mob + mobility_sum(squares(rooks), ro, our, 2) == m2 + mobility_sum(squares(r0), ro, our, 2),
            0 <= mobility_sum(squares(r0), ro, our, 2) <= 64 * 64 * 2,
            0 <= m2 <= 64 * 64 * 7,
            ro == (|s: u64| rook_set(s, occ)),
        decreases rooks,
    {
        let ghost b0 = rooks;
        let sq = pop_lsb(&mut rooks);
        proof {
            assert(squares(b0).drop_first() =~= squares(rooks));
            lemma_mobility_bound(squares(rooks), ro, our, 2);
        }
        mob += popcount(rook_attacks(sq, occ) & !our) as i32 * 2;
    }
    mob
}

// ── Laws of the evaluation ────────────────────────────────────────────────────

/// The piece-square table entry of kind index `k` (pawn, knight, bishop,
/// rook, queen, king) on table square `sq`; queens read the pawn table.
pub open spec fn table_entry(k: int, sq: int) -> int {
    if k == 0 || k == 4 {
        PAWN_PST[sq] as int
    } else if k == 1 {
        KNIGHT_PST[sq] as int
    } else if k == 2 {
        BISHOP_PST[sq] as int
    } else if k == 3 {
        ROOK_PST[sq] as int
    } else {
        KING_MG_PST[sq] as int
    }
}

/// Black reads the tables with the ranks mirrored, and each kind its own
/// table.
proof fn lemma_table_entry(c: int, k: int, s: u64)
    requires
        0 <= c < 2,
        0 <= k < 6,
        s < 64,
    ensures
        pst_spec(k, pst_square(c, s as u32)) == table_entry(k, if c == 0 { s as int } else { (s ^ 56) as int }),
{
    assert((s as u32 ^ 56u32) as int == (s ^ 56) as int) by (bit_vector)
        requires
            s < 64;
}


/// One more square `s` in a set of pieces adds that piece's value and table
/// entry on `s` to their material.
proof fn lemma_material_insert(c: int, p: int, bb: u64, s: u64)
    requires
        s < 64,
        !bit_set(bb, s),
        0 <= p < 6,
    ensures
        material(c, p, squares(bb | (1u64 << s))) == material(c, p, squares(bb)) + PIECE_VALUES[p]
            + pst_spec(p, pst_square(c, s as u32)),
    decreases bb,
{
    let x = bb | (1u64 << s);
    assert forall|i: u64| i < 64 implies (bit_set(x, i) <==> (bit_set(bb, i) || i == s)) by {
        lemma_bit_ops(bb, 1u64 << s, i);
        lemma_single(s, i);
    }
    assert(bit_set(x, s));
    lemma_empty(x);
    lemma_without_lowest(x);
    let lx = lowest(x);
    let wx = without_lowest(x);
    assert(squares(x) == seq![lx as u32] + squares(wx));
    assert((seq![lx as u32] + squares(wx))[0] == lx as u32);
    assert((seq![lx as u32] + squares(wx)).drop_first() =~= squares(wx));
    if bb == 0 {
        lemma_empty(bb);
        assert(lx == s);
        assert forall|i: u64| i < 64 implies !bit_set(wx, i) by {}
        lemma_empty(wx);
        assert(squares(wx) =~= Seq::<u32>::empty());
        assert(squares(bb) =~= Seq::<u32>::empty());
    } else {
        lemma_without_lowest(bb);
        let l = lowest(bb);
        assert(l != s);
        if s < l {
            assert(lx == s) by {
                if lx < s {
                    assert(bit_set(x, lx));
                    assert(!bit_set(bb, lx));
                }
            }
            assert forall|i: u64| i < 64 implies (bit_set(wx, i) <==> bit_set(bb, i)) by {}
            lemma_bits_ext(wx, bb);
        } else {
            assert(lx == l) by {
                if lx < l {
                    assert(bit_set(x, lx));
                    assert(!bit_set(bb, lx));
                }
                assert(bit_set(x, l));
            }
            let wb = without_lowest(bb);
            assert forall|i: u64| i < 64 implies (bit_set(wb | (1u64 << s), i) <==> (bit_set(wb, i) || i == s)) by {
                lemma_bit_ops(wb, 1u64 << s, i);
                lemma_single(s, i);
            }
            assert forall|i: u64| i < 64 implies (bit_set(wx, i) <==> bit_set(wb | (1u64 << s), i)) by {
                lemma_bit_ops(wb, 1u64 << s, i);
                lemma_single(s, i);
                lemma_bit_ops(bb, 1u64 << s, i);
                assert(bit_set(wx, i) <==> (bit_set(x, i) && i != lx));
                assert(bit_set(wb, i) <==> (bit_set(bb, i) && i != l));
            }
            lemma_bits_ext(wx, wb | (1u64 << s));
            assert(!bit_set(wb, s));
            lemma_material_insert(c, p, wb, s);
            assert(squares(bb) == seq![l as u32] + squares(wb));
            assert((seq![l as u32] + squares(wb))[0] == l as u32);
            assert((seq![l as u32] + squares(wb)).drop_first() =~= squares(wb));
        }
    }
}

/// The material of the first `n` kinds of each side, when the boards differ
/// only by one more piece of kind `k` of color index `c` on `s`.
proof fn lemma_material_upto_add(b: Board, b2: Board, c: int, k: int, s: u64, n: int)
    requires
        0 <= n <= 6,
        0 <= c < 2,
        0 <= k < 6,
        s < 64,
        !bit_set(b.pieces[c][k], s),
        b2.pieces[c][k] == b.pieces[c][k] | (1u64 << s),
        forall|d: int, j: int|
            0 <= d < 2 && 0 <= j < 6 && !(d == c && j == k) ==> #[trigger] b2.pieces[d][j] == b.pieces[d][j],
    ensures
        material_upto(b2, c, n) == material_upto(b, c, n) + if n > k {
            PIECE_VALUES[k] + pst_spec(k, pst_square(c, s as u32))
        } else {
            0
        },
        material_upto(b2, 1 - c, n) == material_upto(b, 1 - c, n),
    decreases n,
{
    if n > 0 {
        lemma_material_upto_add(b, b2, c, k, s, n - 1);
        if n - 1 == k {
            lemma_material_insert(c, k, b.pieces[c][k], s);
        } else {
            assert(b2.pieces[c][n - 1] == b.pieces[c][n - 1]);
        }
        assert(b2.pieces[1 - c][n - 1] == b.pieces[1 - c][n - 1]);
    }
}

/// Pawns, queens and kings count with their value and table entry: on a
/// board without knights, bishops or rooks (so that mobility stays nothing),
/// one more such piece of either color on an empty square moves the
/// evaluation by its value plus its table entry on that square, up for
/// White and down for Black.
pub proof fn law_eval_counts_each_piece(b: Board, b2: Board, c: int, k: int, s: u64)
    requires
        0 <= c < 2,
        k == 0 || k == 4 || k == 5,
        s < 64,
        !bit_set(occupied_set(b), s),
        b2.pieces[c][k] == b.pieces[c][k] | (1u64 << s),
        forall|d: int, j: int|
            0 <= d < 2 && 0 <= j < 6 && !(d == c && j == k) ==> #[trigger] b2.pieces[d][j] == b.pieces[d][j],
        forall|d: int| 0 <= d < 2 ==> b.pieces[d][1] == 0 && b.pieces[d][2] == 0 && b.pieces[d][3] == 0,
    ensures
        eval_spec(b2) == eval_spec(b) + (if c == 0 { 1int } else { -1int }) * (PIECE_VALUES[k] + table_entry(
            k,
            if c == 0 { s as int } else { (s ^ 56) as int },
        )),
{
    reveal(eval_spec);
    lemma_table_entry(c, k, s);
    lemma_bit_ops(color_set(b, Color::White), color_set(b, Color::Black), s);
    let r = b.pieces[c];
    lemma_bit_ops(r[0] | r[1] | r[2] | r[3] | r[4], r[5], s);
    lemma_bit_ops(r[0] | r[1] | r[2] | r[3], r[4], s);
    lemma_bit_ops(r[0] | r[1] | r[2], r[3], s);
    lemma_bit_ops(r[0] | r[1], r[2], s);
    lemma_bit_ops(r[0], r[1], s);
    assert(!bit_set(b.pieces[c][k], s));
    lemma_material_upto_add(b, b2, c, k, s, 6);
    assert(b2.pieces[0][1] == 0 && b2.pieces[0][2] == 0 && b2.pieces[0][3] == 0);
    assert(b2.pieces[1][1] == 0 && b2.pieces[1][2] == 0 && b2.pieces[1][3] == 0);
    lemma_empty(0u64);
    assert(squares(0u64) =~= Seq::<u32>::empty());
    let delta = PIECE_VALUES[k] + pst_spec(k, pst_square(c, s as u32));
    assert(mobility_spec(b2, Color::White, occupied_set(b2)) == 0);
    assert(mobility_spec(b2, Color::Black, occupied_set(b2)) == 0);
    assert(mobility_spec(b, Color::White, occupied_set(b)) == 0);
    assert(mobility_spec(b, Color::Black, occupied_set(b)) == 0);
    if c == 0 {
        assert(side_score(b2, 0) == side_score(b, 0) + delta);
        assert(side_score(b2, 1) == side_score(b, 1));
    } else {
        assert(side_score(b2, 1) == side_score(b, 1) + delta);
        assert(side_score(b2, 0) == side_score(b, 0));
    }
}

/// Every piece kind counts: on a board without knights, bishops or rooks
/// (so that mobility stays nothing), one more White pawn on an empty square
/// raises the evaluation by a pawn's value plus that square's pawn table
/// entry.
pub proof fn law_eval_counts_a_pawn(b: Board, b2: Board, s: u64)
    requires
        s < 64,
        !bit_set(occupied_set(b), s),
        b2.pieces[0][0] == b.pieces[0][0] | (1u64 << s),
        forall|c: int, k: int|
            0 <= c < 2 && 0 <= k < 6 && !(c == 0 && k == 0) ==> #[trigger] b2.pieces[c][k] == b.pieces[c][k],
        forall|c: int| 0 <= c < 2 ==> b.pieces[c][1] == 0 && b.pieces[c][2] == 0 && b.pieces[c][3] == 0,
    ensures
        eval_spec(b2) == eval_spec(b) + PAWN_VAL + PAWN_PST[s as int],
{
    law_eval_counts_each_piece(b, b2, 0, 0, s);
}

/// The squares of a single square's board.
proof fn lemma_squares_single(s: u64)
    requires
        s < 64,
    ensures
        squares(1u64 << s) == seq![s as u32],
        ones(1u64 << s) == 1,
        0u64 | (1u64 << s) == 1u64 << s,
{
    let x = 1u64 << s;
    assert forall|i: u64| i < 64 implies (bit_set(x, i) <==> i == s) by {
        lemma_single(s, i);
    }
    assert(bit_set(x, s));
    lemma_empty(x);
    lemma_without_lowest(x);
    assert(lowest(x) == s);
    assert forall|i: u64| i < 64 implies !bit_set(without_lowest(x), i) by {}
    lemma_empty(without_lowest(x));
    lemma_empty(0u64);
    assert(squares(without_lowest(x)) =~= Seq::<u32>::empty());
    assert(squares(x) =~= seq![s as u32]);
    lemma_squares(x);
    assert forall|i: u64| i < 64 implies (bit_set(0u64 | x, i) <==> bit_set(x, i)) by {
        lemma_bit_ops(0u64, x, i);
    }
    lemma_bits_ext(0u64 | x, x);
}

/// Knights, bishops and rooks count with their value, their table entry and
/// their mobility: on a board without other knights, bishops or rooks, one
/// such piece of either color on an empty square moves the evaluation by its
/// value, its table entry on that square and its weight (4 for a knight, 3
/// for a bishop, 2 for a rook) times the number of squares it attacks that
/// hold no piece of its own color, up for White and down for Black.
pub proof fn law_eval_counts_a_minor_or_rook(b: Board, b2: Board, c: int, k: int, s: u64)
    requires
        0 <= c < 2,
        1 <= k <= 3,
        s < 64,
        !bit_set(occupied_set(b), s),
        b2.pieces[c][k] == 1u64 << s,
        forall|d: int, j: int|
            0 <= d < 2 && 0 <= j < 6 && !(d == c && j == k) ==> #[trigger] b2.pieces[d][j] == b.pieces[d][j],
        forall|d: int| 0 <= d < 2 ==> b.pieces[d][1] == 0 && b.pieces[d][2] == 0 && b.pieces[d][3] == 0,
    ensures
        ({
            let col = if c == 0 { Color::White } else { Color::Black };
            let ours = color_set(b2, col);
            let occ = occupied_set(b2);
            let mobility = if k == 1 {
                4 * ones(knight_set(s) & !ours)
            } else if k == 2 {
                3 * ones(bishop_set(s, occ) & !ours)
            } else {
                2 * ones(rook_set(s, occ) & !ours)
            };
            eval_spec(b2) == eval_spec(b) + (if c == 0 { 1int } else { -1int }) * (PIECE_VALUES[k] + table_entry(
                k,
                if c == 0 { s as int } else { (s ^ 56) as int },
            ) + mobility)
        }),
{
    reveal(eval_spec);
    lemma_table_entry(c, k, s);
    lemma_squares_single(s);
    lemma_bit_ops(color_set(b, Color::White), color_set(b, Color::Black), s);
    let r = b.pieces[c];
    lemma_bit_ops(r[0] | r[1] | r[2] | r[3] | r[4], r[5], s);
    lemma_bit_ops(r[0] | r[1] | r[2] | r[3], r[4], s);
    lemma_bit_ops(r[0] | r[1] | r[2], r[3], s);
    lemma_bit_ops(r[0] | r[1], r[2], s);
    lemma_bit_ops(r[0], r[1], s);
    assert(b.pieces[c][k] == 0);
    assert(!bit_set(b.pieces[c][k], s)) by {
        lemma_empty(0u64);
    }
    assert(b2.pieces[c][k] == b.pieces[c][k] | (1u64 << s));
    lemma_material_upto_add(b, b2, c, k, s, 6);
    lemma_empty(0u64);
    assert(squares(0u64) =~= Seq::<u32>::empty());
    let col = if c == 0 { Color::White } else { Color::Black };
    let other = if c == 0 { Color::Black } else { Color::White };
    let ours = color_set(b2, col);
    let occ = occupied_set(b2);
    let one = seq![s as u32];
    assert(one[0] as u64 == s);
    assert(one.drop_first() =~= Seq::<u32>::empty());
    let mob = if k == 1 {
        4 * ones(knight_set(s) & !ours)
    } else if k == 2 {
        3 * ones(bishop_set(s, occ) & !ours)
    } else {
        2 * ones(rook_set(s, occ) & !ours)
    };
    assert(col.idx() == c);
    assert(other.idx() == 1 - c);
    lemma_squares(0u64);
    let kn = |q: u64| knight_set(q);
    let bi = |q: u64| bishop_set(q, occ);
    let ro = |q: u64| rook_set(q, occ);
    let e = Seq::<u32>::empty();
    assert(mobility_sum(e, kn, ours, 4) == 0);
    assert(mobility_sum(e, bi, ours, 3) == 0);
    assert(mobility_sum(e, ro, ours, 2) == 0);
    if k == 1 {
        assert(pieces_of(b2, col, Piece::Knight) == 1u64 << s);
        assert(pieces_of(b2, col, Piece::Bishop) == 0);
        assert(pieces_of(b2, col, Piece::Rook) == 0);
        assert(mobility_sum(one, kn, ours, 4) == ones(knight_set(s) & !ours) * 4 + mobility_sum(one.drop_first(), kn, ours, 4));
        assert(ones(b2.pieces[c][2]) == 0);
    } else if k == 2 {
        assert(pieces_of(b2, col, Piece::Knight) == 0);
        assert(pieces_of(b2, col, Piece::Bishop) == 1u64 << s);
        assert(pieces_of(b2, col, Piece::Rook) == 0);
        assert(mobility_sum(one, bi, ours, 3) == ones(bishop_set(s, occ) & !ours) * 3 + mobility_sum(one.drop_first(), bi, ours, 3));
        assert(ones(b2.pieces[c][2]) == 1);
    } else {
        assert(pieces_of(b2, col, Piece::Knight) == 0);
        assert(pieces_of(b2, col, Piece::Bishop) == 0);
        assert(pieces_of(b2, col, Piece::Rook) == 1u64 << s);
        assert(mobility_sum(one, ro, ours, 2) == ones(rook_set(s, occ) & !ours) * 2 + mobility_sum(one.drop_first(), ro, ours, 2));
        assert(ones(b2.pieces[c][2]) == 0);
    }
    assert(mobility_spec(b2, col, occ) == mob);
    assert(mobility_spec(b2, other, occ) == 0);
    assert(mobility_spec(b, Color::White, occupied_set(b)) == 0);
    assert(mobility_spec(b, Color::Black, occupied_set(b)) == 0);
    assert(ones(b2.pieces[c][2]) < 2);
    assert(ones(b2.pieces[1 - c][2]) == ones(b.pieces[1 - c][2]));
    let delta = PIECE_VALUES[k] + pst_spec(k, pst_square(c, s as u32));
    if c == 0 {
        assert(side_score(b2, 0) == side_score(b, 0) + delta + mob);
        assert(side_score(b2, 1) == side_score(b, 1));
        assert(eval_spec(b2) == eval_spec(b) + (delta + mob));
        assert((if c == 0 { 1int } else { -1int }) * (delta + mob) == delta + mob);
    } else {
        assert(side_score(b2, 1) == side_score(b, 1) + delta + mob);
        assert(side_score(b2, 0) == side_score(b, 0));
        assert(eval_spec(b2) == eval_spec(b) - (delta + mob));
        assert((if c == 0 { 1int } else { -1int }) * (delta + mob) == -(delta + mob));
    }
}

} // verus!
