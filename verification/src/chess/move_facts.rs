//! What holds of every move the generator makes: it can be made, taken back,
//! and it never removes the mover's own king.

use vstd::prelude::*;
use crate::chess::piece::{Class, Color, Piece};
use crate::chess::moves::{Move, MoveFlag};
use crate::chess::board::{BoardModel, color_bits, piece_bits, occupied_bits, lemma_bits_where};
use crate::chess::rules::{
    attacker_of, pawn_hits, bishop_hits, rook_hits, piece_of, is_promo, is_castle, rook_squares, playable, restorable, make_spec, squares_after,
    has_king, king_bits_of, ready, push_dir, start_rank, promo_rank, pawn_step_moves, pawn_pushes,
    pawn_capture, pawn_moves_from, pawn_moves_over, target_moves, attack_bits, piece_moves_over,
    class_moves, castle_move, castle_moves, pseudo_moves, relocated, placed_piece, ep_victim,
    in_check, attacked, legal_moves, keeps_king_safe,
};
use crate::engine::bitboard::{bit_set, squares, lemma_squares, lemma_empty, lemma_bit_ops};
use crate::engine::movegen::{knight_step, king_step};
use crate::chess::rays::{lemma_rook_symmetric, lemma_bishop_symmetric};

verus! {

/// `q` is a piece of `side`.
pub open spec fn own_piece(q: Piece, side: Color) -> bool {
    side.idx() * 6 <= q.idx() < side.idx() * 6 + 6
}

/// What the generator guarantees of a move it makes from `m`: a piece of the
/// side to move leaves its square for one not held by its own side, and
/// attacks that square when it takes a piece there; en
/// passant captures and promotions are made by pawns, double pushes from the
/// start rank; castling moves the king from its starting square two files
/// over, with the rook's target square empty.
pub open spec fn gen_facts(m: BoardModel, mv: Move) -> bool {
    let side = m.1;
    let from = mv.from_sq();
    let to = mv.to_sq();
    let flag = mv.flag_of();
    let p = m.0[from];
    &&& own_piece(p, side)
    &&& !own_piece(m.0[to], side)
    &&& from != to
    &&& !(m.0[to] is NoPiece) ==> attacker_of(m.0, to, side, from)
    &&& flag == MoveFlag::DoublePawnPush ==> p == piece_of(Class::Pawn, side) && from / 8 == start_rank(side)
        && to == from + 2 * push_dir(side) && m.0[from + push_dir(side)] is NoPiece
    &&& flag == MoveFlag::EpCapture ==> p == piece_of(Class::Pawn, side) && m.2 == Some(to)
    &&& is_promo(flag) ==> p == piece_of(Class::Pawn, side)
    &&& is_castle(flag) ==> {
        &&& p == piece_of(Class::King, side)
        &&& from == if side == Color::White { 4int } else { 60int }
        &&& to == if flag == MoveFlag::KingCastle { from + 2 } else { from - 2 }
        &&& m.0[rook_squares(flag, side).1] is NoPiece
        &&& castle_path_safe(m, mv)
    }
}

/// A castling move needs its right; the king starts out of check and
/// crosses, and lands on, only
/// empty squares the opponent does not attack: f1 and g1 (f8, g8) king-side,
/// d1 and c1 (d8, c8) queen-side, where b1 (b8) must be empty too.
#[verifier::opaque]
pub open spec fn castle_path_safe(m: BoardModel, mv: Move) -> bool {
    let them = m.1.other();
    let white = m.1 == Color::White;
    let (a, b) = if mv.flag_of() == MoveFlag::KingCastle {
        if white { (5int, 6int) } else { (61int, 62int) }
    } else {
        if white { (3int, 2int) } else { (59int, 58int) }
    };
    &&& m.3 & (if mv.flag_of() == MoveFlag::KingCastle {
        if white { 1u8 } else { 4u8 }
    } else {
        if white { 2u8 } else { 8u8 }
    }) != 0
    &&& !in_check(m, m.1)
    &&& m.0[a] is NoPiece
    &&& m.0[b] is NoPiece
    &&& !attacked(m.0, a, them)
    &&& !attacked(m.0, b, them)
    &&& mv.flag_of() == MoveFlag::QueenCastle ==> m.0[if white { 1int } else { 57int }] is NoPiece
}

/// Every move of `s` is one the generator may make from `m`.
pub open spec fn all_gen_facts(m: BoardModel, s: Seq<Move>) -> bool {
    forall|i: int| 0 <= i < s.len() ==> gen_facts(m, #[trigger] s[i])
}

/// A move can be made and taken back, and leaves the mover a king.
pub open spec fn move_ok(m: BoardModel, mv: Move) -> bool {
    &&& playable(m, mv)
    &&& restorable(m, mv)
    &&& has_king(make_spec(m, mv), m.1)
}

proof fn lemma_concat_facts(m: BoardModel, s: Seq<Move>, t: Seq<Move>)
    requires
        all_gen_facts(m, s),
        all_gen_facts(m, t),
    ensures
        all_gen_facts(m, s + t),
{
    assert forall|i: int| 0 <= i < (s + t).len() implies gen_facts(m, #[trigger] (s + t)[i]) by {
        if i < s.len() {
            assert((s + t)[i] == s[i]);
        } else {
            assert((s + t)[i] == t[i - s.len()]);
        }
    }
}

/// The square of a king of `c`, when it has one.
proof fn lemma_king_square(m: BoardModel, c: Color) -> (k: int)
    requires
        m.0.len() == 64,
        has_king(m, c),
    ensures
        0 <= k < 64,
        m.0[k] == piece_of(Class::King, c),
{
    let bb = king_bits_of(m.0, c);
    lemma_empty(bb);
    let i = choose|i: u64| i < 64 && bit_set(bb, i);
    lemma_bits_where(|j: int| m.0[j].idx() == c.idx() * 6 + 5, 64, i);
    i as int
}

/// A mailbox with a king of `c` on some square gives `c` a king.
proof fn lemma_has_king_at(m: BoardModel, c: Color, k: int)
    requires
        m.0.len() == 64,
        0 <= k < 64,
        m.0[k] == piece_of(Class::King, c),
    ensures
        has_king(m, c),
{
    let bb = king_bits_of(m.0, c);
    lemma_bits_where(|j: int| m.0[j].idx() == c.idx() * 6 + 5, 64, k as u64);
    lemma_empty(bb);
}

/// A generated move of a ready position can be made and taken back, and the
/// mover keeps a king.
pub proof fn lemma_move_ok(m: BoardModel, mv: Move)
    requires
        ready(m),
        gen_facts(m, mv),
    ensures
        move_ok(m, mv),
{
    mv.lemma_squares_on_board();
    let side = m.1;
    let from = mv.from_sq();
    let to = mv.to_sq();
    let flag = mv.flag_of();
    let p = m.0[from];
    assert(p.color_of() == side);
    if flag == MoveFlag::EpCapture {
        assert(m.2 == Some(to));
    }
    let after = make_spec(m, mv);
    let k = lemma_king_square(m, side);
    let king = piece_of(Class::King, side);
    if p == king {
        assert(!is_promo(flag));
        assert(placed_piece(p, flag) == p);
        assert(after.0[to] == king);
        lemma_has_king_at(after, side, to);
    } else {
        assert(k != from);
        assert(k != to);
        assert(!is_castle(flag));
        if flag == MoveFlag::EpCapture {
            assert(k != ep_victim(m, mv));
        }
        assert(after.0[k] == king);
        lemma_has_king_at(after, side, k);
    }
}

/// The moves of a pawn on `from` to `to`.
proof fn lemma_pawn_step_facts(m: BoardModel, from: int, to: int, promo: bool, capture: bool)
    requires
        0 <= from < 64,
        0 <= to < 64,
        from != to,
        m.0[from] == piece_of(Class::Pawn, m.1),
        !own_piece(m.0[to], m.1),
        !(m.0[to] is NoPiece) ==> attacker_of(m.0, to, m.1, from),
    ensures
        all_gen_facts(m, pawn_step_moves(from, to, promo, capture)),
{
    let s = pawn_step_moves(from, to, promo, capture);
    assert forall|i: int| 0 <= i < s.len() implies gen_facts(m, #[trigger] s[i]) by {
        if promo {
            if capture {
                Move::lemma_make(from, to, MoveFlag::KnightPromoCapture);
                Move::lemma_make(from, to, MoveFlag::BishopPromoCapture);
                Move::lemma_make(from, to, MoveFlag::RookPromoCapture);
                Move::lemma_make(from, to, MoveFlag::QueenPromoCapture);
            } else {
                Move::lemma_make(from, to, MoveFlag::KnightPromo);
                Move::lemma_make(from, to, MoveFlag::BishopPromo);
                Move::lemma_make(from, to, MoveFlag::RookPromo);
                Move::lemma_make(from, to, MoveFlag::QueenPromo);
            }
        } else {
            Move::lemma_make(from, to, MoveFlag::Capture);
            Move::lemma_make(from, to, MoveFlag::Quiet);
        }
    }
}

/// The moves of the pawn on `from`.
proof fn lemma_pawn_from_facts(m: BoardModel, from: int)
    requires
        ready(m),
        0 <= from < 64,
        m.0[from] == piece_of(Class::Pawn, m.1),
    ensures
        all_gen_facts(m, pawn_moves_from(m, from)),
{
    let side = m.1;
    // pushes
    let one = from + push_dir(side);
    if 0 <= one < 64 && m.0[one] is NoPiece {
        lemma_pawn_step_facts(m, from, one, one / 8 == promo_rank(side), false);
        let two = from + 2 * push_dir(side);
        if from / 8 == start_rank(side) && m.0[two] is NoPiece {
            Move::lemma_make(from, two, MoveFlag::DoublePawnPush);
            let d = seq![Move::make(from, two, MoveFlag::DoublePawnPush)];
            assert(all_gen_facts(m, d)) by {
                assert forall|i: int| 0 <= i < d.len() implies gen_facts(m, #[trigger] d[i]) by {
                    assert(d[i] == Move::make(from, two, MoveFlag::DoublePawnPush));
                }
            }
            lemma_concat_facts(m, pawn_step_moves(from, one, one / 8 == promo_rank(side), false), d);
        } else {
            assert(pawn_step_moves(from, one, one / 8 == promo_rank(side), false) + Seq::<Move>::empty()
                =~= pawn_step_moves(from, one, one / 8 == promo_rank(side), false));
        }
    }
    assert(all_gen_facts(m, pawn_pushes(m, from)));
    // captures
    assert forall|df: int| df == -1 || df == 1 implies all_gen_facts(m, #[trigger] pawn_capture(m, from, df)) by {
        let target = from + push_dir(side) + df;
        if !(0 <= from % 8 + df < 8) || !(0 <= target < 64) {
        } else if m.2 == Some(target) {
            Move::lemma_make(from, target, MoveFlag::EpCapture);
            assert(m.0[target] is NoPiece);
            let e = seq![Move::make(from, target, MoveFlag::EpCapture)];
            assert forall|i: int| 0 <= i < e.len() implies gen_facts(m, #[trigger] e[i]) by {
                assert(e[i] == Move::make(from, target, MoveFlag::EpCapture));
            }
        } else if !(m.0[target] is NoPiece) && m.0[target].color_of() != side {
            assert(m.0[from].class_of() == Class::Pawn);
            assert(pawn_hits(target, from, side.other()));
            lemma_pawn_step_facts(m, from, target, target / 8 == promo_rank(side), true);
        }
    }
    lemma_concat_facts(m, pawn_pushes(m, from), pawn_capture(m, from, -1));
    lemma_concat_facts(m, pawn_pushes(m, from) + pawn_capture(m, from, -1), pawn_capture(m, from, 1));
}

proof fn lemma_pawn_over_facts(m: BoardModel, sqs: Seq<u32>)
    requires
        ready(m),
        forall|k: int| 0 <= k < sqs.len() ==> (#[trigger] sqs[k]) < 64 && m.0[sqs[k] as int] == piece_of(Class::Pawn, m.1),
    ensures
        all_gen_facts(m, pawn_moves_over(m, sqs)),
    decreases sqs.len(),
{
    if sqs.len() > 0 {
        let rest = sqs.drop_first();
        assert forall|k: int| 0 <= k < rest.len() implies (#[trigger] rest[k]) < 64 && m.0[rest[k] as int] == piece_of(Class::Pawn, m.1) by {
            assert(rest[k] == sqs[k + 1]);
        }
        lemma_pawn_over_facts(m, rest);
        assert(sqs[0] < 64);
        lemma_pawn_from_facts(m, sqs[0] as int);
        lemma_concat_facts(m, pawn_moves_from(m, sqs[0] as int), pawn_moves_over(m, rest));
    }
}

/// The moves from `from` onto the squares of `sqs`, none held by the mover.
proof fn lemma_target_facts(m: BoardModel, from: int, sqs: Seq<u32>, enemy: u64)
    requires
        0 <= from < 64,
        own_piece(m.0[from], m.1),
        forall|k: int| 0 <= k < sqs.len() ==> (#[trigger] sqs[k]) < 64 && !own_piece(m.0[sqs[k] as int], m.1)
            && (!(m.0[sqs[k] as int] is NoPiece) ==> attacker_of(m.0, sqs[k] as int, m.1, from)),
    ensures
        all_gen_facts(m, target_moves(from, sqs, enemy)),
    decreases sqs.len(),
{
    if sqs.len() > 0 {
        let rest = sqs.drop_first();
        assert forall|k: int| 0 <= k < rest.len() implies (#[trigger] rest[k]) < 64 && !own_piece(m.0[rest[k] as int], m.1)
            && (!(m.0[rest[k] as int] is NoPiece) ==> attacker_of(m.0, rest[k] as int, m.1, from)) by {
            assert(rest[k] == sqs[k + 1]);
        }
        lemma_target_facts(m, from, rest, enemy);
        let to = sqs[0] as int;
        assert(to < 64);
        Move::lemma_make(from, to, MoveFlag::Capture);
        Move::lemma_make(from, to, MoveFlag::Quiet);
        let flag = if bit_set(enemy, sqs[0] as u64) {
            MoveFlag::Capture
        } else {
            MoveFlag::Quiet
        };
        let first = seq![Move::make(from, to, flag)];
        assert forall|i: int| 0 <= i < first.len() implies gen_facts(m, #[trigger] first[i]) by {
            assert(first[i] == Move::make(from, to, flag));
        }
        lemma_concat_facts(m, first, target_moves(from, rest, enemy));
    }
}

proof fn lemma_piece_over_facts(m: BoardModel, class: Class, sqs: Seq<u32>)
    requires
        ready(m),
        class != Class::Pawn,
        forall|k: int| 0 <= k < sqs.len() ==> (#[trigger] sqs[k]) < 64 && m.0[sqs[k] as int] == piece_of(class, m.1),
    ensures
        all_gen_facts(m, piece_moves_over(m, class, sqs)),
    decreases sqs.len(),
{
    if sqs.len() > 0 {
        let rest = sqs.drop_first();
        assert forall|k: int| 0 <= k < rest.len() implies (#[trigger] rest[k]) < 64 && m.0[rest[k] as int] == piece_of(class, m.1) by {
            assert(rest[k] == sqs[k + 1]);
        }
        lemma_piece_over_facts(m, class, rest);
        let from = sqs[0] as int;
        assert(from < 64);
        let own = color_bits(m.0, m.1);
        let enemy = color_bits(m.0, m.1.other());
        let targets = attack_bits(class, from, occupied_bits(m.0)) & !own;
        let ts = squares(targets);
        lemma_squares(targets);
        assert forall|k: int| 0 <= k < ts.len() implies (#[trigger] ts[k]) < 64 && !own_piece(m.0[ts[k] as int], m.1)
            && (!(m.0[ts[k] as int] is NoPiece) ==> attacker_of(m.0, ts[k] as int, m.1, from)) by {
            let t = ts[k] as int;
            assert(bit_set(targets, ts[k] as u64));
            lemma_bit_ops(attack_bits(class, from, occupied_bits(m.0)), !own, ts[k] as u64);
            lemma_bit_ops(own, own, ts[k] as u64);
            lemma_bits_where(|i: int| m.1.idx() * 6 <= m.0[i].idx() < m.1.idx() * 6 + 6, 64, ts[k] as u64);
            lemma_attack_bits_symmetric(m, class, from, t);
        }
        lemma_target_facts(m, from, ts, enemy);
        lemma_concat_facts(m, target_moves(from, ts, enemy), piece_moves_over(m, class, rest));
    }
}

/// A piece of `class` of the side to move on `from` that reaches `t` attacks
/// `t` as seen from `t`.
proof fn lemma_attack_bits_symmetric(m: BoardModel, class: Class, from: int, t: int)
    requires
        m.0.len() == 64,
        class != Class::Pawn,
        0 <= from < 64,
        0 <= t < 64,
        m.0[from] == piece_of(class, m.1),
        bit_set(attack_bits(class, from, occupied_bits(m.0)), t as u64),
    ensures
        attacker_of(m.0, t, m.1, from),
{
    let occ = occupied_bits(m.0);
    assert(m.0[from].class_of() == class);
    match class {
        Class::Knight => {
            lemma_bits_where(|x: int| knight_step(from as u64, x as u64), 64, t as u64);
        },
        Class::Bishop => {
            lemma_bits_where(|x: int| bishop_hits(from, occ, x), 64, t as u64);
            lemma_bishop_symmetric(from, t, occ);
        },
        Class::Rook => {
            lemma_bits_where(|x: int| rook_hits(from, occ, x), 64, t as u64);
            lemma_rook_symmetric(from, t, occ);
        },
        Class::Queen => {
            lemma_bits_where(|x: int| bishop_hits(from, occ, x) || rook_hits(from, occ, x), 64, t as u64);
            if bishop_hits(from, occ, t) {
                lemma_bishop_symmetric(from, t, occ);
            } else {
                lemma_rook_symmetric(from, t, occ);
            }
        },
        _ => {
            lemma_bits_where(|x: int| king_step(from as u64, x as u64), 64, t as u64);
        },
    }
}

/// The squares of a piece bitboard hold that piece.
proof fn lemma_piece_squares(m: BoardModel, k: int)
    requires
        m.0.len() == 64,
    ensures
        forall|j: int| 0 <= j < squares(piece_bits(m.0, k)).len() ==> (#[trigger] squares(piece_bits(m.0, k))[j]) < 64
            && m.0[squares(piece_bits(m.0, k))[j] as int].idx() == k,
{
    let bb = piece_bits(m.0, k);
    lemma_squares(bb);
    assert forall|j: int| 0 <= j < squares(bb).len() implies (#[trigger] squares(bb)[j]) < 64 && m.0[squares(bb)[j] as int].idx() == k by {
        assert(bit_set(bb, squares(bb)[j] as u64));
        lemma_bits_where(|i: int| m.0[i].idx() == k, 64, squares(bb)[j] as u64);
    }
}

/// One castling move of the side to move, made by its king from the king's
/// starting square onto an empty square, with the rook's target square among
/// those that must be empty.
/// The flag of a castling move made from its squares.
proof fn lemma_castle_made(from: int, to: int, flag: MoveFlag)
    requires
        0 <= from < 64,
        0 <= to < 64,
    ensures
        Move::make(from, to, flag).flag_of() == flag,
{
    Move::lemma_make(from, to, flag);
}

proof fn lemma_one_castle(m: BoardModel, right: u8, from: int, to: int, empty: Seq<int>, safe: Seq<int>, flag: MoveFlag, ci: int, ti: int)
    requires
        m.0.len() == 64,
        is_castle(flag),
        from == if m.1 == Color::White { 4int } else { 60int },
        to == if flag == MoveFlag::KingCastle { from + 2 } else { from - 2 },
        m.3 & right != 0 ==> m.0[from] == piece_of(Class::King, m.1),
        0 <= ci < empty.len(),
        empty[ci] == rook_squares(flag, m.1).1,
        0 <= ti < empty.len(),
        empty[ti] == to,
        castle_move(m, right, from, to, empty, safe, flag).len() > 0 ==> castle_path_safe(m, Move::make(from, to, flag)),
    ensures
        all_gen_facts(m, castle_move(m, right, from, to, empty, safe, flag)),
{
    Move::lemma_make(from, to, flag);
    let c = castle_move(m, right, from, to, empty, safe, flag);
    if c.len() > 0 {
        assert(m.0[empty[ci]] is NoPiece);
        assert(m.0[empty[ti]] is NoPiece);
        assert forall|i: int| 0 <= i < c.len() implies gen_facts(m, #[trigger] c[i]) by {
            assert(c[i] == Move::make(from, to, flag));
        }
    }
}

proof fn lemma_castle_facts(m: BoardModel)
    requires
        ready(m),
    ensures
        all_gen_facts(m, castle_moves(m)),
{
    let side = m.1;
    reveal(castle_path_safe);
    if !crate::chess::rules::in_check(m, side) {
        let them = side.other();
        lemma_castle_made(4, 6, MoveFlag::KingCastle);
        lemma_castle_made(4, 2, MoveFlag::QueenCastle);
        lemma_castle_made(60, 62, MoveFlag::KingCastle);
        lemma_castle_made(60, 58, MoveFlag::QueenCastle);
        let e1 = seq![5int, 6int];
        let e2 = seq![1int, 2int, 3int];
        let s2 = seq![3int, 2int];
        let e3 = seq![61int, 62int];
        let e4 = seq![57int, 58int, 59int];
        let s4 = seq![59int, 58int];
        assert(e1[0] == 5 && e1[1] == 6 && e2[0] == 1 && e2[1] == 2 && e2[2] == 3 && s2[0] == 3 && s2[1] == 2);
        assert(e3[0] == 61 && e3[1] == 62 && e4[0] == 57 && e4[1] == 58 && e4[2] == 59 && s4[0] == 59 && s4[1] == 58);
        if side == Color::White {
            lemma_one_castle(m, 1, 4, 6, seq![5, 6], seq![5, 6], MoveFlag::KingCastle, 0, 1);
            lemma_one_castle(m, 2, 4, 2, seq![1, 2, 3], seq![3, 2], MoveFlag::QueenCastle, 2, 1);
            lemma_concat_facts(
                m,
                castle_move(m, 1, 4, 6, seq![5, 6], seq![5, 6], MoveFlag::KingCastle),
                castle_move(m, 2, 4, 2, seq![1, 2, 3], seq![3, 2], MoveFlag::QueenCastle),
            );
        } else {
            lemma_one_castle(m, 4, 60, 62, seq![61, 62], seq![61, 62], MoveFlag::KingCastle, 0, 1);
            lemma_one_castle(m, 8, 60, 58, seq![57, 58, 59], seq![59, 58], MoveFlag::QueenCastle, 2, 1);
            lemma_concat_facts(
                m,
                castle_move(m, 4, 60, 62, seq![61, 62], seq![61, 62], MoveFlag::KingCastle),
                castle_move(m, 8, 60, 58, seq![57, 58, 59], seq![59, 58], MoveFlag::QueenCastle),
            );
        }
    }
}

/// Every pseudo-legal move of a ready position can be made and taken back,
/// and leaves the mover a king.
pub proof fn lemma_pseudo_moves_ok(m: BoardModel)
    requires
        ready(m),
    ensures
        forall|i: int| 0 <= i < pseudo_moves(m).len() ==> move_ok(m, #[trigger] pseudo_moves(m)[i]),
        all_gen_facts(m, pseudo_moves(m)),
{
    let side = m.1;
    lemma_piece_squares(m, side.idx() * 6);
    lemma_pawn_over_facts(m, squares(piece_bits(m.0, side.idx() * 6)));
    let mut acc = pawn_moves_over(m, squares(piece_bits(m.0, side.idx() * 6)));
    let classes = seq![Class::Knight, Class::Bishop, Class::Rook, Class::Queen, Class::King];
    assert forall|c: Class| c != Class::Pawn implies all_gen_facts(m, #[trigger] class_moves(m, c)) by {
        lemma_piece_squares(m, side.idx() * 6 + c.idx());
        lemma_piece_over_facts(m, c, squares(piece_bits(m.0, side.idx() * 6 + c.idx())));
    }
    lemma_castle_facts(m);
    lemma_concat_facts(m, acc, class_moves(m, Class::Knight));
    acc = acc + class_moves(m, Class::Knight);
    lemma_concat_facts(m, acc, class_moves(m, Class::Bishop));
    acc = acc + class_moves(m, Class::Bishop);
    lemma_concat_facts(m, acc, class_moves(m, Class::Rook));
    acc = acc + class_moves(m, Class::Rook);
    lemma_concat_facts(m, acc, class_moves(m, Class::Queen));
    acc = acc + class_moves(m, Class::Queen);
    lemma_concat_facts(m, acc, class_moves(m, Class::King));
    acc = acc + class_moves(m, Class::King);
    lemma_concat_facts(m, acc, castle_moves(m));
    assert(acc + castle_moves(m) == pseudo_moves(m));
    assert forall|i: int| 0 <= i < pseudo_moves(m).len() implies move_ok(m, #[trigger] pseudo_moves(m)[i]) by {
        lemma_move_ok(m, pseudo_moves(m)[i]);
    }
}

/// A castling move never starts in check, nor crosses or lands on an
/// occupied or attacked square: White castles king-side only with f1 and g1
/// empty and not attacked by Black, queen-side only with b1, c1, d1 empty and
/// d1, c1 not attacked; Black likewise on the eighth rank. This holds of every
/// pseudo-legal castling move, and so of every legal one.
pub proof fn law_castling_never_crosses_attack(m: BoardModel, mv: Move)
    requires
        ready(m),
        pseudo_moves(m).contains(mv) || legal_moves(m).contains(mv),
        mv.flag_of() == MoveFlag::KingCastle || mv.flag_of() == MoveFlag::QueenCastle,
    ensures
        !in_check(m, m.1),
        m.3 & (if mv.flag_of() == MoveFlag::KingCastle {
            if m.1 == Color::White { 1u8 } else { 4u8 }
        } else {
            if m.1 == Color::White { 2u8 } else { 8u8 }
        }) != 0,
        mv.flag_of() == MoveFlag::KingCastle && m.1 == Color::White ==> m.0[5] is NoPiece && m.0[6] is NoPiece
            && !attacked(m.0, 5, Color::Black) && !attacked(m.0, 6, Color::Black),
        mv.flag_of() == MoveFlag::QueenCastle && m.1 == Color::White ==> m.0[1] is NoPiece && m.0[2] is NoPiece
            && m.0[3] is NoPiece && !attacked(m.0, 3, Color::Black) && !attacked(m.0, 2, Color::Black),
        mv.flag_of() == MoveFlag::KingCastle && m.1 == Color::Black ==> m.0[61] is NoPiece && m.0[62] is NoPiece
            && !attacked(m.0, 61, Color::White) && !attacked(m.0, 62, Color::White),
        mv.flag_of() == MoveFlag::QueenCastle && m.1 == Color::Black ==> m.0[57] is NoPiece && m.0[58] is NoPiece
            && m.0[59] is NoPiece && !attacked(m.0, 59, Color::White) && !attacked(m.0, 58, Color::White),
{
    reveal(castle_path_safe);
    if legal_moves(m).contains(mv) {
        pseudo_moves(m).lemma_filter_contains_rev(keeps_king_safe(m), mv);
    }
    lemma_pseudo_moves_ok(m);
    let i = choose|i: int| 0 <= i < pseudo_moves(m).len() && pseudo_moves(m)[i] == mv;
    assert(gen_facts(m, pseudo_moves(m)[i]));
}

} // verus!
