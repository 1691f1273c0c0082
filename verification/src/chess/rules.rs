//! The rules of chess over the board model: which squares pieces attack, what
//! making and unmaking a move does, which moves a position has.

use vstd::prelude::*;
use crate::chess::piece::{Class, Color, Piece};
use crate::chess::moves::{Move, MoveFlag, Tile};
use crate::chess::board::{BoardModel, bits_where, piece_bits, occupied_bits};
use crate::engine::bitboard::bit_set;
use crate::engine::movegen::{knight_step, king_step};

verus! {

// ── Geometry ──────────────────────────────────────────────────────────────────

/// The piece of a class and a color.
pub open spec fn piece_of(class: Class, color: Color) -> Piece {
    Piece::from_idx(color.idx() * 6 + class.idx())
}

/// File `f` and rank `r` are on the board.
pub open spec fn on_board(f: int, r: int) -> bool {
    0 <= f < 8 && 0 <= r < 8
}

/// The square at file `f` and rank `r`.
pub open spec fn sq_at(f: int, r: int) -> int {
    r * 8 + f
}

/// Square `t` is one a pawn of `c` on `s` attacks: one rank forward and one
/// file to either side.
pub open spec fn pawn_hits(s: int, t: int, c: Color) -> bool {
    &&& 0 <= t < 64
    &&& match c {
        Color::White => (t == s + 7 && s % 8 != 0) || (t == s + 9 && s % 8 != 7),
        Color::Black => (t == s - 7 && s % 8 != 7) || (t == s - 9 && s % 8 != 0),
    }
}

/// `j` steps of size `d`, for `d` in -1..=1.
pub open spec fn steps(j: int, d: int) -> int {
    if d == 1 {
        j
    } else if d == -1 {
        -j
    } else {
        0
    }
}

/// Square `t` lies on the ray that starts at file `f`, rank `r` and steps by
/// `(df, dr)`, no further than the first occupied square of `occ` (which is
/// included); `fuel` bounds the number of squares looked at.
pub open spec fn ray_from(f: int, r: int, df: int, dr: int, occ: u64, t: int, fuel: nat) -> bool
    decreases fuel,
{
    if fuel == 0 || !on_board(f, r) {
        false
    } else {
        sq_at(f, r) == t || (!bit_set(occ, sq_at(f, r) as u64) && ray_from(
            f + df,
            r + dr,
            df,
            dr,
            occ,
            t,
            (fuel - 1) as nat,
        ))
    }
}

/// A slider on `s` moving by `(df, dr)` reaches `t`.
pub open spec fn ray_hits(s: int, df: int, dr: int, occ: u64, t: int) -> bool {
    ray_from(s % 8 + df, s / 8 + dr, df, dr, occ, t, 8)
}

/// A slider on `s` moving along one of the first `n` directions reaches `t`.
pub open spec fn any_ray(s: int, occ: u64, dirs: Seq<(i8, i8)>, n: int, t: int) -> bool
    decreases n,
{
    if n <= 0 {
        false
    } else {
        any_ray(s, occ, dirs, n - 1, t) || ray_hits(s, dirs[n - 1].0 as int, dirs[n - 1].1 as int, occ, t)
    }
}

/// A rook on `s` reaches `t` along a rank or a file.
pub open spec fn rook_hits(s: int, occ: u64, t: int) -> bool {
    ray_hits(s, 1, 0, occ, t) || ray_hits(s, -1, 0, occ, t) || ray_hits(s, 0, 1, occ, t) || ray_hits(s, 0, -1, occ, t)
}

/// A bishop on `s` reaches `t` along a diagonal.
pub open spec fn bishop_hits(s: int, occ: u64, t: int) -> bool {
    ray_hits(s, 1, 1, occ, t) || ray_hits(s, 1, -1, occ, t) || ray_hits(s, -1, 1, occ, t) || ray_hits(s, -1, -1, occ, t)
}

pub open spec fn knight_bits(s: int) -> u64 {
    bits_where(|t: int| knight_step(s as u64, t as u64), 64)
}

pub open spec fn king_bits(s: int) -> u64 {
    bits_where(|t: int| king_step(s as u64, t as u64), 64)
}

pub open spec fn pawn_bits(s: int, c: Color) -> u64 {
    bits_where(|t: int| pawn_hits(s, t, c), 64)
}

pub open spec fn rook_bits(s: int, occ: u64) -> u64 {
    bits_where(|t: int| rook_hits(s, occ, t), 64)
}

pub open spec fn bishop_bits(s: int, occ: u64) -> u64 {
    bits_where(|t: int| bishop_hits(s, occ, t), 64)
}

pub open spec fn queen_bits(s: int, occ: u64) -> u64 {
    bits_where(|t: int| bishop_hits(s, occ, t) || rook_hits(s, occ, t), 64)
}

// ── Attacks on a square ───────────────────────────────────────────────────────

/// Square `s` holds a piece of `c` that attacks square `t`.
pub open spec fn attacker_of(mb: Seq<Piece>, t: int, c: Color, s: int) -> bool {
    let occ = occupied_bits(mb);
    let p = mb[s];
    &&& c.idx() * 6 <= p.idx() < c.idx() * 6 + 6
    &&& match p.class_of() {
        Class::Pawn => pawn_hits(t, s, c.other()),
        Class::Knight => knight_step(t as u64, s as u64),
        Class::Bishop => bishop_hits(t, occ, s),
        Class::Rook => rook_hits(t, occ, s),
        Class::Queen => bishop_hits(t, occ, s) || rook_hits(t, occ, s),
        Class::King => king_step(t as u64, s as u64),
    }
}

/// The squares holding pieces of `c` that attack `t`.
pub open spec fn attackers_bits(mb: Seq<Piece>, t: int, c: Color) -> u64 {
    bits_where(|s: int| attacker_of(mb, t, c, s), 64)
}

/// Some piece of `c` attacks `t`.
pub open spec fn attacked(mb: Seq<Piece>, t: int, c: Color) -> bool {
    attackers_bits(mb, t, c) != 0
}

/// The squares holding a king of `c`.
pub open spec fn king_bits_of(mb: Seq<Piece>, c: Color) -> u64 {
    piece_bits(mb, c.idx() * 6 + 5)
}

/// `c` has a king.
pub open spec fn has_king(m: BoardModel, c: Color) -> bool {
    king_bits_of(m.0, c) != 0
}

/// The lowest square holding a king of `c`.
pub open spec fn king_sq(m: BoardModel, c: Color) -> int {
    crate::engine::bitboard::lowest(king_bits_of(m.0, c)) as int
}

/// The king of `c` is attacked.
pub open spec fn in_check(m: BoardModel, c: Color) -> bool {
    attacked(m.0, king_sq(m, c), c.other())
}

// ── Making and unmaking a move ────────────────────────────────────────────────

/// The flag promotes a pawn.
pub open spec fn is_promo(flag: MoveFlag) -> bool {
    flag.code() >= 8
}

/// The flag castles.
pub open spec fn is_castle(flag: MoveFlag) -> bool {
    flag == MoveFlag::KingCastle || flag == MoveFlag::QueenCastle
}

/// The class a promotion flag promotes to.
pub open spec fn promo_class(flag: MoveFlag) -> Option<Class> {
    match flag {
        MoveFlag::KnightPromo | MoveFlag::KnightPromoCapture => Some(Class::Knight),
        MoveFlag::BishopPromo | MoveFlag::BishopPromoCapture => Some(Class::Bishop),
        MoveFlag::RookPromo | MoveFlag::RookPromoCapture => Some(Class::Rook),
        MoveFlag::QueenPromo | MoveFlag::QueenPromoCapture => Some(Class::Queen),
        _ => None,
    }
}

/// The piece that lands on the target square: the promoted piece, or the
/// moving piece.
pub open spec fn placed_piece(moving: Piece, flag: MoveFlag) -> Piece {
    match promo_class(flag) {
        Some(c) => piece_of(c, moving.color_of()),
        None => moving,
    }
}

/// The piece on the source square of `mv`.
pub open spec fn moving_piece(m: BoardModel, mv: Move) -> Piece {
    m.0[mv.from_sq()]
}

/// The square of the pawn an en passant capture takes.
pub open spec fn ep_victim(m: BoardModel, mv: Move) -> int {
    if moving_piece(m, mv).color_of() == Color::White {
        mv.to_sq() - 8
    } else {
        mv.to_sq() + 8
    }
}

/// The piece the move takes (no piece for a move to an empty square).
pub open spec fn captured_of(m: BoardModel, mv: Move) -> Piece {
    if mv.flag_of() == MoveFlag::EpCapture {
        m.0[ep_victim(m, mv)]
    } else {
        m.0[mv.to_sq()]
    }
}

/// The piece on square `a` moves to square `c`.
pub open spec fn relocated(b: Seq<Piece>, a: int, c: int) -> Seq<Piece> {
    b.update(a, Piece::NoPiece).update(c, b[a])
}

/// The rook squares of a castling move of `side`: where the rook stands,
/// and where it goes.
pub open spec fn rook_squares(flag: MoveFlag, side: Color) -> (int, int) {
    if flag == MoveFlag::KingCastle {
        if side == Color::White {
            (7, 5)
        } else {
            (63, 61)
        }
    } else if side == Color::White {
        (0, 3)
    } else {
        (56, 59)
    }
}

/// The squares after the move.
pub open spec fn squares_after(m: BoardModel, mv: Move) -> Seq<Piece> {
    let moving = moving_piece(m, mv);
    let flag = mv.flag_of();
    let b1 = if flag == MoveFlag::EpCapture {
        m.0.update(ep_victim(m, mv), Piece::NoPiece)
    } else {
        m.0
    };
    let b2 = b1.update(mv.from_sq(), Piece::NoPiece);
    let b3 = b2.update(mv.to_sq(), placed_piece(moving, flag));
    if is_castle(flag) {
        let (a, c) = rook_squares(flag, moving.color_of());
        relocated(b3, a, c)
    } else {
        b3
    }
}

/// The castling mask without the right of bit `bit`.
pub open spec fn drop_right(mask: u8, bit: u8) -> u8 {
    mask & !bit
}

/// The castling mask after the move: a king move gives up both rights of its
/// side, and a move from or to a corner gives up the right of that corner.
pub open spec fn rights_after(m: BoardModel, mv: Move) -> u8 {
    let moving = moving_piece(m, mv);
    let from = mv.from_sq();
    let to = mv.to_sq();
    let a = if moving == Piece::WhiteKing {
        drop_right(drop_right(m.3, 1), 2)
    } else if moving == Piece::BlackKing {
        drop_right(drop_right(m.3, 4), 8)
    } else {
        m.3
    };
    let b = if from == 0 || to == 0 {
        drop_right(a, 2)
    } else {
        a
    };
    let c = if from == 7 || to == 7 {
        drop_right(b, 1)
    } else {
        b
    };
    let d = if from == 56 || to == 56 {
        drop_right(c, 8)
    } else {
        c
    };
    if from == 63 || to == 63 {
        drop_right(d, 4)
    } else {
        d
    }
}

/// The en passant square after the move: the square a double push passed.
pub open spec fn ep_after(m: BoardModel, mv: Move) -> Option<int> {
    if mv.flag_of() == MoveFlag::DoublePawnPush {
        if moving_piece(m, mv).color_of() == Color::White {
            Some(mv.from_sq() + 8)
        } else {
            Some(mv.from_sq() - 8)
        }
    } else {
        None
    }
}

/// The move is a pawn move or a capture, which resets the halfmove clock.
pub open spec fn resets_clock(m: BoardModel, mv: Move) -> bool {
    moving_piece(m, mv).class_of() == Class::Pawn || !(captured_of(m, mv) is NoPiece)
        || mv.flag_of() == MoveFlag::EpCapture
}

pub open spec fn halfmove_after(m: BoardModel, mv: Move) -> u16 {
    if resets_clock(m, mv) {
        0
    } else {
        (m.4 + 1) as u16
    }
}

/// The fullmove number grows after Black moves.
pub open spec fn fullmove_after(m: BoardModel, mv: Move) -> u16 {
    if moving_piece(m, mv).color_of() == Color::Black {
        (m.5 + 1) as u16
    } else {
        m.5
    }
}

/// The position after `mv`.
pub open spec fn make_spec(m: BoardModel, mv: Move) -> BoardModel {
    (
        squares_after(m, mv),
        m.1.other(),
        ep_after(m, mv),
        rights_after(m, mv),
        halfmove_after(m, mv),
        fullmove_after(m, mv),
    )
}

/// `mv` can be made on `m`: a piece stands on its source square, its squares
/// stay on the board, and the move counters do not overflow.
pub open spec fn playable(m: BoardModel, mv: Move) -> bool {
    let moving = moving_piece(m, mv);
    let white = moving.color_of() == Color::White;
    &&& !(moving is NoPiece)
    &&& mv.flag_of() == MoveFlag::EpCapture ==> (if white {
        mv.to_sq() >= 8
    } else {
        mv.to_sq() + 8 < 64
    })
    &&& mv.flag_of() == MoveFlag::DoublePawnPush ==> (if white {
        mv.from_sq() + 8 < 64
    } else {
        mv.from_sq() >= 8
    })
    &&& !resets_clock(m, mv) ==> m.4 < 65535
    &&& !white ==> m.5 < 65535
}

/// The square of an optional tile.
pub open spec fn tile_sq(t: Option<Tile>) -> Option<int> {
    match t {
        Some(t) => Some(t.sq()),
        None => None,
    }
}

/// `info` records what `mv` changed on `m`.
pub open spec fn info_matches(info: crate::chess::logic_base::UnmakeInfo, m: BoardModel, mv: Move) -> bool {
    &&& info.captured == captured_of(m, mv)
    &&& tile_sq(info.captured_ep_tile) == if mv.flag_of() == MoveFlag::EpCapture {
        Some(ep_victim(m, mv))
    } else {
        None
    }
    &&& info.prev_castling_rights.bits_of() == m.3
    &&& tile_sq(info.prev_en_passant) == m.2
    &&& info.prev_halfmove_clock == m.4
    &&& info.prev_fullmove_number == m.5
}

/// The position after taking back `mv` from `m` with `info`.
pub open spec fn unmake_spec(m: BoardModel, mv: Move, info: crate::chess::logic_base::UnmakeInfo) -> BoardModel {
    let side = m.1.other();
    let from = mv.from_sq();
    let to = mv.to_sq();
    let flag = mv.flag_of();
    let original = if is_promo(flag) {
        piece_of(Class::Pawn, side)
    } else {
        m.0[to]
    };
    let b1 = m.0.update(to, Piece::NoPiece).update(from, original);
    let b2 = if flag == MoveFlag::EpCapture {
        match info.captured_ep_tile {
            Some(t) => b1.update(t.sq(), info.captured),
            None => b1,
        }
    } else {
        b1.update(to, info.captured)
    };
    let b3 = if is_castle(flag) {
        let (a, c) = rook_squares(flag, side);
        relocated(b2, c, a)
    } else {
        b2
    };
    (
        b3,
        side,
        tile_sq(info.prev_en_passant),
        info.prev_castling_rights.bits_of(),
        info.prev_halfmove_clock,
        info.prev_fullmove_number,
    )
}

/// Taking `mv` back restores `m`: an en passant capture goes to an empty
/// square, a promotion is made by a pawn of the side to move, and a castling
/// move is made by the side to move, with the rook's target square empty and
/// apart from the king's squares.
pub open spec fn restorable(m: BoardModel, mv: Move) -> bool {
    let moving = moving_piece(m, mv);
    let from = mv.from_sq();
    let to = mv.to_sq();
    let flag = mv.flag_of();
    &&& flag == MoveFlag::EpCapture ==> m.0[to] is NoPiece && from != to
    &&& is_promo(flag) ==> moving == piece_of(Class::Pawn, m.1)
    &&& is_castle(flag) ==> {
        let (a, c) = rook_squares(flag, m.1);
        &&& moving.color_of() == m.1
        &&& m.0[c] is NoPiece
        &&& from != a && from != c && to != a && to != c
    }
}

/// Unmaking a move restores the position it was made on.
pub proof fn law_unmake_undoes_make(m: BoardModel, mv: Move, info: crate::chess::logic_base::UnmakeInfo)
    requires
        m.0.len() == 64,
        playable(m, mv),
        restorable(m, mv),
        info_matches(info, m, mv),
    ensures
        unmake_spec(make_spec(m, mv), mv, info) == m,
{
    mv.lemma_squares_on_board();
    let after = make_spec(m, mv);
    let back = unmake_spec(after, mv, info);
    assert(after.1.other() == m.1);
    let flag = mv.flag_of();
    if is_castle(flag) {
        assert(moving_piece(m, mv).color_of() == m.1);
    }
    if flag == MoveFlag::EpCapture {
        assert(0 <= ep_victim(m, mv) < 64);
    }
    assert(back.0 =~= m.0);
    crate::chess::board_state::lemma_castling_state_ext(info.prev_castling_rights, info.prev_castling_rights);
}

// ── Positions moves can be generated for ──────────────────────────────────────

/// The en passant square, if any, is the empty square a pawn of the side not
/// to move has just passed with a double push.
pub open spec fn ep_consistent(m: BoardModel) -> bool {
    m.2 matches Some(e) ==> {
        &&& m.0[e] is NoPiece
        &&& if m.1 == Color::White {
            40 <= e < 48 && m.0[e - 8] == Piece::BlackPawn
        } else {
            16 <= e < 24 && m.0[e + 8] == Piece::WhitePawn
        }
    }
}

/// A side that may still castle has its king on its starting square.
pub open spec fn castling_consistent(m: BoardModel) -> bool {
    &&& (m.3 & 1 != 0 || m.3 & 2 != 0) ==> m.0[4] == Piece::WhiteKing
    &&& (m.3 & 4 != 0 || m.3 & 8 != 0) ==> m.0[60] == Piece::BlackKing
}

/// Moves can be generated and tried on `m`: the side to move has a king,
/// the en passant square and the castling rights agree with the pieces, and
/// the move counters can still grow.
pub open spec fn ready(m: BoardModel) -> bool {
    &&& m.0.len() == 64
    &&& has_king(m, m.1)
    &&& ep_consistent(m)
    &&& castling_consistent(m)
    &&& m.4 < 65535
    &&& m.1 == Color::Black ==> m.5 < 65535
}

// ── Pseudo-legal moves ────────────────────────────────────────────────────────

/// The square offset of one pawn step of `side`.
pub open spec fn push_dir(side: Color) -> int {
    if side == Color::White {
        8
    } else {
        -8
    }
}

/// The rank pawns of `side` start on.
pub open spec fn start_rank(side: Color) -> int {
    if side == Color::White {
        1
    } else {
        6
    }
}

/// The rank pawns of `side` promote on.
pub open spec fn promo_rank(side: Color) -> int {
    if side == Color::White {
        7
    } else {
        0
    }
}

/// The moves of a pawn from `from` to `to`: the four promotions, knight first,
/// on the last rank, or else a single quiet move or capture.
pub open spec fn pawn_step_moves(from: int, to: int, promo: bool, capture: bool) -> Seq<Move> {
    if promo {
        if capture {
            seq![
                Move::make(from, to, MoveFlag::KnightPromoCapture),
                Move::make(from, to, MoveFlag::BishopPromoCapture),
                Move::make(from, to, MoveFlag::RookPromoCapture),
                Move::make(from, to, MoveFlag::QueenPromoCapture),
            ]
        } else {
            seq![
                Move::make(from, to, MoveFlag::KnightPromo),
                Move::make(from, to, MoveFlag::BishopPromo),
                Move::make(from, to, MoveFlag::RookPromo),
                Move::make(from, to, MoveFlag::QueenPromo),
            ]
        }
    } else {
        seq![Move::make(from, to, if capture { MoveFlag::Capture } else { MoveFlag::Quiet })]
    }
}

/// The pushes of the pawn on `from`: one square forward onto an empty square,
/// then two from the start rank when that square is empty too.
pub open spec fn pawn_pushes(m: BoardModel, from: int) -> Seq<Move> {
    let side = m.1;
    let one = from + push_dir(side);
    if 0 <= one < 64 && m.0[one] is NoPiece {
        let two = from + 2 * push_dir(side);
        pawn_step_moves(from, one, one / 8 == promo_rank(side), false) + if from / 8 == start_rank(side)
            && m.0[two] is NoPiece {
            seq![Move::make(from, two, MoveFlag::DoublePawnPush)]
        } else {
            Seq::empty()
        }
    } else {
        Seq::empty()
    }
}

/// The capture of the pawn on `from` towards file offset `df`: en passant onto
/// the en passant square, or a capture of a piece of the other side.
pub open spec fn pawn_capture(m: BoardModel, from: int, df: int) -> Seq<Move> {
    let side = m.1;
    let target = from + push_dir(side) + df;
    if !(0 <= from % 8 + df < 8) || !(0 <= target < 64) {
        Seq::empty()
    } else if m.2 == Some(target) {
        seq![Move::make(from, target, MoveFlag::EpCapture)]
    } else if !(m.0[target] is NoPiece) && m.0[target].color_of() != side {
        pawn_step_moves(from, target, target / 8 == promo_rank(side), true)
    } else {
        Seq::empty()
    }
}

/// The moves of the pawn on `from`.
pub open spec fn pawn_moves_from(m: BoardModel, from: int) -> Seq<Move> {
    pawn_pushes(m, from) + pawn_capture(m, from, -1) + pawn_capture(m, from, 1)
}

/// The moves of the pawns on the squares `sqs`, in order.
pub open spec fn pawn_moves_over(m: BoardModel, sqs: Seq<u32>) -> Seq<Move>
    decreases sqs.len(),
{
    if sqs.len() == 0 {
        Seq::empty()
    } else {
        pawn_moves_from(m, sqs[0] as int) + pawn_moves_over(m, sqs.drop_first())
    }
}

/// The moves from `from` to the squares `sqs`: captures onto squares of
/// `enemy`, quiet moves elsewhere.
pub open spec fn target_moves(from: int, sqs: Seq<u32>, enemy: u64) -> Seq<Move>
    decreases sqs.len(),
{
    if sqs.len() == 0 {
        Seq::empty()
    } else {
        seq![Move::make(from, sqs[0] as int, if bit_set(enemy, sqs[0] as u64) {
            MoveFlag::Capture
        } else {
            MoveFlag::Quiet
        })] + target_moves(from, sqs.drop_first(), enemy)
    }
}

/// The squares a piece of `class` on `s` attacks, with `occ` occupied.
pub open spec fn attack_bits(class: Class, s: int, occ: u64) -> u64 {
    match class {
        Class::Knight => knight_bits(s),
        Class::Bishop => bishop_bits(s, occ),
        Class::Rook => rook_bits(s, occ),
        Class::Queen => queen_bits(s, occ),
        _ => king_bits(s),
    }
}

/// The moves of the pieces of `class` on the squares `sqs`: to each attacked
/// square not held by the own side.
pub open spec fn piece_moves_over(m: BoardModel, class: Class, sqs: Seq<u32>) -> Seq<Move>
    decreases sqs.len(),
{
    if sqs.len() == 0 {
        Seq::empty()
    } else {
        let own = crate::chess::board::color_bits(m.0, m.1);
        let enemy = crate::chess::board::color_bits(m.0, m.1.other());
        let targets = attack_bits(class, sqs[0] as int, occupied_bits(m.0)) & !own;
        target_moves(sqs[0] as int, crate::engine::bitboard::squares(targets), enemy)
            + piece_moves_over(m, class, sqs.drop_first())
    }
}

/// The moves of all pieces of `class` of the side to move.
pub open spec fn class_moves(m: BoardModel, class: Class) -> Seq<Move> {
    piece_moves_over(m, class, crate::engine::bitboard::squares(piece_bits(m.0, m.1.idx() * 6 + class.idx())))
}

/// The castling move with `right`, when the right is held, the squares
/// between king and rook are empty and the king does not cross an attacked
/// square.
pub open spec fn castle_move(m: BoardModel, right: u8, from: int, to: int, empty: Seq<int>, safe: Seq<int>, flag: MoveFlag) -> Seq<Move> {
    if m.3 & right != 0 && (forall|i: int| 0 <= i < empty.len() ==> m.0[#[trigger] empty[i]] is NoPiece)
        && (forall|i: int| 0 <= i < safe.len() ==> !attacked(m.0, #[trigger] safe[i], m.1.other())) {
        seq![Move::make(from, to, flag)]
    } else {
        Seq::empty()
    }
}

/// The castling moves of the side to move; none while it is in check.
pub open spec fn castle_moves(m: BoardModel) -> Seq<Move> {
    if in_check(m, m.1) {
        Seq::empty()
    } else if m.1 == Color::White {
        castle_move(m, 1, 4, 6, seq![5, 6], seq![5, 6], MoveFlag::KingCastle) + castle_move(
            m,
            2,
            4,
            2,
            seq![1, 2, 3],
            seq![3, 2],
            MoveFlag::QueenCastle,
        )
    } else {
        castle_move(m, 4, 60, 62, seq![61, 62], seq![61, 62], MoveFlag::KingCastle) + castle_move(
            m,
            8,
            60,
            58,
            seq![57, 58, 59],
            seq![59, 58],
            MoveFlag::QueenCastle,
        )
    }
}

/// The pseudo-legal moves of the side to move, in the order they are
/// generated: pawns, knights, bishops, rooks, queens, king, castling.
pub open spec fn pseudo_moves(m: BoardModel) -> Seq<Move> {
    pawn_moves_over(m, crate::engine::bitboard::squares(piece_bits(m.0, m.1.idx() * 6)))
        + class_moves(m, Class::Knight) + class_moves(m, Class::Bishop) + class_moves(m, Class::Rook)
        + class_moves(m, Class::Queen) + class_moves(m, Class::King) + castle_moves(m)
}

/// The move does not leave the mover's king attacked.
pub open spec fn keeps_king_safe(m: BoardModel) -> spec_fn(Move) -> bool {
    |mv: Move| !in_check(make_spec(m, mv), m.1)
}

/// The legal moves of the side to move, in generation order.
pub open spec fn legal_moves(m: BoardModel) -> Seq<Move> {
    pseudo_moves(m).filter(keeps_king_safe(m))
}

// ── Queries on the legal moves ────────────────────────────────────────────────

/// The move starts on square `sq`.
pub open spec fn starts_on(sq: int) -> spec_fn(Move) -> bool {
    |mv: Move| mv.from_sq() == sq
}

/// The move goes from `from` to `to` and promotes to `promotion` (no
/// promotion for `None`).
pub open spec fn names_move(mv: Move, from: int, to: int, promotion: Option<Class>) -> bool {
    mv.from_sq() == from && mv.to_sq() == to && promo_class(mv.flag_of()) == promotion
}

/// The name `Debug` gives a class.
pub open spec fn class_name(c: Class) -> Seq<char> {
    match c {
        Class::Pawn => "Pawn"@,
        Class::Knight => "Knight"@,
        Class::Bishop => "Bishop"@,
        Class::Rook => "Rook"@,
        Class::Queen => "Queen"@,
        Class::King => "King"@,
    }
}

/// The text of the error for a move that names no legal move.
pub open spec fn illegal_move_text(from: int, to: int, promotion: Option<Class>) -> Seq<char> {
    "Illegal move: "@ + crate::chess::moves::tile_name(from) + crate::chess::moves::tile_name(to) + match promotion {
        Some(c) => class_name(c),
        None => Seq::empty(),
    }
}

/// No pawn, rook or queen is on the board.
pub open spec fn no_heavy_material(mb: Seq<Piece>) -> bool {
    forall|i: int| 0 <= i < 64 ==> {
        let k = #[trigger] mb[i].idx();
        k != 0 && k != 3 && k != 4 && k != 6 && k != 9 && k != 10
    }
}

/// The number of knights and bishops of `c`.
pub open spec fn minor_count(mb: Seq<Piece>, c: Color) -> nat {
    crate::engine::bitboard::ones(piece_bits(mb, c.idx() * 6 + 1)) + crate::engine::bitboard::ones(piece_bits(mb, c.idx() * 6 + 2))
}

/// Neither side can mate: bare kings, or a lone minor piece (one bishop or
/// one knight) against a bare king.
pub open spec fn insufficient_material(mb: Seq<Piece>) -> bool {
    let w = minor_count(mb, Color::White);
    let b = minor_count(mb, Color::Black);
    &&& no_heavy_material(mb)
    &&& (w == 0 && b == 0) || (w == 1 && b == 0 && crate::engine::bitboard::ones(piece_bits(mb, 1)) <= 1) || (b == 1
        && w == 0 && crate::engine::bitboard::ones(piece_bits(mb, 7)) <= 1)
}

/// Bare kings, or a single knight or bishop against a bare king, is a draw
/// by insufficient material, and nothing else is: a pawn, rook or queen of
/// either side, two minor pieces on one side, or a minor piece on each side
/// leaves material to mate with.
pub proof fn law_insufficient_material(mb: Seq<Piece>)
    requires
        mb.len() == 64,
    ensures
        insufficient_material(mb) <==> {
            &&& forall|i: int|
                0 <= i < 64 ==> #[trigger] mb[i] != Piece::WhitePawn && mb[i] != Piece::WhiteRook && mb[i]
                    != Piece::WhiteQueen && mb[i] != Piece::BlackPawn && mb[i] != Piece::BlackRook && mb[i]
                    != Piece::BlackQueen
            &&& crate::engine::bitboard::ones(piece_bits(mb, 1)) + crate::engine::bitboard::ones(piece_bits(mb, 2))
                + crate::engine::bitboard::ones(piece_bits(mb, 7)) + crate::engine::bitboard::ones(piece_bits(mb, 8))
                <= 1
        },
{
    let light = forall|i: int|
        0 <= i < 64 ==> #[trigger] mb[i] != Piece::WhitePawn && mb[i] != Piece::WhiteRook && mb[i]
            != Piece::WhiteQueen && mb[i] != Piece::BlackPawn && mb[i] != Piece::BlackRook && mb[i]
            != Piece::BlackQueen;
    if no_heavy_material(mb) {
        assert forall|i: int| 0 <= i < 64 implies #[trigger] mb[i] != Piece::WhitePawn && mb[i] != Piece::WhiteRook
            && mb[i] != Piece::WhiteQueen && mb[i] != Piece::BlackPawn && mb[i] != Piece::BlackRook && mb[i]
            != Piece::BlackQueen by {
            let k = mb[i].idx();
            assert(k != 0 && k != 3 && k != 4 && k != 6 && k != 9 && k != 10);
        }
    }
    if light {
        assert forall|i: int| 0 <= i < 64 implies ({
            let k = #[trigger] mb[i].idx();
            k != 0 && k != 3 && k != 4 && k != 6 && k != 9 && k != 10
        }) by {
            assert(mb[i] != Piece::WhitePawn);
        }
    }
}

/// The side to move is in check and has no legal move.
pub open spec fn checkmate(m: BoardModel) -> bool {
    in_check(m, m.1) && legal_moves(m).len() == 0
}

/// The side to move is not in check and has no legal move.
pub open spec fn stalemate(m: BoardModel) -> bool {
    !in_check(m, m.1) && legal_moves(m).len() == 0
}

/// The state of the game: checkmate (won by the side that just moved),
/// stalemate, the fifty-move rule, insufficient material, in that order.
pub open spec fn result_of(m: BoardModel) -> crate::chess::logic_base::GameResult {
    if checkmate(m) {
        crate::chess::logic_base::GameResult::Checkmate(m.1.other())
    } else if stalemate(m) {
        crate::chess::logic_base::GameResult::Stalemate
    } else if m.4 >= 100 {
        crate::chess::logic_base::GameResult::DrawByFiftyMoveRule
    } else if insufficient_material(m.0) {
        crate::chess::logic_base::GameResult::DrawByInsufficientMaterial
    } else {
        crate::chess::logic_base::GameResult::Ongoing
    }
}

// ── Counting move paths ───────────────────────────────────────────────────────

/// The number of legal move paths of `depth` plies from `m`.
pub open spec fn perft_count(m: BoardModel, depth: nat) -> nat
    decreases depth, 0int,
{
    if depth == 0 {
        1
    } else if depth == 1 {
        legal_moves(m).len()
    } else {
        perft_sum(m, legal_moves(m), (depth - 1) as nat, legal_moves(m).len() as int)
    }
}

/// The number of paths of `depth` plies after each of the first `n` moves of
/// `s`, added up.
pub open spec fn perft_sum(m: BoardModel, s: Seq<Move>, depth: nat, n: int) -> nat
    decreases depth, n,
{
    if n <= 0 {
        0
    } else {
        perft_sum(m, s, depth, n - 1) + perft_count(make_spec(m, s[n - 1]), depth)
    }
}

/// Counting the paths of `depth` plies from `m` plays only moves that can be
/// generated, made and taken back.
pub open spec fn perft_safe(m: BoardModel, depth: nat) -> bool
    decreases depth,
{
    depth == 0 || (ready(m) && (depth > 1 ==> forall|i: int|
        0 <= i < legal_moves(m).len() ==> perft_safe(make_spec(m, #[trigger] legal_moves(m)[i]), (depth - 1) as nat)))
}

} // verus!
