//! Legal play keeps a position sound: the start position is sound, a legal
//! move from a sound position leads to a sound one, and move paths can be
//! counted from any sound position.

use vstd::prelude::*;
use crate::chess::piece::{Class, Color, Piece};
use crate::chess::moves::{Move, MoveFlag};
use crate::chess::board::{BoardModel, start_model, start_index, piece_bits, occupied_bits, lemma_bits_where};
use crate::chess::rules::{
    piece_of, ready, has_king, king_sq, king_bits_of, in_check, attacked, attacker_of, attackers_bits,
    make_spec, squares_after, rights_after, ep_after, drop_right, is_castle, is_promo, rook_squares,
    placed_piece, ep_victim, legal_moves, pseudo_moves, keeps_king_safe, perft_safe, push_dir,
    ep_consistent, castling_consistent, pawn_hits, ray_from, ray_hits, bishop_hits, rook_hits,
};
use crate::chess::move_facts::{gen_facts, own_piece, move_ok, lemma_pseudo_moves_ok};
use crate::engine::bitboard::{bit_set, lowest, lemma_empty, lemma_without_lowest};
use crate::engine::movegen::{knight_step, king_step};

verus! {

/// `c` has at most one king: every square holding a king of `c` is its first
/// king square.
pub open spec fn one_king(m: BoardModel, c: Color) -> bool {
    forall|i: int| 0 <= i < 64 && m.0[i] == piece_of(Class::King, c) ==> i == king_sq(m, c)
}

/// A sound position: moves can be generated for it, each side has exactly
/// one king, and the side that just moved is not in check.
pub open spec fn sound(m: BoardModel) -> bool {
    &&& ready(m)
    &&& has_king(m, m.1.other())
    &&& one_king(m, Color::White)
    &&& one_king(m, Color::Black)
    &&& !in_check(m, m.1.other())
}

/// A bitboard with exactly one square has that square as its lowest.
proof fn lemma_single_lowest(bb: u64, k: u64)
    requires
        k < 64,
        bit_set(bb, k),
        forall|i: u64| i < 64 && #[trigger] bit_set(bb, i) ==> i == k,
    ensures
        lowest(bb) == k,
{
    lemma_without_lowest(bb);
}

/// When `k` is the only square holding a king of `c`, `c` has exactly that
/// king.
proof fn lemma_king_at(m: BoardModel, c: Color, k: int)
    requires
        m.0.len() == 64,
        0 <= k < 64,
        m.0[k] == piece_of(Class::King, c),
        forall|i: int| 0 <= i < 64 && m.0[i] == piece_of(Class::King, c) ==> i == k,
    ensures
        has_king(m, c),
        king_sq(m, c) == k,
        one_king(m, c),
{
    let bb = king_bits_of(m.0, c);
    assert forall|i: u64| i < 64 && #[trigger] bit_set(bb, i) implies i == k by {
        lemma_bits_where(|j: int| m.0[j].idx() == c.idx() * 6 + 5, 64, i);
        assert(m.0[i as int].idx() == c.idx() * 6 + 5);
        assert(m.0[i as int] == piece_of(Class::King, c));
    }
    lemma_bits_where(|j: int| m.0[j].idx() == c.idx() * 6 + 5, 64, k as u64);
    lemma_single_lowest(bb, k as u64);
    lemma_empty(bb);
}

/// The king square of a sound side holds its king, and no other square does.
proof fn lemma_king_sq(m: BoardModel, c: Color)
    requires
        m.0.len() == 64,
        has_king(m, c),
        one_king(m, c),
    ensures
        0 <= king_sq(m, c) < 64,
        m.0[king_sq(m, c)] == piece_of(Class::King, c),
{
    let bb = king_bits_of(m.0, c);
    lemma_without_lowest(bb);
    lemma_bits_where(|j: int| m.0[j].idx() == c.idx() * 6 + 5, 64, lowest(bb));
}

/// A square attacked by some piece is attacked.
proof fn lemma_attacked_by(mb: Seq<Piece>, t: int, c: Color, s: int)
    requires
        0 <= s < 64,
        attacker_of(mb, t, c, s),
    ensures
        attacked(mb, t, c),
{
    lemma_bits_where(|x: int| attacker_of(mb, t, c, x), 64, s as u64);
    lemma_empty(attackers_bits(mb, t, c));
}

/// Dropping rights only clears bits; dropping a bit clears it.
proof fn lemma_drop_bits(x: u8, b: u8, q: u8)
    by (bit_vector)
    ensures
        (x & !b) & q != 0 ==> x & q != 0,
        b & q == q ==> (x & !b) & q == 0,
{
}

/// The castling rights after a move are among those before it, and a king
/// move leaves its side none.
proof fn lemma_rights_after(m: BoardModel, mv: Move, q: u8)
    requires
        q == 1 || q == 2 || q == 4 || q == 8,
    ensures
        rights_after(m, mv) & q != 0 ==> m.3 & q != 0,
        (m.0[mv.from_sq()] == Piece::WhiteKing && (q == 1 || q == 2)) ==> rights_after(m, mv) & q == 0,
        (m.0[mv.from_sq()] == Piece::BlackKing && (q == 4 || q == 8)) ==> rights_after(m, mv) & q == 0,
{
    assert forall|x: u8, b: u8| #[trigger] drop_right(x, b) & q != 0 implies x & q != 0 by {
        lemma_drop_bits(x, b, q);
    }
    assert forall|x: u8, b: u8| x & q == 0 implies #[trigger] drop_right(x, b) & q == 0 by {
        lemma_drop_bits(x, b, q);
    }
    lemma_drop_bits(m.3, q, q);
    lemma_drop_bits(drop_right(m.3, 1), 2, q);
    lemma_drop_bits(drop_right(m.3, 4), 8, q);
    lemma_drop_bits(m.3, 1, q);
    lemma_drop_bits(m.3, 4, q);
    assert(q & q == q) by (bit_vector)
        requires
            q == 1 || q == 2 || q == 4 || q == 8,
    ;
}

/// The legal moves of a position are pseudo-legal moves that keep the
/// mover's king safe.
proof fn lemma_legal_move_facts(m: BoardModel, mv: Move)
    requires
        ready(m),
        legal_moves(m).contains(mv),
    ensures
        gen_facts(m, mv),
        move_ok(m, mv),
        !in_check(make_spec(m, mv), m.1),
{
    let j = choose|j: int| 0 <= j < legal_moves(m).len() && legal_moves(m)[j] == mv;
    pseudo_moves(m).lemma_filter_pred(keeps_king_safe(m), j);
    pseudo_moves(m).lemma_filter_contains_rev(keeps_king_safe(m), mv);
    lemma_pseudo_moves_ok(m);
    let k = choose|k: int| 0 <= k < pseudo_moves(m).len() && pseudo_moves(m)[k] == mv;
    assert(gen_facts(m, pseudo_moves(m)[k]));
    assert(move_ok(m, pseudo_moves(m)[k]));
}

/// The king of the side that did not move stays, possibly moved aside by a
/// castling rook move but never taken, and stays its only king.
proof fn lemma_other_king_after(m: BoardModel, mv: Move)
    requires
        sound(m),
        gen_facts(m, mv),
    ensures
        has_king(make_spec(m, mv), m.1.other()),
        one_king(make_spec(m, mv), m.1.other()),
{
    mv.lemma_squares_on_board();
    let side = m.1;
    let other = side.other();
    let a = make_spec(m, mv);
    let from = mv.from_sq();
    let to = mv.to_sq();
    let flag = mv.flag_of();
    let king = piece_of(Class::King, other);
    lemma_king_sq(m, other);
    let k = king_sq(m, other);
    if to == k {
        assert(!(m.0[to] is NoPiece));
        lemma_attacked_by(m.0, k, side, from);
        assert(false);
    }
    if flag == MoveFlag::EpCapture {
        assert(m.0[ep_victim(m, mv)] != king);
    }
    let placed = placed_piece(m.0[from], flag);
    assert(placed != king);
    if is_castle(flag) {
        let (ra, rc) = rook_squares(flag, side);
        if k == ra {
            assert(a.0[rc] == king);
            assert forall|i: int| 0 <= i < 64 && a.0[i] == king implies i == rc by {
                if i != rc && i != ra && i != from && i != to {
                    assert(a.0[i] == m.0[i]);
                }
            }
            lemma_king_at(a, other, rc);
        } else {
            assert(a.0[k] == king);
            assert forall|i: int| 0 <= i < 64 && a.0[i] == king implies i == k by {
                if i != rc && i != ra && i != from && i != to {
                    assert(a.0[i] == m.0[i]);
                }
                if i == rc {
                    assert(a.0[rc] == m.0[ra]);
                }
            }
            lemma_king_at(a, other, k);
        }
    } else {
        assert(a.0[k] == king);
        assert forall|i: int| 0 <= i < 64 && a.0[i] == king implies i == k by {
            if i != from && i != to && !(flag == MoveFlag::EpCapture && i == ep_victim(m, mv)) {
                assert(a.0[i] == m.0[i]);
            }
        }
        lemma_king_at(a, other, k);
    }
}

/// The mover keeps exactly one king: where it moved, or where it stood.
proof fn lemma_own_king_after(m: BoardModel, mv: Move)
    requires
        sound(m),
        gen_facts(m, mv),
    ensures
        one_king(make_spec(m, mv), m.1),
{
    mv.lemma_squares_on_board();
    let side = m.1;
    let a = make_spec(m, mv);
    let from = mv.from_sq();
    let to = mv.to_sq();
    let flag = mv.flag_of();
    let king = piece_of(Class::King, side);
    lemma_king_sq(m, side);
    let k = king_sq(m, side);
    let moving = m.0[from];
    let (ra, rc) = rook_squares(flag, side);
    if moving == king {
        assert(!is_promo(flag));
        assert(a.0[to] == king);
        assert forall|i: int| 0 <= i < 64 && a.0[i] == king implies i == to by {
            if is_castle(flag) {
                if i == rc {
                    assert(a.0[rc] == m.0[ra]);
                    assert(ra != k);
                }
            }
            if i != from && i != to && i != rc && i != ra && !(flag == MoveFlag::EpCapture && i == ep_victim(m, mv)) {
                assert(a.0[i] == m.0[i]);
            }
        }
        lemma_king_at(a, side, to);
    } else {
        assert(!is_castle(flag));
        assert(k != from && k != to);
        if flag == MoveFlag::EpCapture {
            assert(k != ep_victim(m, mv));
        }
        assert(a.0[k] == king);
        assert forall|i: int| 0 <= i < 64 && a.0[i] == king implies i == k by {
            if i != from && i != to && !(flag == MoveFlag::EpCapture && i == ep_victim(m, mv)) {
                assert(a.0[i] == m.0[i]);
            }
        }
        lemma_king_at(a, side, k);
    }
}

/// The en passant square after a move agrees with the pieces.
proof fn lemma_ep_after(m: BoardModel, mv: Move)
    requires
        sound(m),
        gen_facts(m, mv),
    ensures
        ep_consistent(make_spec(m, mv)),
{
    mv.lemma_squares_on_board();
    let a = make_spec(m, mv);
    let from = mv.from_sq();
    let to = mv.to_sq();
    if mv.flag_of() == MoveFlag::DoublePawnPush {
        let e = from + push_dir(m.1);
        assert(a.2 == Some(e));
        assert(a.0[e] == m.0[e]);
        assert(a.0[to] == m.0[from]);
    }
}

/// The castling rights after a move still have their king at home.
proof fn lemma_castling_after(m: BoardModel, mv: Move)
    requires
        sound(m),
        gen_facts(m, mv),
    ensures
        castling_consistent(make_spec(m, mv)),
{
    mv.lemma_squares_on_board();
    let side = m.1;
    let a = make_spec(m, mv);
    let from = mv.from_sq();
    let to = mv.to_sq();
    let flag = mv.flag_of();
    lemma_rights_after(m, mv, 1);
    lemma_rights_after(m, mv, 2);
    lemma_rights_after(m, mv, 4);
    lemma_rights_after(m, mv, 8);
    assert forall|home: int, c: Color| #![trigger piece_of(Class::King, c), a.0[home]]
        (home == 4 && c == Color::White || home == 60 && c == Color::Black) && m.0[home] == piece_of(Class::King, c)
            && m.0[from] != piece_of(Class::King, c) implies a.0[home] == piece_of(Class::King, c) by {
        let king = piece_of(Class::King, c);
        assert(home != from);
        if home == to {
            if c == side {
                assert(own_piece(m.0[to], side));
            } else {
                lemma_king_sq(m, c);
                assert(home == king_sq(m, c));
                lemma_attacked_by(m.0, home, side, from);
            }
        }
        if flag == MoveFlag::EpCapture {
            assert(home != ep_victim(m, mv));
        }
        if is_castle(flag) {
            let (ra, rc) = rook_squares(flag, side);
            assert(home != ra && home != rc);
        }
    }
}

/// A legal move from a sound position, with move counters that can still
/// grow, leads to a sound position.
pub proof fn law_legal_move_keeps_sound(m: BoardModel, mv: Move)
    requires
        sound(m),
        legal_moves(m).contains(mv),
        m.4 < 65534,
        m.5 < 65534,
    ensures
        sound(make_spec(m, mv)),
{
    lemma_legal_move_facts(m, mv);
    lemma_other_king_after(m, mv);
    lemma_own_king_after(m, mv);
    lemma_ep_after(m, mv);
    lemma_castling_after(m, mv);
    let a = make_spec(m, mv);
    mv.lemma_squares_on_board();
    if mv.flag_of() == MoveFlag::EpCapture {
        assert(m.0[mv.from_sq()].color_of() == m.1);
        assert(0 <= ep_victim(m, mv) < 64);
    }
    assert(m.1.other().other() == m.1);
    assert(a.1 == m.1.other());
    assert(a.0.len() == 64);
    assert(has_king(a, a.1));
    assert(a.4 < 65535);
    assert(a.1 == Color::Black ==> a.5 < 65535);
    assert(ready(a));
    assert(has_king(a, a.1.other()));
    if m.1 == Color::White {
        assert(one_king(a, Color::White));
        assert(one_king(a, Color::Black));
    } else {
        assert(one_king(a, Color::White));
        assert(one_king(a, Color::Black));
    }
    assert(!in_check(a, a.1.other()));
}

/// The move paths of `depth` plies can be counted from a sound position
/// whose move counters stay in range for `depth` more plies.
pub proof fn law_perft_from_sound(m: BoardModel, depth: nat)
    requires
        sound(m),
        m.4 + depth <= 65535,
        m.5 + depth <= 65535,
    ensures
        perft_safe(m, depth),
    decreases depth,
{
    if depth > 1 {
        assert forall|i: int| 0 <= i < legal_moves(m).len() implies perft_safe(make_spec(m, #[trigger] legal_moves(m)[i]), (depth - 1) as nat) by {
            let mv = legal_moves(m)[i];
            assert(legal_moves(m).contains(mv));
            law_legal_move_keeps_sound(m, mv);
            law_perft_from_sound(make_spec(m, mv), (depth - 1) as nat);
        }
    }
}

/// No white piece attacks e8 in the start position.
proof fn lemma_start_e8_safe()
    ensures
        !attacked(start_model().0, 60, Color::White),
{
    let mb = start_model().0;
    let occ = occupied_bits(mb);
    assert forall|sq: u64| 48 <= sq < 64 implies bit_set(occ, sq) by {
        lemma_bits_where(|i: int| !(mb[i] is NoPiece), 64, sq);
    }
    assert forall|s: int| 0 <= s < 64 implies !attacker_of(mb, 60, Color::White, s) by {
        if 0 <= mb[s].idx() < 6 {
            assert(s < 16);
            assert(!ray_hits(60, 1, 1, occ, s));
            assert(!ray_hits(60, -1, 1, occ, s));
            assert(!ray_hits(60, 0, 1, occ, s));
            assert(bit_set(occ, 53) && bit_set(occ, 51) && bit_set(occ, 61) && bit_set(occ, 59) && bit_set(occ, 52));
            assert(!ray_hits(60, 1, -1, occ, s));
            assert(!ray_hits(60, -1, -1, occ, s));
            assert(!ray_hits(60, 1, 0, occ, s));
            assert(!ray_hits(60, -1, 0, occ, s));
            assert(!ray_hits(60, 0, -1, occ, s));
        }
    }
    let bb = attackers_bits(mb, 60, Color::White);
    assert forall|i: u64| i < 64 implies !bit_set(bb, i) by {
        lemma_bits_where(|x: int| attacker_of(mb, 60, Color::White, x), 64, i);
    }
    lemma_empty(bb);
}

/// The start position is sound.
pub proof fn law_start_sound()
    ensures
        sound(start_model()),
{
    let m = start_model();
    assert forall|i: int| 0 <= i < 64 && m.0[i] == piece_of(Class::King, Color::White) implies i == 4 by {
        assert(start_index(i) == 5);
    }
    assert forall|i: int| 0 <= i < 64 && m.0[i] == piece_of(Class::King, Color::Black) implies i == 60 by {
        assert(start_index(i) == 11);
    }
    assert(m.0[4] == Piece::WhiteKing);
    assert(m.0[60] == Piece::BlackKing);
    lemma_king_at(m, Color::White, 4);
    lemma_king_at(m, Color::Black, 60);
    lemma_start_e8_safe();
}

/// The move paths of up to 65534 plies can be counted from the start.
pub proof fn law_perft_from_start(depth: nat)
    requires
        depth <= 65534,
    ensures
        perft_safe(start_model(), depth),
{
    law_start_sound();
    law_perft_from_sound(start_model(), depth);
}

/// A move is legal exactly when it is pseudo-legal and leaves the mover's
/// king unattacked.
pub proof fn law_legal_iff_safe(m: BoardModel, mv: Move)
    requires
        ready(m),
    ensures
        legal_moves(m).contains(mv) <==> (pseudo_moves(m).contains(mv) && !in_check(make_spec(m, mv), m.1)),
{
    if legal_moves(m).contains(mv) {
        lemma_legal_move_facts(m, mv);
        pseudo_moves(m).lemma_filter_contains_rev(keeps_king_safe(m), mv);
    }
    if pseudo_moves(m).contains(mv) && !in_check(make_spec(m, mv), m.1) {
        let k = choose|k: int| 0 <= k < pseudo_moves(m).len() && pseudo_moves(m)[k] == mv;
        pseudo_moves(m).lemma_filter_contains(keeps_king_safe(m), k);
    }
}

/// Taking back a legal move restores the position it was made on.
pub proof fn law_unmake_undoes_legal_move(m: BoardModel, mv: Move, info: crate::chess::logic_base::UnmakeInfo)
    requires
        ready(m),
        legal_moves(m).contains(mv),
        crate::chess::rules::info_matches(info, m, mv),
    ensures
        crate::chess::rules::unmake_spec(make_spec(m, mv), mv, info) == m,
{
    lemma_legal_move_facts(m, mv);
    crate::chess::rules::law_unmake_undoes_make(m, mv, info);
}

} // verus!
