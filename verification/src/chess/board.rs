//! A board kept both as a mailbox (one piece per square) and as twelve
//! bitboards (one per piece), the two always in agreement.

use vstd::prelude::*;
use crate::chess::piece::{Class, Color, Piece};
use crate::chess::moves::Tile;
use crate::chess::board_state::{Bitboard, BoardState, CastlingState};
use crate::engine::bitboard::{
    bit_set, lowest, without_lowest, lemma_without_lowest, lemma_bit_ops, lemma_single,
    lemma_bits_ext, lemma_empty,
};
use crate::text::push_char;

verus! {

/// The abstract board: the piece on each of the 64 squares, the side to
/// move, the en passant square, the castling mask, and the two move counters.
pub type BoardModel = (Seq<Piece>, Color, Option<int>, u8, u16, u16);

#[derive(Clone, Copy)]
pub struct Board {
    boards: [Bitboard; 12],
    mailbox: [Piece; 64],
    side_to_move: Color,
    en_passant: Option<Tile>,
    castling_state: CastlingState,
    halfmove_clock: u16,
    fullmove_number: u16,
}

/// The piece number of the start position on square `i` (12: empty).
pub open spec fn start_index(i: int) -> int {
    let f = i % 8;
    if i < 8 {
        if f == 0 || f == 7 {
            3
        } else if f == 1 || f == 6 {
            1
        } else if f == 2 || f == 5 {
            2
        } else if f == 3 {
            4
        } else {
            5
        }
    } else if i < 16 {
        0
    } else if 48 <= i < 56 {
        6
    } else if i >= 56 {
        if f == 0 || f == 7 {
            9
        } else if f == 1 || f == 6 {
            7
        } else if f == 2 || f == 5 {
            8
        } else if f == 3 {
            10
        } else {
            11
        }
    } else {
        12
    }
}

/// The start position.
pub open spec fn start_model() -> BoardModel {
    (
        Seq::new(64, |i: int| Piece::from_idx(start_index(i))),
        Color::White,
        None,
        0b1111u8,
        0u16,
        1u16,
    )
}

impl Board {
    /// The mailbox and the bitboards agree, and the en passant tile is on
    /// the board.
    #[verifier::type_invariant]
    pub closed spec fn wf(self) -> bool {
        &&& forall|k: int, i: u64|
            0 <= k < 12 && i < 64 ==> (#[trigger] bit_set(self.boards[k], i) <==> self.mailbox[i as int].idx() == k)
        &&& self.en_passant matches Some(t) ==> 0 <= t.sq() < 64
    }

    /// The abstract board.
    pub closed spec fn model(self) -> BoardModel {
        (
            self.mailbox@,
            self.side_to_move,
            match self.en_passant {
                Some(t) => Some(t.sq()),
                None => None,
            },
            self.castling_state.bits_of(),
            self.halfmove_clock,
            self.fullmove_number,
        )
    }

    /// Two well-formed boards with the same model are the same board.
    pub proof fn lemma_model_ext(a: Board, b: Board)
        requires
            a.wf(),
            b.wf(),
            a.model() == b.model(),
        ensures
            a == b,
    {
        assert(a.mailbox@ == b.mailbox@);
        assert(a.mailbox =~= b.mailbox);
        assert forall|k: int| 0 <= k < 12 implies a.boards[k] == b.boards[k] by {
            lemma_bits_ext(a.boards[k], b.boards[k]);
        }
        assert(a.boards =~= b.boards);
        match (a.en_passant, b.en_passant) {
            (Some(x), Some(y)) => {
                x.lemma_sq_injective(y);
            },
            _ => {},
        }
        let ca = a.castling_state;
        let cb = b.castling_state;
        assert(ca.bits_of() == cb.bits_of());
        lemma_castling_ext(ca, cb);
    }

    /// A well-formed board's model: 64 squares, en passant on the board.
    pub proof fn lemma_model_shape(self)
        requires
            self.wf(),
        ensures
            self.model().0.len() == 64,
            self.model().2 matches Some(e) ==> 0 <= e < 64,
    {
    }

    pub fn new() -> (b: Self)
        ensures
            b.model() == start_model(),
    {
        let mut boards: [Bitboard; 12] = [0; 12];
        // White pieces (ranks 1 and 2)
        boards[0] = 0x0000_0000_0000_FF00;
        boards[1] = 0x0000_0000_0000_0042;
        boards[2] = 0x0000_0000_0000_0024;
        boards[3] = 0x0000_0000_0000_0081;
        boards[4] = 0x0000_0000_0000_0008;
        boards[5] = 0x0000_0000_0000_0010;
        // Black pieces (ranks 7 and 8)
        boards[6] = 0x00FF_0000_0000_0000;
        boards[7] = 0x4200_0000_0000_0000;
        boards[8] = 0x2400_0000_0000_0000;
        boards[9] = 0x8100_0000_0000_0000;
        boards[10] = 0x0800_0000_0000_0000;
        boards[11] = 0x1000_0000_0000_0000;
        proof {
            assert forall|k: int, i: u64| 0 <= k < 12 && i < 64 implies (#[trigger] bit_set(boards[k], i)
                <==> start_index(i as int) == k) by {
                lemma_start_bits(i);
            }
        }
        let mut mailbox = [Piece::NoPiece; 64];
        let mut piece_idx: usize = 0;
        while piece_idx < 12
            invariant
                piece_idx <= 12,
                forall|k: int, i: u64| 0 <= k < 12 && i < 64 ==> (#[trigger] bit_set(boards[k], i)
                    <==> start_index(i as int) == k),
                forall|i: int| 0 <= i < 64 ==> #[trigger] mailbox[i] == if start_index(i) < piece_idx {
                    Piece::from_idx(start_index(i))
                } else {
                    Piece::NoPiece
                },
            decreases 12 - piece_idx,
        {
            let mut bitboard = boards[piece_idx];
            while bitboard != 0
                invariant
                    piece_idx < 12,
                    forall|k: int, i: u64| 0 <= k < 12 && i < 64 ==> (#[trigger] bit_set(boards[k], i)
                        <==> start_index(i as int) == k),
                    forall|i: u64| #[trigger] bit_set(bitboard, i) ==> bit_set(boards[piece_idx as int], i),
                    forall|i: int| 0 <= i < 64 ==> #[trigger] mailbox[i] == if start_index(i) < piece_idx || (
                    start_index(i) == piece_idx && !bit_set(bitboard, i as u64)) {
                        Piece::from_idx(start_index(i))
                    } else {
                        Piece::NoPiece
                    },
                decreases bitboard,
            {
                let ghost b0 = bitboard;
                proof {
                    lemma_without_lowest(bitboard);
                }
                let sq_idx = bitboard.trailing_zeros() as usize;
                mailbox[sq_idx] = Piece::from_index(piece_idx);
                // Clear the lowest set bit
                bitboard &= bitboard - 1;
                proof {
                    assert(bitboard == without_lowest(b0));
                    assert forall|i: int| 0 <= i < 64 implies #[trigger] mailbox[i] == if start_index(i) < piece_idx || (
                        start_index(i) == piece_idx && !bit_set(bitboard, i as u64)) {
                            Piece::from_idx(start_index(i))
                        } else {
                            Piece::NoPiece
                        } by {
                        assert(bit_set(bitboard, i as u64) <==> (bit_set(b0, i as u64) && i != sq_idx));
                        if i == sq_idx {
                            assert(bit_set(boards[piece_idx as int], i as u64));
                        }
                    }
                }
            }
            proof {
                lemma_empty(bitboard);
            }
            piece_idx += 1;
        }
        proof {
            assert forall|i: int| 0 <= i < 64 implies #[trigger] mailbox[i].idx() == start_index(i) by {
                if start_index(i) == 12 {
                } else {
                    assert(0 <= start_index(i) < 12);
                }
            }
        }
        let b = Self {
            boards,
            mailbox,
            side_to_move: Color::White,
            en_passant: None,
            castling_state: CastlingState::all(),
            halfmove_clock: 0,
            fullmove_number: 1,
        };
        proof {
            assert(b.mailbox@ =~= start_model().0);
        }
        b
    }

    /// The text picture of the board, as `Display` writes it.
    pub fn render(&self) -> (s: String)
        ensures
            s@ == render_spec(self.model().0),
    {
        proof {
            use_type_invariant(self);
        }
        let mut s = String::new();
        let mut rank: usize = 8;
        while rank > 0
            invariant
                rank <= 8,
                self.mailbox@.len() == 64,
                s@ + rows_from(self.mailbox@, rank as int - 1) == rows_from(self.mailbox@, 7),
            decreases rank,
        {
            rank -= 1;
            let ghost s0 = s@;
            push_char(&mut s, (49 + rank as u8) as char);
            push_char(&mut s, ' ');
            let mut file: usize = 0;
            while file < 8
                invariant
                    rank < 8,
                    file <= 8,
                    self.mailbox@.len() == 64,
                    s@ == s0 + seq![(49 + rank) as char, ' '] + row_cells(self.mailbox@, rank as int, file as int),
                decreases 8 - file,
            {
                let piece = self.mailbox[rank * 8 + file];
                let c = if piece.is_none() {
                    '.'
                } else {
                    piece.to_char()
                };
                push_char(&mut s, c);
                push_char(&mut s, ' ');
                proof {
                    assert(row_cells(self.mailbox@, rank as int, file as int + 1) =~= row_cells(self.mailbox@, rank as int, file as int) + seq![c, ' ']);
                }
                file += 1;
            }
            push_char(&mut s, '\n');
            proof {
                assert(s@ =~= s0 + row_text(self.mailbox@, rank as int));
                assert(rows_from(self.mailbox@, rank as int) == row_text(self.mailbox@, rank as int) + rows_from(self.mailbox@, rank as int - 1));
            }
        }
        let ghost s1 = s@;
        let footer = "  a b c d e f g h\n";
        crate::text::push_str(&mut s, footer);
        proof {
            assert(rows_from(self.mailbox@, -1) =~= Seq::<char>::empty());
            assert(s@ =~= rows_from(self.mailbox@, 7) + footer@);
            reveal_strlit("  a b c d e f g h\n");
        }
        s
    }
}

/// The bitboard contents of a piece in a model: the squares holding it.
pub open spec fn holds_piece(m: BoardModel, i: int, piece_idx: int) -> bool {
    m.0[i].idx() == piece_idx
}

/// The bitboard of the squares below `n` that `p` selects.
pub open spec fn bits_where(p: spec_fn(int) -> bool, n: int) -> u64
    decreases n,
{
    if n <= 0 {
        0
    } else {
        bits_where(p, n - 1) | (if p(n - 1) {
            1u64 << ((n - 1) as u64)
        } else {
            0u64
        })
    }
}

/// The squares of a mailbox that hold piece number `k`.
pub open spec fn piece_bits(mb: Seq<Piece>, k: int) -> u64 {
    bits_where(|i: int| mb[i].idx() == k, 64)
}

/// The squares of a mailbox that hold a piece of `c`.
pub open spec fn color_bits(mb: Seq<Piece>, c: Color) -> u64 {
    bits_where(|i: int| c.idx() * 6 <= mb[i].idx() < c.idx() * 6 + 6, 64)
}

/// The squares of a mailbox that hold a piece.
pub open spec fn occupied_bits(mb: Seq<Piece>) -> u64 {
    bits_where(|i: int| !(mb[i] is NoPiece), 64)
}

/// A square is in `bits_where(p, n)` exactly when it is below `n` and `p`
/// selects it.
pub proof fn lemma_bits_where(p: spec_fn(int) -> bool, n: int, i: u64)
    requires
        0 <= n <= 64,
        i < 64,
    ensures
        bit_set(bits_where(p, n), i) <==> (i < n && p(i as int)),
    decreases n,
{
    if n <= 0 {
        lemma_empty(0);
    } else {
        lemma_bits_where(p, n - 1, i);
        let single: u64 = if p(n - 1) { 1u64 << ((n - 1) as u64) } else { 0u64 };
        lemma_bit_ops(bits_where(p, n - 1), single, i);
        lemma_single((n - 1) as u64, i);
        lemma_empty(0);
    }
}

/// A bitboard whose squares are those that `p` selects is `bits_where(p, 64)`.
pub proof fn lemma_bits_where_ext(p: spec_fn(int) -> bool, bb: u64)
    requires
        forall|i: u64| i < 64 ==> (#[trigger] bit_set(bb, i) <==> p(i as int)),
    ensures
        bb == bits_where(p, 64),
{
    assert forall|i: u64| i < 64 implies (bit_set(bb, i) <==> bit_set(bits_where(p, 64), i)) by {
        lemma_bits_where(p, 64, i);
    }
    lemma_bits_ext(bb, bits_where(p, 64));
}

impl BoardState for Board {
    fn get_piece(&self, tile: Tile) -> (p: Piece)
        ensures
            p == self.model().0[tile.sq()],
    {
        self.mailbox[tile.get_idx()]
    }

    fn set_piece(&mut self, tile: Tile, piece: Piece)
        ensures
            final(self).model() == (
                old(self).model().0.update(tile.sq(), piece),
                old(self).model().1,
                old(self).model().2,
                old(self).model().3,
                old(self).model().4,
                old(self).model().5,
            ),
    {
        proof {
            use_type_invariant(&*self);
        }
        let idx = tile.get_idx();
        let mask: Bitboard = 1u64 << idx as u64;
        let mut boards = self.boards;
        let mut mailbox = self.mailbox;
        let old_piece = mailbox[idx];
        if !old_piece.is_none() {
            boards[old_piece.index()] = boards[old_piece.index()] & !mask;
        }
        let ghost mid = boards;
        if !piece.is_none() {
            boards[piece.index()] = boards[piece.index()] | mask;
        }
        mailbox[idx] = piece;
        proof {
            assert forall|k: int, i: u64| 0 <= k < 12 && i < 64 implies (#[trigger] bit_set(boards[k], i)
                <==> mailbox[i as int].idx() == k) by {
                lemma_single(idx as u64, i);
                lemma_bit_ops(self.boards[k], !mask, i);
                lemma_bit_ops(mask, 0, i);
                lemma_bit_ops(mid[k], mask, i);
            }
        }
        *self = Board { boards, mailbox, ..*self };
        proof {
            assert(self.mailbox@ =~= old(self).mailbox@.update(tile.sq(), piece));
        }
    }

    fn get_bitboard(&self, class: Class, color: Color) -> (r: Bitboard)
        ensures
            forall|i: u64| i < 64 ==> (#[trigger] bit_set(r, i) <==> holds_piece(
                self.model(),
                i as int,
                color.idx() * 6 + class.idx(),
            )),
            r == piece_bits(self.model().0, color.idx() * 6 + class.idx()),
    {
        proof {
            use_type_invariant(self);
        }
        let r = self.boards[Piece::new(class, color).index()];
        proof {
            let k = color.idx() * 6 + class.idx();
            lemma_bits_where_ext(|i: int| self.model().0[i].idx() == k, r);
        }
        r
    }

    fn get_occupied(&self, color: Color) -> (r: Bitboard)
        ensures
            forall|i: u64| i < 64 ==> (#[trigger] bit_set(r, i) <==> (color.idx() * 6 <= self.model().0[i as int].idx() < color.idx() * 6 + 6)),
            r == color_bits(self.model().0, color),
    {
        let a = self.get_bitboard(Class::Pawn, color);
        let b = self.get_bitboard(Class::Knight, color);
        let c = self.get_bitboard(Class::Bishop, color);
        let d = self.get_bitboard(Class::Rook, color);
        let e = self.get_bitboard(Class::Queen, color);
        let f = self.get_bitboard(Class::King, color);
        // Explicitly ORing the six bitboards avoids a loop
        let r = a | b | c | d | e | f;
        proof {
            assert forall|i: u64| i < 64 implies (#[trigger] bit_set(r, i) <==> (color.idx() * 6 <= self.model().0[i as int].idx() < color.idx() * 6 + 6)) by {
                lemma_or6(a, b, c, d, e, f, i);
                assert(bit_set(a, i) <==> holds_piece(self.model(), i as int, color.idx() * 6 + 0));
                assert(bit_set(b, i) <==> holds_piece(self.model(), i as int, color.idx() * 6 + 1));
                assert(bit_set(c, i) <==> holds_piece(self.model(), i as int, color.idx() * 6 + 2));
                assert(bit_set(d, i) <==> holds_piece(self.model(), i as int, color.idx() * 6 + 3));
                assert(bit_set(e, i) <==> holds_piece(self.model(), i as int, color.idx() * 6 + 4));
                assert(bit_set(f, i) <==> holds_piece(self.model(), i as int, color.idx() * 6 + 5));
            }
            lemma_bits_where_ext(|i: int| color.idx() * 6 <= self.model().0[i].idx() < color.idx() * 6 + 6, r);
        }
        r
    }

    fn get_all_occupied(&self) -> (r: Bitboard)
        ensures
            forall|i: u64| i < 64 ==> (#[trigger] bit_set(r, i) <==> !(self.model().0[i as int] is NoPiece)),
            r == occupied_bits(self.model().0),
    {
        proof {
            use_type_invariant(self);
        }
        let mut acc: Bitboard = 0;
        let mut k: usize = 0;
        proof {
            lemma_empty(0);
        }
        while k < 12
            invariant
                k <= 12,
                self.wf(),
                forall|i: u64| i < 64 ==> (#[trigger] bit_set(acc, i) <==> self.mailbox[i as int].idx() < k),
            decreases 12 - k,
        {
            let ghost a0 = acc;
            acc = acc | self.boards[k];
            proof {
                assert forall|i: u64| i < 64 implies (#[trigger] bit_set(acc, i) <==> self.mailbox[i as int].idx() < k + 1) by {
                    lemma_bit_ops(a0, self.boards[k as int], i);
                }
            }
            k += 1;
        }
        proof {
            lemma_bits_where_ext(|i: int| !(self.model().0[i] is NoPiece), acc);
        }
        acc
    }

    fn get_side_to_move(&self) -> (c: Color)
        ensures
            c == self.model().1,
    {
        self.side_to_move
    }

    fn pass_player_turn(&mut self)
        ensures
            final(self).model() == (
                old(self).model().0,
                old(self).model().1.other(),
                old(self).model().2,
                old(self).model().3,
                old(self).model().4,
                old(self).model().5,
            ),
    {
        proof {
            use_type_invariant(&*self);
        }
        self.side_to_move = self.side_to_move.opposite();
    }

    fn get_en_passant(&self) -> (r: Option<Tile>)
        ensures
            r is None <==> self.model().2 is None,
            r matches Some(t) ==> self.model().2 == Some(t.sq()),
    {
        self.en_passant
    }

    fn set_en_passant(&mut self, tile: Tile)
        ensures
            final(self).model() == (
                old(self).model().0,
                old(self).model().1,
                Some(tile.sq()),
                old(self).model().3,
                old(self).model().4,
                old(self).model().5,
            ),
    {
        proof {
            use_type_invariant(&*self);
        }
        let _ = tile.get_idx();
        self.en_passant = Some(tile);
    }

    fn clear_en_passants(&mut self)
        ensures
            final(self).model() == (
                old(self).model().0,
                old(self).model().1,
                None::<int>,
                old(self).model().3,
                old(self).model().4,
                old(self).model().5,
            ),
    {
        proof {
            use_type_invariant(&*self);
        }
        self.en_passant = None;
    }

    fn get_castling_state(&self) -> (r: CastlingState)
        ensures
            r.bits_of() == self.model().3,
    {
        self.castling_state
    }

    fn set_castling_state(&mut self, castling_state: CastlingState)
        ensures
            final(self).model() == (
                old(self).model().0,
                old(self).model().1,
                old(self).model().2,
                castling_state.bits_of(),
                old(self).model().4,
                old(self).model().5,
            ),
    {
        proof {
            use_type_invariant(&*self);
        }
        self.castling_state = castling_state;
    }

    fn get_halfmove_clock(&self) -> (r: u16)
        ensures
            r == self.model().4,
    {
        self.halfmove_clock
    }

    fn set_halfmove_clock(&mut self, val: u16)
        ensures
            final(self).model() == (
                old(self).model().0,
                old(self).model().1,
                old(self).model().2,
                old(self).model().3,
                val,
                old(self).model().5,
            ),
    {
        proof {
            use_type_invariant(&*self);
        }
        self.halfmove_clock = val;
    }

    fn get_fullmove_number(&self) -> (r: u16)
        ensures
            r == self.model().5,
    {
        self.fullmove_number
    }

    fn set_fullmove_number(&mut self, val: u16)
        ensures
            final(self).model() == (
                old(self).model().0,
                old(self).model().1,
                old(self).model().2,
                old(self).model().3,
                old(self).model().4,
                val,
            ),
    {
        proof {
            use_type_invariant(&*self);
        }
        self.fullmove_number = val;
    }
}

/// A square is in the union of six bitboards exactly when it is in one.
pub proof fn lemma_or6(a: u64, b: u64, c: u64, d: u64, e: u64, f: u64, i: u64)
    requires
        i < 64,
    ensures
        bit_set(a | b | c | d | e | f, i) <==> (bit_set(a, i) || bit_set(b, i) || bit_set(c, i)
            || bit_set(d, i) || bit_set(e, i) || bit_set(f, i)),
{
    lemma_bit_ops(a | b | c | d | e, f, i);
    lemma_bit_ops(a | b | c | d, e, i);
    lemma_bit_ops(a | b | c, d, i);
    lemma_bit_ops(a | b, c, i);
    lemma_bit_ops(a, b, i);
}

/// The cell text of a square: its piece letter or a dot, then a space.
pub open spec fn cell(p: Piece) -> Seq<char> {
    seq![if p is NoPiece { '.' } else { p.letter() }, ' ']
}

/// The cells of the first `n` files of `rank`.
pub open spec fn row_cells(mb: Seq<Piece>, rank: int, n: int) -> Seq<char>
    decreases n,
{
    if n <= 0 {
        Seq::empty()
    } else {
        row_cells(mb, rank, n - 1) + cell(mb[rank * 8 + n - 1])
    }
}

/// The line of one rank: its digit, its eight cells, a line break.
pub open spec fn row_text(mb: Seq<Piece>, rank: int) -> Seq<char> {
    seq![(49 + rank) as char, ' '] + row_cells(mb, rank, 8) + seq!['\n']
}

/// The lines of the ranks `rank` down to the first.
pub open spec fn rows_from(mb: Seq<Piece>, rank: int) -> Seq<char>
    decreases rank + 1,
{
    if rank < 0 {
        Seq::empty()
    } else {
        row_text(mb, rank) + rows_from(mb, rank - 1)
    }
}

/// The picture of a board: ranks 8 down to 1, then the file letters.
pub open spec fn render_spec(mb: Seq<Piece>) -> Seq<char> {
    rows_from(mb, 7) + "  a b c d e f g h\n"@
}

proof fn lemma_castling_ext(a: CastlingState, b: CastlingState)
    requires
        a.bits_of() == b.bits_of(),
    ensures
        a == b,
{
    crate::chess::board_state::lemma_castling_state_ext(a, b);
}

/// The start bitboards hold the squares of the start position.
proof fn lemma_start_bits(i: u64)
    requires
        i < 64,
    ensures
        bit_set(0x0000_0000_0000_FF00u64, i) <==> start_index(i as int) == 0,
        bit_set(0x0000_0000_0000_0042u64, i) <==> start_index(i as int) == 1,
        bit_set(0x0000_0000_0000_0024u64, i) <==> start_index(i as int) == 2,
        bit_set(0x0000_0000_0000_0081u64, i) <==> start_index(i as int) == 3,
        bit_set(0x0000_0000_0000_0008u64, i) <==> start_index(i as int) == 4,
        bit_set(0x0000_0000_0000_0010u64, i) <==> start_index(i as int) == 5,
        bit_set(0x00FF_0000_0000_0000u64, i) <==> start_index(i as int) == 6,
        bit_set(0x4200_0000_0000_0000u64, i) <==> start_index(i as int) == 7,
        bit_set(0x2400_0000_0000_0000u64, i) <==> start_index(i as int) == 8,
        bit_set(0x8100_0000_0000_0000u64, i) <==> start_index(i as int) == 9,
        bit_set(0x0800_0000_0000_0000u64, i) <==> start_index(i as int) == 10,
        bit_set(0x1000_0000_0000_0000u64, i) <==> start_index(i as int) == 11,
{
    assert(((0x0000_0000_0000_FF00u64 >> i) & 1 == 1 <==> (8 <= i < 16)) && ((0x0000_0000_0000_0042u64
        >> i) & 1 == 1 <==> (i == 1 || i == 6)) && ((0x0000_0000_0000_0024u64 >> i) & 1 == 1 <==> (i
        == 2 || i == 5)) && ((0x0000_0000_0000_0081u64 >> i) & 1 == 1 <==> (i == 0 || i == 7)) && ((
    0x0000_0000_0000_0008u64 >> i) & 1 == 1 <==> i == 3) && ((0x0000_0000_0000_0010u64 >> i) & 1 == 1
        <==> i == 4) && ((0x00FF_0000_0000_0000u64 >> i) & 1 == 1 <==> (48 <= i < 56)) && ((
    0x4200_0000_0000_0000u64 >> i) & 1 == 1 <==> (i == 57 || i == 62)) && ((0x2400_0000_0000_0000u64
        >> i) & 1 == 1 <==> (i == 58 || i == 61)) && ((0x8100_0000_0000_0000u64 >> i) & 1 == 1 <==> (i
        == 56 || i == 63)) && ((0x0800_0000_0000_0000u64 >> i) & 1 == 1 <==> i == 59) && ((
    0x1000_0000_0000_0000u64 >> i) & 1 == 1 <==> i == 60)) by (bit_vector)
        requires
            i < 64,
    ;
}

} // verus!
