//! Bitboard-based chess board representation.
//!
//! Each piece type and color occupies one u64. A set bit at index `i`
//! means that piece is on square `i` (index 0 = a1, 63 = h8).

use vstd::prelude::*;
use vstd::std_specs::bits::{u64_trailing_zeros, axiom_u64_trailing_zeros};
use vstd::string::{is_ascii_spec_bytes, StringSliceAdditionalSpecFns};
use crate::text::push_char;

verus! {

pub type Bitboard = u64;

// ── Mathematical model of a bitboard ─────────────────────────────────────────

/// Square `i` belongs to the set that `bb` stands for.
pub open spec fn bit_set(bb: u64, i: u64) -> bool {
    i < 64 && (bb >> i) & 1 == 1
}

/// The index of the lowest set bit (64 for the empty board).
pub open spec fn lowest(bb: u64) -> u64 {
    u64_trailing_zeros(bb) as u64
}

/// `bb` without its lowest set bit.
pub open spec fn without_lowest(bb: u64) -> u64 {
    bb & ((bb - 1) as u64)
}

/// The squares of `bb` in increasing order.
pub open spec fn squares(bb: u64) -> Seq<u32>
    decreases bb,
{
    if bb == 0 {
        Seq::empty()
    } else {
        proof {
            lemma_without_lowest(bb);
        }
        seq![lowest(bb) as u32] + squares(without_lowest(bb))
    }
}

/// Number of set bits among the squares `0..n`.
pub open spec fn ones_below(bb: u64, n: nat) -> nat
    decreases n,
{
    if n == 0 {
        0
    } else {
        ones_below(bb, (n - 1) as nat) + if bit_set(bb, (n - 1) as u64) { 1nat } else { 0nat }
    }
}

/// Number of set bits of `bb`.
pub open spec fn ones(bb: u64) -> nat {
    ones_below(bb, 64)
}

/// Facts about the lowest set bit and about clearing it.
pub proof fn lemma_without_lowest(bb: u64)
    requires
        bb != 0,
    ensures
        lowest(bb) < 64,
        bit_set(bb, lowest(bb)),
        forall|i: u64| i < lowest(bb) ==> !bit_set(bb, i),
        forall|i: u64| #![trigger bit_set(without_lowest(bb), i)]
            bit_set(without_lowest(bb), i) <==> (bit_set(bb, i) && i != lowest(bb)),
        without_lowest(bb) < bb,
{
    axiom_u64_trailing_zeros(bb);
    let z = u64_trailing_zeros(bb) as u64;
    assert(bb << ((64 - z) as u64) == 0);
    assert forall|i: u64| #![trigger bit_set(without_lowest(bb), i)]
        bit_set(without_lowest(bb), i) <==> (bit_set(bb, i) && i != z) by {
        assert(i < 64 ==> ((((bb & ((bb - 1) as u64)) >> i) & 1 == 1) <==> ((bb >> i) & 1 == 1
            && i != z))) by (bit_vector)
            requires
                bb != 0,
                z < 64,
                (bb >> z) & 1 == 1,
                bb << ((64 - z) as u64) == 0,
        ;
    }
    assert(bb & ((bb - 1) as u64) < bb) by (bit_vector)
        requires
            bb != 0,
    ;
}

/// The empty board has no set bit, and a board with no set bit is empty.
pub proof fn lemma_empty(bb: u64)
    ensures
        bb == 0 <==> forall|i: u64| i < 64 ==> !bit_set(bb, i),
        bb == 0 ==> lowest(bb) == 64,
{
    axiom_u64_trailing_zeros(bb);
    if bb != 0 {
        lemma_without_lowest(bb);
    }
}

/// Two bitboards with the same squares are equal.
pub proof fn lemma_bits_ext(a: u64, b: u64)
    requires
        forall|i: u64| i < 64 ==> (bit_set(a, i) <==> bit_set(b, i)),
    ensures
        a == b,
{
    assert forall|i: u64| i < 64 implies !bit_set(a ^ b, i) by {
        lemma_bit_ops(a, b, i);
    }
    lemma_empty(a ^ b);
    assert(a ^ b == 0 ==> a == b) by (bit_vector);
}

/// The bitwise operators are set operations on squares.
pub broadcast proof fn lemma_bit_ops(a: u64, b: u64, i: u64)
    requires
        i < 64,
    ensures
        #[trigger] bit_set(a & b, i) <==> bit_set(a, i) && bit_set(b, i),
        #[trigger] bit_set(a | b, i) <==> bit_set(a, i) || bit_set(b, i),
        #[trigger] bit_set(a ^ b, i) <==> bit_set(a, i) != bit_set(b, i),
        #[trigger] bit_set(!a, i) <==> !bit_set(a, i),
{
    assert(((((a & b) >> i) & 1 == 1) <==> ((a >> i) & 1 == 1 && (b >> i) & 1 == 1)) && ((((a | b)
        >> i) & 1 == 1) <==> ((a >> i) & 1 == 1 || (b >> i) & 1 == 1)) && ((((a ^ b) >> i) & 1 == 1)
        <==> ((a >> i) & 1 == 1) != ((b >> i) & 1 == 1)) && (((!a >> i) & 1 == 1) <==> !((a >> i)
        & 1 == 1))) by (bit_vector)
        requires
            i < 64,
    ;
}

/// The single-square board holds exactly square `s`.
pub broadcast proof fn lemma_single(s: u64, i: u64)
    requires
        s < 64,
    ensures
        #[trigger] bit_set(1u64 << s, i) <==> i == s,
{
    assert(s < 64 ==> ((((1u64 << s) >> i) & 1 == 1) <==> (i < 64 && i == s))) by (bit_vector);
}

// ── Bit manipulation helpers ──────────────────────────────────────────────────

/// Index of the lowest set bit (64 when `bb` is empty).
pub fn lsb(bb: Bitboard) -> (r: u32)
    ensures
        r as u64 == lowest(bb),
        bb == 0 ==> r == 64,
        bb != 0 ==> r < 64 && bit_set(bb, r as u64) && forall|i: u64| i < r ==> !bit_set(bb, i),
{
    proof {
        lemma_empty(bb);
    }
    bb.trailing_zeros()
}

/// Removes the lowest set bit of a non-empty bitboard and returns its index.
pub fn pop_lsb(bb: &mut Bitboard) -> (r: u32)
    requires
        *old(bb) != 0,
    ensures
        r as u64 == lowest(*old(bb)),
        r < 64,
        bit_set(*old(bb), r as u64),
        *final(bb) == without_lowest(*old(bb)),
        forall|i: u64| #![trigger bit_set(*final(bb), i)]
            bit_set(*final(bb), i) <==> (bit_set(*old(bb), i) && i != r),
        squares(*old(bb)) == seq![r] + squares(*final(bb)),
        *final(bb) < *old(bb),
{
    proof {
        lemma_without_lowest(*bb);
    }
    let sq = lsb(*bb);
    *bb &= *bb - 1;
    sq
}

/// The bitboard holding square `sq` alone.
pub fn sq_bb(sq: u32) -> (r: Bitboard)
    requires
        sq < 64,
    ensures
        r == 1u64 << sq as u64,
        forall|i: u64| #![trigger bit_set(r, i)] bit_set(r, i) <==> i == sq,
{
    proof {
        assert forall|i: u64| #![trigger bit_set(1u64 << sq as u64, i)]
            bit_set(1u64 << sq as u64, i) <==> i == sq by {
            lemma_single(sq as u64, i);
        }
    }
    1u64 << sq
}

/// `u64::count_ones`: the number of set bits.
/// Trusted: the claim is that the result is the number of ones among the 64
/// bits, as the standard library documents.
#[verifier::external_body]
fn count_ones(bb: u64) -> (r: u32)
    ensures
        r as nat == ones(bb),
{
    bb.count_ones()
}

/// Number of set bits.
pub fn popcount(bb: Bitboard) -> (r: u32)
    ensures
        r as nat == ones(bb),
        r <= 64,
{
    proof {
        lemma_ones_below_bound(bb, 64);
    }
    count_ones(bb)
}

pub proof fn lemma_ones_below_bound(bb: u64, n: nat)
    ensures
        ones_below(bb, n) <= n,
    decreases n,
{
    if n > 0 {
        lemma_ones_below_bound(bb, (n - 1) as nat);
    }
}


/// Clearing the lowest set bit removes exactly one square.
pub proof fn lemma_ones_without_lowest(bb: u64)
    requires
        bb != 0,
    ensures
        ones(without_lowest(bb)) + 1 == ones(bb),
{
    lemma_without_lowest(bb);
    lemma_ones_below_without_lowest(bb, 64);
}

proof fn lemma_ones_below_without_lowest(bb: u64, n: nat)
    requires
        bb != 0,
        n <= 64,
    ensures
        ones_below(without_lowest(bb), n) + (if lowest(bb) < n { 1nat } else { 0nat })
            == ones_below(bb, n),
    decreases n,
{
    lemma_without_lowest(bb);
    if n > 0 {
        lemma_ones_below_without_lowest(bb, (n - 1) as nat);
        assert(bit_set(without_lowest(bb), (n - 1) as u64) <==> (bit_set(bb, (n - 1) as u64) && (n
            - 1) as u64 != lowest(bb)));
    }
}

/// The ordered squares of a bitboard: one entry per set bit, each set.
pub proof fn lemma_squares(bb: u64)
    ensures
        squares(bb).len() == ones(bb),
        forall|k: int| 0 <= k < squares(bb).len() ==> bit_set(bb, #[trigger] squares(bb)[k] as u64),
        forall|i: u64| bit_set(bb, i) ==> squares(bb).contains(i as u32),
    decreases bb,
{
    if bb == 0 {
        lemma_empty(bb);
        assert(ones_below(0, 64) == 0) by {
            lemma_ones_below_zero(64);
        }
    } else {
        lemma_without_lowest(bb);
        lemma_ones_without_lowest(bb);
        let w = without_lowest(bb);
        lemma_squares(w);
        let s = squares(bb);
        assert(s == seq![lowest(bb) as u32] + squares(w));
        assert forall|k: int| 0 <= k < s.len() implies bit_set(bb, #[trigger] s[k] as u64) by {
            if k > 0 {
                assert(s[k] == squares(w)[k - 1]);
            }
        }
        assert forall|i: u64| bit_set(bb, i) implies s.contains(i as u32) by {
            if i == lowest(bb) {
                assert(s[0] == i as u32);
            } else {
                assert(bit_set(w, i));
                let k = choose|k: int| 0 <= k < squares(w).len() && squares(w)[k] == i as u32;
                assert(s[k + 1] == i as u32);
            }
        }
    }
}

proof fn lemma_ones_below_zero(n: nat)
    ensures
        ones_below(0, n) == 0,
    decreases n,
{
    if n > 0 {
        lemma_ones_below_zero((n - 1) as nat);
        let k = (n - 1) as u64;
        assert(((0u64 >> k) & 1) == 0) by (bit_vector);
    }
}

/// Shifting left moves every square `k` places up.
pub broadcast proof fn lemma_shl(x: u64, k: u64, i: u64)
    requires
        k < 64,
        i < 64,
    ensures
        #[trigger] bit_set(x << k, i) <==> (i >= k && bit_set(x, (i - k) as u64)),
{
    assert(((x << k) >> i) & 1 == 1 <==> (i >= k && (x >> ((i - k) as u64)) & 1 == 1))
        by (bit_vector)
        requires
            k < 64,
            i < 64,
    ;
}

/// Shifting right moves every square `k` places down.
pub broadcast proof fn lemma_shr(x: u64, k: u64, i: u64)
    requires
        k < 64,
        i < 64,
    ensures
        #[trigger] bit_set(x >> k, i) <==> (i + k < 64 && bit_set(x, (i + k) as u64)),
{
    assert(((x >> k) >> i) & 1 == 1 <==> (i + k < 64 && (x >> ((i + k) as u64)) & 1 == 1))
        by (bit_vector)
        requires
            k < 64,
            i < 64,
    ;
}

/// The edge files and ranks.
pub broadcast proof fn lemma_edge_masks(i: u64)
    requires
        i < 64,
    ensures
        #[trigger] bit_set(FILE_A, i) <==> i % 8 == 0,
        #[trigger] bit_set(FILE_H, i) <==> i % 8 == 7,
        #[trigger] bit_set(RANK_1, i) <==> i < 8,
        #[trigger] bit_set(RANK_8, i) <==> i >= 56,
{
    assert(((0x0101_0101_0101_0101u64 >> i) & 1 == 1 <==> i % 8 == 0) && ((0x8080_8080_8080_8080u64
        >> i) & 1 == 1 <==> i % 8 == 7) && ((0xFFu64 >> i) & 1 == 1 <==> i < 8) && ((
    0xFF00_0000_0000_0000u64 >> i) & 1 == 1 <==> i >= 56)) by (bit_vector)
        requires
            i < 64,
    ;
}

// ── File / rank masks ─────────────────────────────────────────────────────────

pub const FILE_A: Bitboard = 0x0101_0101_0101_0101;
pub const FILE_H: Bitboard = 0x8080_8080_8080_8080;
pub const RANK_1: Bitboard = 0x0000_0000_0000_00FF;
pub const RANK_8: Bitboard = 0xFF00_0000_0000_0000;
pub const RANK_2: Bitboard = 0x0000_0000_0000_FF00;
pub const RANK_7: Bitboard = 0x00FF_0000_0000_0000;

// ── Color / piece indices ─────────────────────────────────────────────────────

#[derive(Clone, Copy, PartialEq, Eq, Structural, Debug)]
pub enum Color {
    White,
    Black,
}

impl Color {
    /// 0 for White, 1 for Black.
    pub open spec fn idx(self) -> int {
        match self {
            Color::White => 0,
            Color::Black => 1,
        }
    }

    pub open spec fn flipped(self) -> Color {
        match self {
            Color::White => Color::Black,
            Color::Black => Color::White,
        }
    }

    pub fn flip(self) -> (r: Color)
        ensures
            r == self.flipped(),
    {
        match self {
            Color::White => Color::Black,
            Color::Black => Color::White,
        }
    }

    /// Position of the color in `Board::pieces`.
    pub fn index(self) -> (r: usize)
        ensures
            r as int == self.idx(),
    {
        match self {
            Color::White => 0,
            Color::Black => 1,
        }
    }
}

#[derive(Clone, Copy, PartialEq, Eq, Structural, Debug)]
pub enum Piece {
    Pawn,
    Knight,
    Bishop,
    Rook,
    Queen,
    King,
}

impl Piece {
    /// Position of the piece kind in a color's row of `Board::pieces`.
    pub open spec fn idx(self) -> int {
        match self {
            Piece::Pawn => 0,
            Piece::Knight => 1,
            Piece::Bishop => 2,
            Piece::Rook => 3,
            Piece::Queen => 4,
            Piece::King => 5,
        }
    }

    /// The piece kind at position `i`; anything from 5 on is the king.
    pub open spec fn from_idx(i: int) -> Piece {
        if i == 0 {
            Piece::Pawn
        } else if i == 1 {
            Piece::Knight
        } else if i == 2 {
            Piece::Bishop
        } else if i == 3 {
            Piece::Rook
        } else if i == 4 {
            Piece::Queen
        } else {
            Piece::King
        }
    }

    pub fn index(self) -> (r: usize)
        ensures
            r as int == self.idx(),
            r < 6,
    {
        match self {
            Piece::Pawn => 0,
            Piece::Knight => 1,
            Piece::Bishop => 2,
            Piece::Rook => 3,
            Piece::Queen => 4,
            Piece::King => 5,
        }
    }

    pub fn from_index(i: usize) -> (r: Piece)
        ensures
            r == Piece::from_idx(i as int),
    {
        match i {
            0 => Piece::Pawn,
            1 => Piece::Knight,
            2 => Piece::Bishop,
            3 => Piece::Rook,
            4 => Piece::Queen,
            _ => Piece::King,
        }
    }
}

// ── Board state ───────────────────────────────────────────────────────────────

/// Full board state stored as 12 bitboards (6 piece types × 2 colors).
/// Castling rights packed into a u8; en passant square as Option<u32>.
#[derive(Clone, Copy, Debug)]
pub struct Board {
    /// pieces[color][piece]
    pub pieces: [[Bitboard; 6]; 2],
    pub side_to_move: Color,
    /// Bits: 0=WK, 1=WQ, 2=BK, 3=BQ
    pub castling_rights: u8,
    pub en_passant: Option<u32>,
    pub halfmove_clock: u32,
    pub fullmove_number: u32,
}

/// The bitboard of pieces of kind `p` and color `c`.
pub open spec fn pieces_of(board: Board, c: Color, p: Piece) -> u64 {
    board.pieces[c.idx()][p.idx()]
}

/// All squares of color `c`.
pub open spec fn color_set(board: Board, c: Color) -> u64 {
    let row = board.pieces[c.idx()];
    row[0] | row[1] | row[2] | row[3] | row[4] | row[5]
}

/// All occupied squares.
pub open spec fn occupied_set(board: Board) -> u64 {
    color_set(board, Color::White) | color_set(board, Color::Black)
}

/// The first piece kind (in the order pawn .. king) of color `c` from kind
/// `p` on that has square `sq`.
pub open spec fn kind_on_from(board: Board, c: Color, sq: u64, p: int) -> Option<Piece>
    decreases 6 - p,
{
    if p >= 6 || p < 0 {
        None
    } else if bit_set(board.pieces[c.idx()][p], sq) {
        Some(Piece::from_idx(p))
    } else {
        kind_on_from(board, c, sq, p + 1)
    }
}

/// The piece of color `c` on `sq`, found in the order pawn .. king.
pub open spec fn kind_on(board: Board, c: Color, sq: u64) -> Option<Piece> {
    kind_on_from(board, c, sq, 0)
}

/// The piece kinds of color `c` on `sq` found from kind `p` on belong to that
/// square.
pub proof fn lemma_kind_on_from(board: Board, c: Color, sq: u64, p: int)
    requires
        0 <= p <= 6,
    ensures
        kind_on_from(board, c, sq, p) matches Some(k) ==> bit_set(pieces_of(board, c, k), sq)
            && p <= k.idx() < 6,
        kind_on_from(board, c, sq, p) is None ==> forall|q: int|
            p <= q < 6 ==> !bit_set(#[trigger] board.pieces[c.idx()][q], sq),
    decreases 6 - p,
{
    if 0 <= p < 6 && !bit_set(board.pieces[c.idx()][p], sq) {
        lemma_kind_on_from(board, c, sq, p + 1);
    }
}

pub open spec fn start_position() -> Board {
    Board {
        pieces: [
            [
                0x0000_0000_0000_FF00u64,
                0x0000_0000_0000_0042u64,
                0x0000_0000_0000_0024u64,
                0x0000_0000_0000_0081u64,
                0x0000_0000_0000_0008u64,
                0x0000_0000_0000_0010u64,
            ],
            [
                0x00FF_0000_0000_0000u64,
                0x4200_0000_0000_0000u64,
                0x2400_0000_0000_0000u64,
                0x8100_0000_0000_0000u64,
                0x0800_0000_0000_0000u64,
                0x1000_0000_0000_0000u64,
            ],
        ],
        side_to_move: Color::White,
        castling_rights: 0b1111,
        en_passant: None,
        halfmove_clock: 0,
        fullmove_number: 1,
    }
}

impl Board {
    /// Return the starting position.
    pub fn startpos() -> (r: Self)
        ensures
            r == start_position(),
    {
        Board {
            pieces: [
                [
                    0x0000_0000_0000_FF00,
                    0x0000_0000_0000_0042,
                    0x0000_0000_0000_0024,
                    0x0000_0000_0000_0081,
                    0x0000_0000_0000_0008,
                    0x0000_0000_0000_0010,
                ],
                [
                    0x00FF_0000_0000_0000,
                    0x4200_0000_0000_0000,
                    0x2400_0000_0000_0000,
                    0x8100_0000_0000_0000,
                    0x0800_0000_0000_0000,
                    0x1000_0000_0000_0000,
                ],
            ],
            side_to_move: Color::White,
            castling_rights: 0b1111,
            en_passant: None,
            halfmove_clock: 0,
            fullmove_number: 1,
        }
    }

    pub fn occupied(&self) -> (r: Bitboard)
        ensures
            r == occupied_set(*self),
    {
        self.color_bb(Color::White) | self.color_bb(Color::Black)
    }

    pub fn color_bb(&self, c: Color) -> (r: Bitboard)
        ensures
            r == color_set(*self, c),
    {
        let row = self.pieces[c.index()];
        row[0] | row[1] | row[2] | row[3] | row[4] | row[5]
    }

    pub fn piece_bb(&self, c: Color, p: Piece) -> (r: Bitboard)
        ensures
            r == pieces_of(*self, c, p),
    {
        self.pieces[c.index()][p.index()]
    }

    /// Return which piece (if any) sits on `sq` for color `c`.
    pub fn piece_on(&self, c: Color, sq: u32) -> (r: Option<Piece>)
        requires
            sq < 64,
        ensures
            r == kind_on(*self, c, sq as u64),
    {
        let mask = sq_bb(sq);
        let ci = c.index();
        let mut p: usize = 0;
        while p < 6
            invariant
                0 <= p <= 6,
                ci as int == c.idx(),
                mask == 1u64 << sq as u64,
                sq < 64,
                kind_on(*self, c, sq as u64) == kind_on_from(*self, c, sq as u64, p as int),
            decreases 6 - p,
        {
            proof {
                lemma_bit_ops(self.pieces[ci as int][p as int], mask, sq as u64);
                lemma_single(sq as u64, sq as u64);
                lemma_bit_nonzero(self.pieces[ci as int][p as int] & mask, sq as u64);
            }
            if self.pieces[ci][p] & mask != 0 {
                proof {
                    assert forall|i: u64| i < 64 && i != sq implies !bit_set(
                        self.pieces[ci as int][p as int] & mask,
                        i,
                    ) by {
                        lemma_bit_ops(self.pieces[ci as int][p as int], mask, i);
                        lemma_single(sq as u64, i);
                    }
                    lemma_empty(self.pieces[ci as int][p as int] & mask);
                }
                return Some(Piece::from_index(p));
            }
            p += 1;
        }
        None
    }
}

/// A set bit makes a bitboard non-zero.
pub proof fn lemma_bit_nonzero(bb: u64, i: u64)
    ensures
        bit_set(bb, i) ==> bb != 0,
{
    assert(i < 64 && (bb >> i) & 1 == 1 ==> bb != 0) by (bit_vector);
}

// ── Square utilities ──────────────────────────────────────────────────────────

/// The file letter and rank digit of a square, as `sq_name` writes them.
pub open spec fn square_name(sq: u32) -> Seq<char> {
    seq![(97 + sq % 8) as char, (49 + ((sq / 8) as u8)) as char]
}

/// What `sq_from_name` reads from the bytes of a name.
pub open spec fn parse_square(b: Seq<u8>) -> Option<u32> {
    if b.len() < 2 || b[0] < 97 || b[1] < 49 {
        None
    } else if b[0] - 97 < 8 && b[1] - 49 < 8 {
        Some(((b[1] - 49) * 8 + (b[0] - 97)) as u32)
    } else {
        None
    }
}

pub fn sq_name(sq: u32) -> (r: String)
    requires
        (sq / 8) as u8 <= 206,
    ensures
        r@ == square_name(sq),
{
    let file = (97u8 + (sq % 8) as u8) as char;
    let rank = (49u8 + (sq / 8) as u8) as char;
    let mut s = String::new();
    push_char(&mut s, file);
    push_char(&mut s, rank);
    s
}

pub fn sq_from_name(name: &str) -> (r: Option<u32>)
    ensures
        r == parse_square(name.spec_bytes()),
{
    let bytes = name.as_bytes();
    if bytes.len() < 2 {
        return None;
    }
    let file = match bytes[0].checked_sub(97u8) {
        Some(f) => f as u32,
        None => return None,
    };
    let rank = match bytes[1].checked_sub(49u8) {
        Some(r) => r as u32,
        None => return None,
    };
    if file < 8 && rank < 8 {
        Some(rank * 8 + file)
    } else {
        None
    }
}

/// Reading back the name of a square gives the square.
pub proof fn lemma_square_name_round_trip(sq: u32, name: &str)
    requires
        sq < 64,
        name@ == square_name(sq),
    ensures
        parse_square(name.spec_bytes()) == Some(sq),
{
    broadcast use is_ascii_spec_bytes;
    assert(vstd::string::is_ascii(name));
    let b = name.spec_bytes();
    assert(b[0] == 97 + sq % 8);
    assert(b[1] == 49 + sq / 8);
}


/// Counting set bits is monotone: a board whose squares all belong to `b`,
/// except possibly `extra`, has at most one more square than `b`; and one
/// missing a square `gone` of `b` has at least one fewer.
pub proof fn lemma_ones_compare(a: u64, b: u64, extra: Option<u64>, gone: Option<u64>)
    requires
        forall|i: u64| #[trigger] bit_set(a, i) ==> bit_set(b, i) || extra == Some(i),
        gone matches Some(g) ==> bit_set(b, g) && !bit_set(a, g) && extra != Some(g),
    ensures
        ones(a) + (if gone is Some { 1int } else { 0int }) <= ones(b) + (if extra is Some { 1int } else { 0int }),
{
    lemma_ones_below_compare(a, b, extra, gone, 64);
}

proof fn lemma_ones_below_compare(a: u64, b: u64, extra: Option<u64>, gone: Option<u64>, n: nat)
    requires
        n <= 64,
        forall|i: u64| #[trigger] bit_set(a, i) ==> bit_set(b, i) || extra == Some(i),
        gone matches Some(g) ==> bit_set(b, g) && !bit_set(a, g) && extra != Some(g),
    ensures
        ones_below(a, n) + (if gone matches Some(g) && g < n { 1int } else { 0int }) <= ones_below(b, n)
            + (if extra matches Some(x) && x < n { 1int } else { 0int }),
    decreases n,
{
    if n > 0 {
        lemma_ones_below_compare(a, b, extra, gone, (n - 1) as nat);
        let j = (n - 1) as u64;
        if bit_set(a, j) {
            assert(bit_set(b, j) || extra == Some(j));
        }
    }
}

/// A bitboard has at most 64 set bits.
pub proof fn lemma_ones_bound(bb: u64)
    ensures
        ones(bb) <= 64,
{
    lemma_ones_below_bound(bb, 64);
}

} // verus!
