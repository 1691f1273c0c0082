//! Board squares (tiles), move instructions, and packed moves.

use vstd::prelude::*;
use vstd::string::StringSliceAdditionalSpecFns;
use vstd::utf8::{decode_utf8, encode_utf8, encode_utf8_decode_utf8, is_char_boundary};
use crate::chess::piece::{Class, not_a_piece};
use crate::text::{push_char, push_str, string_of};

verus! {

// ── Tile ──────────────────────────────────────────────────────────────────────

/// A square of the board, 0 (a1) to 63 (h8).
#[derive(Debug, Clone, Copy, PartialEq, Eq, Hash, Structural)]
pub struct Tile {
    idx: u8,
}

/// Whether two bytes name a square: a file letter a-h, then a rank digit 1-8.
pub open spec fn valid_tile(b: Seq<u8>) -> bool {
    b.len() == 2 && 97 <= b[0] <= 104 && 49 <= b[1] <= 56
}

/// The square a valid name names.
pub open spec fn tile_index_of(b: Seq<u8>) -> int {
    (b[1] - 49) * 8 + (b[0] - 97)
}

/// The name of square `i`: its file letter and rank digit.
pub open spec fn tile_name(i: int) -> Seq<char> {
    seq![(97 + i % 8) as char, (49 + i / 8) as char]
}

/// The text of an invalid tile name error.
pub open spec fn invalid_tile(s: Seq<char>) -> Seq<char> {
    "Invalid tile string: "@ + s
}

impl Tile {
    #[verifier::type_invariant]
    spec fn on_board(self) -> bool {
        self.idx < 64
    }

    /// The square number.
    pub closed spec fn sq(self) -> int {
        self.idx as int
    }

    /// Two tiles with the same square are the same tile.
    pub proof fn lemma_sq_injective(self, other: Tile)
        ensures
            self.sq() == other.sq() <==> self == other,
    {
    }

    pub fn from_idx(idx: u8) -> (t: Self)
        requires
            idx < 64,
        ensures
            t.sq() == idx,
    {
        Self { idx: idx }
    }

    /// Whether `s` is the name of a square.
    pub fn check_valid_tile(s: &str) -> (r: bool)
        ensures
            r == valid_tile(s.spec_bytes()),
    {
        let bytes = s.as_bytes();
        bytes.len() == 2 && 97 <= bytes[0] && bytes[0] <= 104 && 49 <= bytes[1] && bytes[1] <= 56
    }

    pub fn get_idx(&self) -> (r: usize)
        ensures
            r == self.sq(),
            r < 64,
    {
        proof {
            use_type_invariant(self);
        }
        self.idx as usize
    }

    /// The file (0 = a) and the rank (0 = 1).
    pub fn get_file_rank(&self) -> (r: (u8, u8))
        ensures
            r.0 == self.sq() % 8,
            r.1 == self.sq() / 8,
    {
        let file = self.idx % 8;
        let rank = self.idx / 8;
        (file, rank)
    }

    /// All 64 tiles, a1 to h8.
    pub fn iter() -> (r: Vec<Tile>)
        ensures
            r@.len() == 64,
            forall|i: int| 0 <= i < 64 ==> (#[trigger] r@[i]).sq() == i,
    {
        let mut r: Vec<Tile> = Vec::new();
        let mut i: u8 = 0;
        while i < 64
            invariant
                i <= 64,
                r@.len() == i,
                forall|t: int| 0 <= t < i ==> (#[trigger] r@[t]).sq() == t,
            decreases 64 - i,
        {
            r.push(Tile { idx: i });
            i += 1;
        }
        r
    }

    /// The tile a name names, or an error quoting the name.
    pub fn parse(s: &str) -> (r: Result<Tile, String>)
        ensures
            r is Ok <==> valid_tile(s.spec_bytes()),
            r matches Ok(t) ==> t.sq() == tile_index_of(s.spec_bytes()),
            r matches Err(e) ==> e@ == invalid_tile(s@),
    {
        if Self::check_valid_tile(s) {
            let bytes = s.as_bytes();
            let f = bytes[0] - 97;
            let rk = bytes[1] - 49;
            Ok(Self { idx: rk * 8 + f })
        } else {
            let mut e = string_of("Invalid tile string: ");
            push_str(&mut e, s);
            Err(e)
        }
    }

    /// The name of the tile, as `Display` writes it.
    pub fn name(&self) -> (s: String)
        ensures
            s@ == tile_name(self.sq()),
    {
        proof {
            use_type_invariant(self);
        }
        let file = (self.idx % 8) + 97;
        let rank = (self.idx / 8) + 49;
        let mut s = String::new();
        push_char(&mut s, file as char);
        push_char(&mut s, rank as char);
        s
    }
}

impl std::str::FromStr for Tile {
    type Err = String;

    fn from_str(s: &str) -> (r: Result<Self, Self::Err>)
        ensures
            r is Ok <==> valid_tile(s.spec_bytes()),
            r matches Ok(t) ==> t.sq() == tile_index_of(s.spec_bytes()),
            r matches Err(e) ==> e@ == invalid_tile(s@),
    {
        Tile::parse(s)
    }
}

/// Reading the name of a tile gives the tile back.
pub proof fn law_tile_name_round_trip(t: Tile, s: &str)
    requires
        0 <= t.sq() < 64,
        s@ == tile_name(t.sq()),
    ensures
        valid_tile(s.spec_bytes()),
        tile_index_of(s.spec_bytes()) == t.sq(),
{
    broadcast use vstd::string::is_ascii_spec_bytes;
    assert(vstd::string::is_ascii(s));
}

// ── Move instruction ──────────────────────────────────────────────────────────

pub struct MoveInstruction {
    pub from: Tile,
    pub to: Tile,
    pub promotion: Option<Class>,
}

/// The text of a wrong-length move error.
pub open spec fn bad_length(s: Seq<char>) -> Seq<char> {
    "Expected a move like \"e2e4\" or \"e7e8q\", got \""@ + s + "\""@
}

/// The text of an error for promoting to a pawn or a king.
pub open spec fn cannot_promote(c: Class) -> Seq<char> {
    "Cannot promote to "@ + if c == Class::Pawn { "Pawn"@ } else { "King"@ }
}

/// Where a move text of 4 or 5 bytes is cut (after 2 and 4 bytes), the
/// cuts fall between characters.
pub open spec fn cuts_ok(b: Seq<u8>) -> bool {
    (b.len() == 4 || b.len() == 5) ==> is_char_boundary(b, 2) && is_char_boundary(b, 4)
}

impl MoveInstruction {
    /// Parse a trimmed move text such as "e2e4" or "e7e8q".
    pub fn parse_trimmed(s: &str) -> (r: Result<MoveInstruction, String>)
        requires
            cuts_ok(s.spec_bytes()),
        ensures
            ({
                let b = s.spec_bytes();
                let b0 = b.subrange(0, 2);
                let b1 = b.subrange(2, 4);
                if b.len() != 4 && b.len() != 5 {
                    r matches Err(e) && e@ == bad_length(s@)
                } else if !valid_tile(b0) {
                    r matches Err(e) && e@ == invalid_tile(decode_utf8(b0))
                } else if !valid_tile(b1) {
                    r matches Err(e) && e@ == invalid_tile(decode_utf8(b1))
                } else if b.len() == 5 {
                    match Class::of_letter(b[4] as char) {
                        None => r matches Err(e) && e@ == not_a_piece(b[4] as char),
                        Some(c) => if c == Class::Pawn || c == Class::King {
                            r matches Err(e) && e@ == cannot_promote(c)
                        } else {
                            r matches Ok(m) && m.from.sq() == tile_index_of(b0) && m.to.sq()
                                == tile_index_of(b1) && m.promotion == Some(c)
                        },
                    }
                } else {
                    r matches Ok(m) && m.from.sq() == tile_index_of(b0) && m.to.sq() == tile_index_of(
                        b1,
                    ) && m.promotion is None
                }
            }),
    {
        proof {
            reveal_strlit("Cannot promote to Pawn");
            reveal_strlit("Cannot promote to King");
            reveal_strlit("Cannot promote to ");
            reveal_strlit("Pawn");
            reveal_strlit("King");
        }
        let len = s.as_bytes().len();
        if len != 4 && len != 5 {
            let mut e = string_of("Expected a move like \"e2e4\" or \"e7e8q\", got \"");
            push_str(&mut e, s);
            push_str(&mut e, "\"");
            return Err(e);
        }
        proof {
            vstd::utf8::encode_utf8_valid_utf8(s@);
            assert(s.spec_bytes().len() == 4 || s.spec_bytes().len() == 5);
        }
        let (head, rest) = s.split_at(2);
        proof {
            let b = s.spec_bytes();
            assert(rest.spec_bytes() =~= b.subrange(2, b.len() as int));
            lemma_boundary_shift(b, 2, 2);
        }
        let (second, _tail) = rest.split_at(2);
        proof {
            let b = s.spec_bytes();
            assert(second.spec_bytes() =~= b.subrange(2, 4));
            encode_utf8_decode_utf8(head@);
            encode_utf8_decode_utf8(second@);
        }
        let from = match Tile::parse(head) {
            Ok(t) => t,
            Err(e) => return Err(e),
        };
        let to = match Tile::parse(second) {
            Ok(t) => t,
            Err(e) => return Err(e),
        };
        let promotion = if len == 5 {
            let class = match Class::try_from_char(s.as_bytes()[4] as char) {
                Ok(c) => c,
                Err(e) => return Err(e),
            };
            if class == Class::Pawn {
                return Err(string_of("Cannot promote to Pawn"));
            }
            if class == Class::King {
                return Err(string_of("Cannot promote to King"));
            }
            Some(class)
        } else {
            None
        };
        Ok(Self { from, to, promotion })
    }
}

// ── Move flags and packed moves ───────────────────────────────────────────────

#[derive(Debug, Clone, Copy, PartialEq, Eq, Structural)]
pub enum MoveFlag {
    Quiet,
    DoublePawnPush,
    KingCastle,
    QueenCastle,
    Capture,
    EpCapture,
    _Unused1,
    _Unused2,
    KnightPromo,
    BishopPromo,
    RookPromo,
    QueenPromo,
    KnightPromoCapture,
    BishopPromoCapture,
    RookPromoCapture,
    QueenPromoCapture,
}

impl MoveFlag {
    /// The 4-bit code of the flag.
    pub open spec fn code(self) -> int {
        match self {
            MoveFlag::Quiet => 0,
            MoveFlag::DoublePawnPush => 1,
            MoveFlag::KingCastle => 2,
            MoveFlag::QueenCastle => 3,
            MoveFlag::Capture => 4,
            MoveFlag::EpCapture => 5,
            MoveFlag::_Unused1 => 6,
            MoveFlag::_Unused2 => 7,
            MoveFlag::KnightPromo => 8,
            MoveFlag::BishopPromo => 9,
            MoveFlag::RookPromo => 10,
            MoveFlag::QueenPromo => 11,
            MoveFlag::KnightPromoCapture => 12,
            MoveFlag::BishopPromoCapture => 13,
            MoveFlag::RookPromoCapture => 14,
            MoveFlag::QueenPromoCapture => 15,
        }
    }

    /// The flag with 4-bit code `c`.
    pub open spec fn of_code(c: int) -> MoveFlag {
        if c == 0 {
            MoveFlag::Quiet
        } else if c == 1 {
            MoveFlag::DoublePawnPush
        } else if c == 2 {
            MoveFlag::KingCastle
        } else if c == 3 {
            MoveFlag::QueenCastle
        } else if c == 4 {
            MoveFlag::Capture
        } else if c == 5 {
            MoveFlag::EpCapture
        } else if c == 6 {
            MoveFlag::_Unused1
        } else if c == 7 {
            MoveFlag::_Unused2
        } else if c == 8 {
            MoveFlag::KnightPromo
        } else if c == 9 {
            MoveFlag::BishopPromo
        } else if c == 10 {
            MoveFlag::RookPromo
        } else if c == 11 {
            MoveFlag::QueenPromo
        } else if c == 12 {
            MoveFlag::KnightPromoCapture
        } else if c == 13 {
            MoveFlag::BishopPromoCapture
        } else if c == 14 {
            MoveFlag::RookPromoCapture
        } else {
            MoveFlag::QueenPromoCapture
        }
    }

    pub fn bits(self) -> (r: u16)
        ensures
            r == self.code(),
            r < 16,
    {
        match self {
            MoveFlag::Quiet => 0,
            MoveFlag::DoublePawnPush => 1,
            MoveFlag::KingCastle => 2,
            MoveFlag::QueenCastle => 3,
            MoveFlag::Capture => 4,
            MoveFlag::EpCapture => 5,
            MoveFlag::_Unused1 => 6,
            MoveFlag::_Unused2 => 7,
            MoveFlag::KnightPromo => 8,
            MoveFlag::BishopPromo => 9,
            MoveFlag::RookPromo => 10,
            MoveFlag::QueenPromo => 11,
            MoveFlag::KnightPromoCapture => 12,
            MoveFlag::BishopPromoCapture => 13,
            MoveFlag::RookPromoCapture => 14,
            MoveFlag::QueenPromoCapture => 15,
        }
    }

    /// The flag of the low four bits of `val`.
    fn from_u16(val: u16) -> (r: Self)
        ensures
            r == MoveFlag::of_code((val % 16) as int),
    {
        let c = val % 16;
        if c == 0 {
            MoveFlag::Quiet
        } else if c == 1 {
            MoveFlag::DoublePawnPush
        } else if c == 2 {
            MoveFlag::KingCastle
        } else if c == 3 {
            MoveFlag::QueenCastle
        } else if c == 4 {
            MoveFlag::Capture
        } else if c == 5 {
            MoveFlag::EpCapture
        } else if c == 6 {
            MoveFlag::_Unused1
        } else if c == 7 {
            MoveFlag::_Unused2
        } else if c == 8 {
            MoveFlag::KnightPromo
        } else if c == 9 {
            MoveFlag::BishopPromo
        } else if c == 10 {
            MoveFlag::RookPromo
        } else if c == 11 {
            MoveFlag::QueenPromo
        } else if c == 12 {
            MoveFlag::KnightPromoCapture
        } else if c == 13 {
            MoveFlag::BishopPromoCapture
        } else if c == 14 {
            MoveFlag::RookPromoCapture
        } else {
            MoveFlag::QueenPromoCapture
        }
    }
}

/// A move packed in 16 bits: target square (bits 0-5), source square (bits
/// 6-11), flag code (bits 12-15).
#[derive(Debug, Clone, Copy, PartialEq, Eq, Structural)]
pub struct Move {
    signature: u16,
}

impl Move {
    /// The packed bits.
    pub closed spec fn sig(self) -> u16 {
        self.signature
    }

    /// The source square.
    pub open spec fn from_sq(self) -> int {
        ((self.sig() >> 6u16) & 63) as int
    }

    /// The target square.
    pub open spec fn to_sq(self) -> int {
        (self.sig() & 63) as int
    }

    /// The flag.
    pub open spec fn flag_of(self) -> MoveFlag {
        MoveFlag::of_code(((self.sig() >> 12u16) % 16) as int)
    }

    /// The packed bits of a move from `from` to `to` with `flag`.
    pub open spec fn packed(from: int, to: int, flag: MoveFlag) -> u16 {
        (to as u16) | ((from as u16) << 6u16) | ((flag.code() as u16) << 12u16)
    }

    /// The move from `from` to `to` with `flag`.
    pub closed spec fn make(from: int, to: int, flag: MoveFlag) -> Move {
        Move { signature: Move::packed(from, to, flag) }
    }

    /// A move made of squares on the board reads them back, with its flag;
    /// every move's squares are on the board.
    pub proof fn lemma_make(from: int, to: int, flag: MoveFlag)
        requires
            0 <= from < 64,
            0 <= to < 64,
        ensures
            Move::make(from, to, flag).from_sq() == from,
            Move::make(from, to, flag).to_sq() == to,
            Move::make(from, to, flag).flag_of() == flag,
    {
        law_move_round_trip(from, to, flag);
    }

    /// The squares of a move are on the board.
    pub proof fn lemma_squares_on_board(self)
        ensures
            0 <= self.from_sq() < 64,
            0 <= self.to_sq() < 64,
    {
        let s = self.signature;
        assert(s & 63 < 64 && (s >> 6u16) & 63 < 64) by (bit_vector);
    }

    pub(crate) fn new(from: Tile, to: Tile, flag: MoveFlag) -> (m: Self)
        ensures
            m == Move::make(from.sq(), to.sq(), flag),
            m.sig() == Move::packed(from.sq(), to.sq(), flag),
            m.from_sq() == from.sq(),
            m.to_sq() == to.sq(),
            m.flag_of() == flag,
    {
        let f = from.get_idx() as u16;
        let t = to.get_idx() as u16;
        let c = flag.bits();
        let m = Move { signature: t | (f << 6u16) | (c << 12u16) };
        proof {
            lemma_pack(f, t, c);
        }
        m
    }

    pub fn to(&self) -> (t: Tile)
        ensures
            t.sq() == self.to_sq(),
    {
        proof {
            let s = self.signature;
            assert(s & 63 < 64) by (bit_vector);
        }
        Tile { idx: (self.signature & 0b111111) as u8 }
    }

    pub fn from(&self) -> (t: Tile)
        ensures
            t.sq() == self.from_sq(),
    {
        proof {
            let s = self.signature;
            assert((s >> 6u16) & 63 < 64) by (bit_vector);
        }
        Tile { idx: ((self.signature >> 6u16) & 0b111111) as u8 }
    }

    pub fn flag(&self) -> (f: MoveFlag)
        ensures
            f == self.flag_of(),
    {
        MoveFlag::from_u16(self.signature >> 12u16)
    }
}

/// Packing and unpacking a move: the fields read back as written.
proof fn lemma_pack(f: u16, t: u16, c: u16)
    requires
        f < 64,
        t < 64,
        c < 16,
    ensures
        (t | (f << 6u16) | (c << 12u16)) & 63 == t,
        ((t | (f << 6u16) | (c << 12u16)) >> 6u16) & 63 == f,
        ((t | (f << 6u16) | (c << 12u16)) >> 12u16) % 16 == c,
{
    assert((t | (f << 6u16) | (c << 12u16)) & 63 == t && ((t | (f << 6u16) | (c << 12u16)) >> 6u16)
        & 63 == f && ((t | (f << 6u16) | (c << 12u16)) >> 12u16) % 16 == c) by (bit_vector)
        requires
            f < 64,
            t < 64,
            c < 16,
    ;
}

/// A packed move reads back the squares and the flag it was made of.
pub proof fn law_move_round_trip(from: int, to: int, flag: MoveFlag)
    requires
        0 <= from < 64,
        0 <= to < 64,
    ensures
        ((Move::packed(from, to, flag) >> 6u16) & 63) == from,
        (Move::packed(from, to, flag) & 63) == to,
        MoveFlag::of_code(((Move::packed(from, to, flag) >> 12u16) % 16) as int) == flag,
{
    lemma_pack(from as u16, to as u16, flag.code() as u16);
}

/// A character boundary `k` bytes after a boundary `cut` is a boundary of the
/// part from `cut` on.
proof fn lemma_boundary_shift(b: Seq<u8>, cut: int, k: int)
    requires
        0 <= cut <= b.len(),
        vstd::utf8::valid_utf8(b),
        is_char_boundary(b, cut),
        is_char_boundary(b, cut + k),
        0 <= k,
        cut + k <= b.len(),
    ensures
        is_char_boundary(b.subrange(cut, b.len() as int), k),
{
    let rest = b.subrange(cut, b.len() as int);
    vstd::utf8::valid_utf8_split(b, cut);
    if cut + k < b.len() {
        vstd::utf8::is_char_boundary_iff_not_is_continuation_byte(b, cut + k);
        vstd::utf8::is_char_boundary_iff_not_is_continuation_byte(rest, k);
        assert(rest[k] == b[cut + k]);
    } else {
        vstd::utf8::is_char_boundary_start_end_of_seq(rest);
    }
}

} // verus!
