//! Piece classes, colors, and colored pieces.

use vstd::prelude::*;
use crate::text::{push_char, push_str, string_of};

verus! {

#[derive(Debug, Clone, Copy, PartialEq, Eq, Hash, Structural)]
pub enum Class {
    Pawn,
    Knight,
    Bishop,
    Rook,
    Queen,
    King,
}

impl Class {
    /// The class number, 0 (pawn) to 5 (king).
    pub open spec fn idx(self) -> int {
        match self {
            Class::Pawn => 0,
            Class::Knight => 1,
            Class::Bishop => 2,
            Class::Rook => 3,
            Class::Queen => 4,
            Class::King => 5,
        }
    }

    pub open spec fn from_idx(i: int) -> Class {
        if i == 0 {
            Class::Pawn
        } else if i == 1 {
            Class::Knight
        } else if i == 2 {
            Class::Bishop
        } else if i == 3 {
            Class::Rook
        } else if i == 4 {
            Class::Queen
        } else {
            Class::King
        }
    }

    /// The class number.
    pub fn index(self) -> (r: u8)
        ensures
            r as int == self.idx(),
            r < 6,
    {
        match self {
            Class::Pawn => 0,
            Class::Knight => 1,
            Class::Bishop => 2,
            Class::Rook => 3,
            Class::Queen => 4,
            Class::King => 5,
        }
    }

    /// All classes, pawn to king.
    pub fn iter() -> (r: Vec<Class>)
        ensures
            r@ == seq![Class::Pawn, Class::Knight, Class::Bishop, Class::Rook, Class::Queen, Class::King],
    {
        let r = vec![Class::Pawn, Class::Knight, Class::Bishop, Class::Rook, Class::Queen, Class::King];
        proof {
            assert(r@ =~= seq![Class::Pawn, Class::Knight, Class::Bishop, Class::Rook, Class::Queen, Class::King]);
        }
        r
    }

    /// The class a piece letter names, of either case.
    pub open spec fn of_letter(c: char) -> Option<Class> {
        if c == 'P' || c == 'p' {
            Some(Class::Pawn)
        } else if c == 'N' || c == 'n' {
            Some(Class::Knight)
        } else if c == 'B' || c == 'b' {
            Some(Class::Bishop)
        } else if c == 'R' || c == 'r' {
            Some(Class::Rook)
        } else if c == 'Q' || c == 'q' {
            Some(Class::Queen)
        } else if c == 'K' || c == 'k' {
            Some(Class::King)
        } else {
            None
        }
    }

    /// The class named by a piece letter of either case, or an error naming
    /// the character.
    pub fn try_from_char(c: char) -> (r: Result<Class, String>)
        ensures
            r matches Ok(k) ==> Class::of_letter(c) == Some(k),
            r matches Err(e) ==> Class::of_letter(c) is None && e@ == not_a_piece(c),
            r is Ok <==> Class::of_letter(c) is Some,
    {
        match c {
            'P' | 'p' => Ok(Class::Pawn),
            'N' | 'n' => Ok(Class::Knight),
            'B' | 'b' => Ok(Class::Bishop),
            'R' | 'r' => Ok(Class::Rook),
            'Q' | 'q' => Ok(Class::Queen),
            'K' | 'k' => Ok(Class::King),
            _ => Err(not_a_piece_message(c)),
        }
    }
}

/// The error text for a character that names no piece.
pub open spec fn not_a_piece(c: char) -> Seq<char> {
    seq!['\''] + seq![c] + "' is not a valid chess piece character"@
}

fn not_a_piece_message(c: char) -> (s: String)
    ensures
        s@ == not_a_piece(c),
{
    let mut s = string_of("'");
    push_char(&mut s, c);
    push_str(&mut s, "' is not a valid chess piece character");
    proof {
        reveal_strlit("'");
        assert(s@ =~= not_a_piece(c));
    }
    s
}

#[derive(Debug, Clone, Copy, PartialEq, Eq, Hash, Structural)]
pub enum Color {
    White,
    Black,
}

impl Color {
    pub open spec fn idx(self) -> int {
        match self {
            Color::White => 0,
            Color::Black => 1,
        }
    }

    pub open spec fn other(self) -> Color {
        match self {
            Color::White => Color::Black,
            Color::Black => Color::White,
        }
    }

    pub fn opposite(&self) -> (r: Self)
        ensures
            r == self.other(),
    {
        match self {
            Color::White => Color::Black,
            Color::Black => Color::White,
        }
    }
}

#[derive(Debug, Clone, Copy, PartialEq, Eq, Hash, Structural)]
pub enum Piece {
    WhitePawn,
    WhiteKnight,
    WhiteBishop,
    WhiteRook,
    WhiteQueen,
    WhiteKing,
    BlackPawn,
    BlackKnight,
    BlackBishop,
    BlackRook,
    BlackQueen,
    BlackKing,
    NoPiece,
}

impl Piece {
    /// The piece number: color * 6 + class, 12 for no piece.
    pub open spec fn idx(self) -> int {
        match self {
            Piece::WhitePawn => 0,
            Piece::WhiteKnight => 1,
            Piece::WhiteBishop => 2,
            Piece::WhiteRook => 3,
            Piece::WhiteQueen => 4,
            Piece::WhiteKing => 5,
            Piece::BlackPawn => 6,
            Piece::BlackKnight => 7,
            Piece::BlackBishop => 8,
            Piece::BlackRook => 9,
            Piece::BlackQueen => 10,
            Piece::BlackKing => 11,
            Piece::NoPiece => 12,
        }
    }

    /// The piece with number `i` (12 and above: no piece).
    pub open spec fn from_idx(i: int) -> Piece {
        if i == 0 {
            Piece::WhitePawn
        } else if i == 1 {
            Piece::WhiteKnight
        } else if i == 2 {
            Piece::WhiteBishop
        } else if i == 3 {
            Piece::WhiteRook
        } else if i == 4 {
            Piece::WhiteQueen
        } else if i == 5 {
            Piece::WhiteKing
        } else if i == 6 {
            Piece::BlackPawn
        } else if i == 7 {
            Piece::BlackKnight
        } else if i == 8 {
            Piece::BlackBishop
        } else if i == 9 {
            Piece::BlackRook
        } else if i == 10 {
            Piece::BlackQueen
        } else if i == 11 {
            Piece::BlackKing
        } else {
            Piece::NoPiece
        }
    }

    /// The class of a piece (a pawn for no piece).
    pub open spec fn class_of(self) -> Class {
        Class::from_idx(self.idx() % 6)
    }

    /// The color of a piece (meaningless for no piece).
    pub open spec fn color_of(self) -> Color {
        if self.idx() < 6 {
            Color::White
        } else {
            Color::Black
        }
    }

    /// The number of the piece.
    pub fn index(self) -> (r: usize)
        ensures
            r as int == self.idx(),
    {
        match self {
            Piece::WhitePawn => 0,
            Piece::WhiteKnight => 1,
            Piece::WhiteBishop => 2,
            Piece::WhiteRook => 3,
            Piece::WhiteQueen => 4,
            Piece::WhiteKing => 5,
            Piece::BlackPawn => 6,
            Piece::BlackKnight => 7,
            Piece::BlackBishop => 8,
            Piece::BlackRook => 9,
            Piece::BlackQueen => 10,
            Piece::BlackKing => 11,
            Piece::NoPiece => 12,
        }
    }

    /// The piece with number `i`.
    pub fn from_index(i: usize) -> (r: Piece)
        ensures
            r == Piece::from_idx(i as int),
    {
        match i {
            0 => Piece::WhitePawn,
            1 => Piece::WhiteKnight,
            2 => Piece::WhiteBishop,
            3 => Piece::WhiteRook,
            4 => Piece::WhiteQueen,
            5 => Piece::WhiteKing,
            6 => Piece::BlackPawn,
            7 => Piece::BlackKnight,
            8 => Piece::BlackBishop,
            9 => Piece::BlackRook,
            10 => Piece::BlackQueen,
            11 => Piece::BlackKing,
            _ => Piece::NoPiece,
        }
    }

    /// The piece of a class and a color.
    pub fn new(class: Class, color: Color) -> (r: Self)
        ensures
            r.idx() == color.idx() * 6 + class.idx(),
    {
        let val = (match color {
            Color::White => 0usize,
            Color::Black => 1usize,
        }) * 6 + class.index() as usize;
        Piece::from_index(val)
    }

    /// The letter of a piece: upper case for White, lower for Black, space
    /// for none.
    pub open spec fn letter(self) -> char {
        match self {
            Piece::WhitePawn => 'P',
            Piece::WhiteKnight => 'N',
            Piece::WhiteBishop => 'B',
            Piece::WhiteRook => 'R',
            Piece::WhiteQueen => 'Q',
            Piece::WhiteKing => 'K',
            Piece::BlackPawn => 'p',
            Piece::BlackKnight => 'n',
            Piece::BlackBishop => 'b',
            Piece::BlackRook => 'r',
            Piece::BlackQueen => 'q',
            Piece::BlackKing => 'k',
            Piece::NoPiece => ' ',
        }
    }

    pub fn to_char(&self) -> (c: char)
        ensures
            c == self.letter(),
    {
        match self {
            Piece::WhitePawn => 'P',
            Piece::WhiteKnight => 'N',
            Piece::WhiteBishop => 'B',
            Piece::WhiteRook => 'R',
            Piece::WhiteQueen => 'Q',
            Piece::WhiteKing => 'K',
            Piece::BlackPawn => 'p',
            Piece::BlackKnight => 'n',
            Piece::BlackBishop => 'b',
            Piece::BlackRook => 'r',
            Piece::BlackQueen => 'q',
            Piece::BlackKing => 'k',
            Piece::NoPiece => ' ',
        }
    }

    pub fn class(&self) -> (c: Class)
        ensures
            c == self.class_of(),
    {
        Class::from_index_exec(self.index() % 6)
    }

    pub fn color(&self) -> (c: Color)
        requires
            !(*self is NoPiece),
        ensures
            c == self.color_of(),
    {
        if self.index() < 6 {
            Color::White
        } else {
            Color::Black
        }
    }

    pub fn is_none(&self) -> (r: bool)
        ensures
            r == (*self is NoPiece),
    {
        match self {
            Piece::NoPiece => true,
            _ => false,
        }
    }

    /// All twelve pieces, White pawn to Black king.
    pub fn iter() -> (r: Vec<Piece>)
        ensures
            r@.len() == 12,
            forall|i: int| 0 <= i < 12 ==> #[trigger] r@[i] == Piece::from_idx(i),
    {
        let mut r: Vec<Piece> = Vec::new();
        let mut i: usize = 0;
        while i < 12
            invariant
                i <= 12,
                r@.len() == i,
                forall|t: int| 0 <= t < i ==> #[trigger] r@[t] == Piece::from_idx(t),
            decreases 12 - i,
        {
            r.push(Piece::from_index(i));
            i += 1;
        }
        r
    }

    /// The piece a letter names (space: no piece).
    pub open spec fn of_letter(c: char) -> Option<Piece> {
        if c == 'P' {
            Some(Piece::WhitePawn)
        } else if c == 'N' {
            Some(Piece::WhiteKnight)
        } else if c == 'B' {
            Some(Piece::WhiteBishop)
        } else if c == 'R' {
            Some(Piece::WhiteRook)
        } else if c == 'Q' {
            Some(Piece::WhiteQueen)
        } else if c == 'K' {
            Some(Piece::WhiteKing)
        } else if c == 'p' {
            Some(Piece::BlackPawn)
        } else if c == 'n' {
            Some(Piece::BlackKnight)
        } else if c == 'b' {
            Some(Piece::BlackBishop)
        } else if c == 'r' {
            Some(Piece::BlackRook)
        } else if c == 'q' {
            Some(Piece::BlackQueen)
        } else if c == 'k' {
            Some(Piece::BlackKing)
        } else if c == ' ' {
            Some(Piece::NoPiece)
        } else {
            None
        }
    }

    /// The piece named by a letter, or an error naming the character.
    pub fn try_from_char(c: char) -> (r: Result<Piece, String>)
        ensures
            r matches Ok(p) ==> Piece::of_letter(c) == Some(p),
            r matches Err(e) ==> Piece::of_letter(c) is None && e@ == not_a_piece(c),
            r is Ok <==> Piece::of_letter(c) is Some,
    {
        match c {
            'P' => Ok(Piece::WhitePawn),
            'N' => Ok(Piece::WhiteKnight),
            'B' => Ok(Piece::WhiteBishop),
            'R' => Ok(Piece::WhiteRook),
            'Q' => Ok(Piece::WhiteQueen),
            'K' => Ok(Piece::WhiteKing),
            'p' => Ok(Piece::BlackPawn),
            'n' => Ok(Piece::BlackKnight),
            'b' => Ok(Piece::BlackBishop),
            'r' => Ok(Piece::BlackRook),
            'q' => Ok(Piece::BlackQueen),
            'k' => Ok(Piece::BlackKing),
            ' ' => Ok(Piece::NoPiece),
            _ => Err(not_a_piece_message(c)),
        }
    }
}

impl Class {
    pub fn from_index_exec(i: usize) -> (r: Class)
        ensures
            r == Class::from_idx(i as int),
    {
        match i {
            0 => Class::Pawn,
            1 => Class::Knight,
            2 => Class::Bishop,
            3 => Class::Rook,
            4 => Class::Queen,
            _ => Class::King,
        }
    }
}

/// A piece made of a class and a color has that class and that color.
pub proof fn law_piece_parts(class: Class, color: Color)
    ensures
        Piece::from_idx(color.idx() * 6 + class.idx()).class_of() == class,
        Piece::from_idx(color.idx() * 6 + class.idx()).color_of() == color,
        !(Piece::from_idx(color.idx() * 6 + class.idx()) is NoPiece),
{
}

/// Every piece reads back from its letter.
pub proof fn law_letter_round_trip(p: Piece)
    ensures
        Piece::of_letter(p.letter()) == Some(p),
        !(p is NoPiece) ==> Class::of_letter(p.letter()) == Some(p.class_of()),
{
}

} // verus!
