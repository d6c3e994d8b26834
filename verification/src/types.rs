//! Colours, pieces, squares and bitboards.
use vstd::prelude::*;

use crate::bits;

verus! {

/// One of the two sides.
#[derive(Copy, Clone, Eq, PartialEq, Structural, Debug)]
pub enum Color {
    White,
    Black,
}

impl Color {
    /// White is 0, Black is 1.
    pub open spec fn number(self) -> int {
        match self {
            Color::White => 0,
            Color::Black => 1,
        }
    }

    /// The other side.
    pub open spec fn opposite(self) -> Color {
        match self {
            Color::White => Color::Black,
            Color::Black => Color::White,
        }
    }

    /// White is 0, Black is 1.
    pub fn index(self) -> (r: usize)
        ensures
            r == self.number(),
    {
        match self {
            Color::White => 0,
            Color::Black => 1,
        }
    }
}

impl std::ops::Not for Color {
    type Output = Color;

    fn not(self) -> (r: Color) {
        match self {
            Color::White => Color::Black,
            Color::Black => Color::White,
        }
    }
}

impl vstd::std_specs::ops::NotSpecImpl for Color {
    open spec fn obeys_not_spec() -> bool {
        true
    }

    open spec fn not_req(self) -> bool {
        true
    }

    open spec fn not_spec(self) -> Color {
        self.opposite()
    }
}

/// The kind of a piece, without its colour.
#[derive(Copy, Clone, Eq, PartialEq, Structural, Debug)]
pub enum PieceType {
    Pawn,
    Knight,
    Bishop,
    Rook,
    Queen,
    King,
}

impl PieceType {
    /// How many kinds of piece there are.
    pub const NUM: usize = 6;

    /// The kinds in order, from 0 for a pawn to 5 for a king.
    pub open spec fn number(self) -> int {
        match self {
            PieceType::Pawn => 0,
            PieceType::Knight => 1,
            PieceType::Bishop => 2,
            PieceType::Rook => 3,
            PieceType::Queen => 4,
            PieceType::King => 5,
        }
    }

    /// The kind with the given number; every number from 5 on is a king.
    pub open spec fn of_index(v: int) -> PieceType {
        if v == 0 {
            PieceType::Pawn
        } else if v == 1 {
            PieceType::Knight
        } else if v == 2 {
            PieceType::Bishop
        } else if v == 3 {
            PieceType::Rook
        } else if v == 4 {
            PieceType::Queen
        } else {
            PieceType::King
        }
    }

    /// The kind with the given number; every number from 5 on is a king.
    pub fn new(v: usize) -> (r: Self)
        ensures
            r == PieceType::of_index(v as int),
    {
        match v {
            0 => PieceType::Pawn,
            1 => PieceType::Knight,
            2 => PieceType::Bishop,
            3 => PieceType::Rook,
            4 => PieceType::Queen,
            _ => PieceType::King,
        }
    }

    /// The number of this kind.
    pub fn index(self) -> (r: usize)
        ensures
            r == self.number(),
    {
        match self {
            PieceType::Pawn => 0,
            PieceType::Knight => 1,
            PieceType::Bishop => 2,
            PieceType::Rook => 3,
            PieceType::Queen => 4,
            PieceType::King => 5,
        }
    }
}

/// A coloured piece, numbered from 0 to 11: twice the number of its kind, plus its colour.
#[derive(Copy, Clone, Eq, PartialEq, Structural, Debug)]
pub struct Piece(pub u8);

impl Piece {
    /// How many coloured pieces there are.
    pub const NUM: usize = 12;

    /// Whether this is one of the twelve pieces.
    pub open spec fn wf(self) -> bool {
        self.0 < 12
    }

    /// The kind of piece that this number stands for.
    pub open spec fn kind(self) -> PieceType {
        PieceType::of_index(self.0 as int / 2)
    }

    /// The colour of the piece that this number stands for.
    pub open spec fn side(self) -> Color {
        if self.0 % 2 == 0 {
            Color::White
        } else {
            Color::Black
        }
    }

    /// The piece of a given colour and kind.
    pub open spec fn of(color: Color, pt: PieceType) -> Piece {
        Piece((2 * pt.number() + color.number()) as u8)
    }

    /// The piece of a given colour and kind.
    pub fn new(color: Color, pt: PieceType) -> (r: Self)
        ensures
            r == Piece::of(color, pt),
            r.0 == 2 * pt.number() + color.number(),
            r.wf(),
            r.kind() == pt,
            r.side() == color,
    {
        let (p, c): (u8, u8) = (pt.index() as u8, color.index() as u8);
        proof {
            lemma_byte_table(p, c);
        }
        Piece((p << 1) | c)
    }

    /// The piece with the given number; only the low eight bits of the number count.
    pub fn from_index(i: usize) -> (r: Self)
        ensures
            r.0 == i as u8,
            i < 12 ==> r.wf() && r.0 == i,
    {
        Piece(i as u8)
    }

    /// The colour of the piece.
    pub fn color(self) -> (r: Color)
        ensures
            r == self.side(),
    {
        proof {
            lemma_byte_table(self.0, 0);
        }
        if self.0 & 1 == 0 {
            Color::White
        } else {
            Color::Black
        }
    }

    /// The kind of the piece.
    pub fn piece_type(self) -> (r: PieceType)
        ensures
            r == self.kind(),
    {
        proof {
            lemma_byte_table(self.0, 0);
        }
        PieceType::new((self.0 >> 1) as usize)
    }
}

/// A square of the board, numbered from 0 (a1) along the ranks to 63 (h8).
#[derive(Copy, Clone, Eq, PartialEq, Structural, Debug)]
pub struct Square(pub u8);

/// The file of square `s`: 0 for the a-file, 7 for the h-file.
pub open spec fn file_of(s: int) -> int {
    s % 8
}

/// The rank of square `s`, from 0 to 7.
pub open spec fn rank_of(s: int) -> int {
    s / 8
}

/// Square `s` seen from the other side of the board: the ranks are reversed.
pub open spec fn flip_ranks(s: int) -> int {
    8 * (7 - rank_of(s)) + file_of(s)
}

/// Square `s` in a mirror between the d-file and the e-file: the files are reversed.
pub open spec fn flip_files(s: int) -> int {
    8 * rank_of(s) + (7 - file_of(s))
}

/// Square `s` as a player of colour `c` numbers it.
pub open spec fn relative_square(s: int, c: Color) -> int {
    match c {
        Color::White => s,
        Color::Black => flip_ranks(s),
    }
}

impl Square {
    /// Whether this is one of the sixty-four squares.
    pub open spec fn wf(self) -> bool {
        self.0 < 64
    }

    /// The square with the given number.
    pub fn new(v: u8) -> (r: Self)
        ensures
            r.0 == v,
    {
        Square(v)
    }

    /// The file of the square.
    pub fn file(self) -> (r: u8)
        ensures
            r == file_of(self.0 as int),
    {
        proof {
            lemma_byte_table(self.0, 0);
        }
        self.0 & 7
    }

    /// Whether the square is on one of the files e to h.
    pub fn is_kingside(self) -> (r: bool)
        ensures
            r == (file_of(self.0 as int) >= 4),
    {
        self.file() >= 4
    }

    /// The square as a player of the given colour numbers it.
    pub fn relative_to(self, c: Color) -> (r: Self)
        ensures
            c is White ==> r == self,
            c is Black ==> r.0 == self.0 ^ 56,
            self.wf() ==> r.wf() && r.0 == relative_square(self.0 as int, c),
    {
        proof {
            lemma_byte_table(self.0, 0);
        }
        match c {
            Color::White => self,
            Color::Black => Square(self.0 ^ 56),
        }
    }
}

/// How the bit operators act on the numbers of pieces and squares.
pub proof fn lemma_byte_table(v: u8, c: u8)
    by (bit_vector)
    ensures
        v & 7 == v % 8,
        v & 1 == v % 2,
        v >> 1u8 == v / 2,
        v < 6 && c < 2 ==> (v << 1u8) | c == 2 * v + c,
        v < 64 ==> v ^ 56 < 64 && v ^ 56 == 8 * (7 - v / 8) + v % 8,
        v < 64 ==> v ^ 7 < 64 && v ^ 7 == 8 * (v / 8) + (7 - v % 8),
        v < 64 ==> v ^ (7u8 ^ 56u8) < 64 && v ^ (7u8 ^ 56u8) == (v ^ 56) ^ 7,
        v ^ 0 == v,
        0 ^ v == v,
        v % 2 == 0 ==> v ^ 1 == v + 1,
        v % 2 == 1 ==> v ^ 1 == v - 1,
        v & 15 == v % 16,
        v >> 3u8 == v / 8,
        v >> 4u8 == v / 16,
{
}

/// A set of squares, one bit for each.
#[derive(Copy, Clone, Eq, PartialEq, Structural, Debug)]
pub struct Bitboard(pub u64);

impl Bitboard {
    /// How many squares the set holds.
    pub fn popcount(self) -> (r: u32)
        ensures
            r == bits::count(self.0),
    {
        self.0.count_ones()
    }

    /// Takes the lowest square out of the set and returns it, or `None` when the set is empty.
    pub fn next(&mut self) -> (r: Option<Square>)
        ensures
            r is None <==> old(self).0 == 0,
            r is None ==> *final(self) == *old(self),
            r matches Some(q) ==> {
                &&& q.wf()
                &&& bits::member(old(self).0, q.0 as int)
                &&& forall|s: int| 0 <= s < q.0 ==> !bits::member(old(self).0, s)
                &&& forall|s: int| #[trigger]
                    bits::member(final(self).0, s) <==> bits::member(old(self).0, s) && s != q.0
            },
    {
        if self.0 == 0 {
            None
        } else {
            let lsb: u8 = self.0.trailing_zeros() as u8;
            let rest: u64 = self.0 & (self.0 - 1);
            proof {
                bits::lemma_lowest(self.0);
            }
            self.0 = rest;
            Some(Square(lsb))
        }
    }
}

impl std::ops::BitAnd for Bitboard {
    type Output = Bitboard;

    fn bitand(self, r: Bitboard) -> (out: Bitboard) {
        Bitboard(self.0 & r.0)
    }
}

impl vstd::std_specs::ops::BitAndSpecImpl for Bitboard {
    open spec fn obeys_bitand_spec() -> bool {
        true
    }

    open spec fn bitand_req(self, r: Bitboard) -> bool {
        true
    }

    open spec fn bitand_spec(self, r: Bitboard) -> Bitboard {
        Bitboard(self.0 & r.0)
    }
}

} // verus!
