use vstd::prelude::*;
use crate::color::Color;

verus! {

/// What a piece is, whatever its color.
#[derive(Debug, Clone, Copy, PartialEq, Eq, Structural)]
pub enum PieceKind {
    Pawn,
    Knight,
    Bishop,
    Rook,
    Queen,
    King,
}

/// A piece of one color. The number of a piece is twice the number of its
/// kind, plus one if it is black.
#[derive(Debug, Clone, Copy, PartialEq, Eq, Structural)]
pub enum Piece {
    WhitePawn,
    BlackPawn,
    WhiteKnight,
    BlackKnight,
    WhiteBishop,
    BlackBishop,
    WhiteRook,
    BlackRook,
    WhiteQueen,
    BlackQueen,
    WhiteKing,
    BlackKing,
}

impl PieceKind {
    /// Number of kinds.
    pub const COUNT: usize = 6;

    /// The kind as a number in `0..6`.
    pub open spec fn idx(self) -> int {
        match self {
            PieceKind::Pawn => 0,
            PieceKind::Knight => 1,
            PieceKind::Bishop => 2,
            PieceKind::Rook => 3,
            PieceKind::Queen => 4,
            PieceKind::King => 5,
        }
    }

    /// The kind with a given number.
    pub open spec fn of(i: int) -> PieceKind
        recommends
            0 <= i < 6,
    {
        if i == 0 {
            PieceKind::Pawn
        } else if i == 1 {
            PieceKind::Knight
        } else if i == 2 {
            PieceKind::Bishop
        } else if i == 3 {
            PieceKind::Rook
        } else if i == 4 {
            PieceKind::Queen
        } else {
            PieceKind::King
        }
    }

    #[inline(always)]
    pub fn index(self) -> (r: usize)
        ensures
            r == self.idx(),
            r < 6,
    {
        self.value() as usize
    }

    #[inline(always)]
    pub fn value(self) -> (r: u8)
        ensures
            r == self.idx(),
            r < 6,
    {
        match self {
            PieceKind::Pawn => 0,
            PieceKind::Knight => 1,
            PieceKind::Bishop => 2,
            PieceKind::Rook => 3,
            PieceKind::Queen => 4,
            PieceKind::King => 5,
        }
    }

    /// The kind numbered `value`, which the caller guarantees to be below 6.
    #[inline(always)]
    pub fn from_raw(value: u8) -> (r: PieceKind)
        requires
            value < 6,
        ensures
            r == PieceKind::of(value as int),
            r.idx() == value,
    {
        match value {
            0 => PieceKind::Pawn,
            1 => PieceKind::Knight,
            2 => PieceKind::Bishop,
            3 => PieceKind::Rook,
            4 => PieceKind::Queen,
            _ => PieceKind::King,
        }
    }

    /// The lower-case letter of the kind, as move text writes a promotion.
    #[inline(always)]
    pub fn to_char(self) -> (r: char)
        ensures
            r == (match self {
                PieceKind::Pawn => 'p',
                PieceKind::Knight => 'n',
                PieceKind::Bishop => 'b',
                PieceKind::Rook => 'r',
                PieceKind::Queen => 'q',
                PieceKind::King => 'k',
            }),
    {
        match self {
            PieceKind::Pawn => 'p',
            PieceKind::Knight => 'n',
            PieceKind::Bishop => 'b',
            PieceKind::Rook => 'r',
            PieceKind::Queen => 'q',
            PieceKind::King => 'k',
        }
    }
}

impl Piece {
    /// Number of pieces.
    pub const COUNT: usize = 12;

    /// The piece as a number in `0..12`.
    pub open spec fn idx(self) -> int {
        match self {
            Piece::WhitePawn => 0,
            Piece::BlackPawn => 1,
            Piece::WhiteKnight => 2,
            Piece::BlackKnight => 3,
            Piece::WhiteBishop => 4,
            Piece::BlackBishop => 5,
            Piece::WhiteRook => 6,
            Piece::BlackRook => 7,
            Piece::WhiteQueen => 8,
            Piece::BlackQueen => 9,
            Piece::WhiteKing => 10,
            Piece::BlackKing => 11,
        }
    }

    /// The piece with a given number.
    pub open spec fn of(i: int) -> Piece
        recommends
            0 <= i < 12,
    {
        if i == 0 {
            Piece::WhitePawn
        } else if i == 1 {
            Piece::BlackPawn
        } else if i == 2 {
            Piece::WhiteKnight
        } else if i == 3 {
            Piece::BlackKnight
        } else if i == 4 {
            Piece::WhiteBishop
        } else if i == 5 {
            Piece::BlackBishop
        } else if i == 6 {
            Piece::WhiteRook
        } else if i == 7 {
            Piece::BlackRook
        } else if i == 8 {
            Piece::WhiteQueen
        } else if i == 9 {
            Piece::BlackQueen
        } else if i == 10 {
            Piece::WhiteKing
        } else {
            Piece::BlackKing
        }
    }

    /// The piece of a kind and a color.
    pub open spec fn make(kind: PieceKind, color: Color) -> Piece {
        Piece::of(kind.idx() * 2 + color.idx())
    }

    /// The kind of the piece.
    pub open spec fn kind_spec(self) -> PieceKind {
        PieceKind::of(self.idx() / 2)
    }

    /// The color of the piece.
    pub open spec fn color_spec(self) -> Color {
        if self.idx() % 2 == 0 {
            Color::White
        } else {
            Color::Black
        }
    }

    /// The piece that a letter of a position string stands for: upper case
    /// for white, lower case for black.
    pub open spec fn of_char(c: char) -> Option<Piece> {
        if c == 'P' {
            Some(Piece::WhitePawn)
        } else if c == 'N' {
            Some(Piece::WhiteKnight)
        } else if c == 'B' {
            Some(Piece::WhiteBishop)
        } else if c == 'R' {
            Some(Piece::WhiteRook)
        } else if c == 'Q' {
            Some(Piece::WhiteQueen)
        } else if c == 'K' {
            Some(Piece::WhiteKing)
        } else if c == 'p' {
            Some(Piece::BlackPawn)
        } else if c == 'n' {
            Some(Piece::BlackKnight)
        } else if c == 'b' {
            Some(Piece::BlackBishop)
        } else if c == 'r' {
            Some(Piece::BlackRook)
        } else if c == 'q' {
            Some(Piece::BlackQueen)
        } else if c == 'k' {
            Some(Piece::BlackKing)
        } else {
            None
        }
    }

    /// The letter of the piece in a position string.
    pub open spec fn letter(self) -> char {
        match self {
            Piece::WhitePawn => 'P',
            Piece::WhiteKnight => 'N',
            Piece::WhiteBishop => 'B',
            Piece::WhiteRook => 'R',
            Piece::WhiteQueen => 'Q',
            Piece::WhiteKing => 'K',
            Piece::BlackPawn => 'p',
            Piece::BlackKnight => 'n',
            Piece::BlackBishop => 'b',
            Piece::BlackRook => 'r',
            Piece::BlackQueen => 'q',
            Piece::BlackKing => 'k',
        }
    }

    #[inline(always)]
    pub fn index(self) -> (r: usize)
        ensures
            r == self.idx(),
            r < 12,
    {
        self.value() as usize
    }

    #[inline(always)]
    pub fn value(self) -> (r: u8)
        ensures
            r == self.idx(),
            r < 12,
    {
        match self {
            Piece::WhitePawn => 0,
            Piece::BlackPawn => 1,
            Piece::WhiteKnight => 2,
            Piece::BlackKnight => 3,
            Piece::WhiteBishop => 4,
            Piece::BlackBishop => 5,
            Piece::WhiteRook => 6,
            Piece::BlackRook => 7,
            Piece::WhiteQueen => 8,
            Piece::BlackQueen => 9,
            Piece::WhiteKing => 10,
            Piece::BlackKing => 11,
        }
    }

    /// The piece numbered `value`, which the caller guarantees to be below 12.
    #[inline(always)]
    pub fn from_raw(value: u8) -> (r: Piece)
        requires
            value < 12,
        ensures
            r == Piece::of(value as int),
            r.idx() == value,
    {
        match value {
            0 => Piece::WhitePawn,
            1 => Piece::BlackPawn,
            2 => Piece::WhiteKnight,
            3 => Piece::BlackKnight,
            4 => Piece::WhiteBishop,
            5 => Piece::BlackBishop,
            6 => Piece::WhiteRook,
            7 => Piece::BlackRook,
            8 => Piece::WhiteQueen,
            9 => Piece::BlackQueen,
            10 => Piece::WhiteKing,
            _ => Piece::BlackKing,
        }
    }

    /// Reads a piece letter of a position string.
    #[inline(always)]
    pub fn from_char(character: char) -> (r: Option<Piece>)
        ensures
            r == Piece::of_char(character),
    {
        match character {
            'P' => Some(Piece::WhitePawn),
            'N' => Some(Piece::WhiteKnight),
            'B' => Some(Piece::WhiteBishop),
            'R' => Some(Piece::WhiteRook),
            'Q' => Some(Piece::WhiteQueen),
            'K' => Some(Piece::WhiteKing),
            'p' => Some(Piece::BlackPawn),
            'n' => Some(Piece::BlackKnight),
            'b' => Some(Piece::BlackBishop),
            'r' => Some(Piece::BlackRook),
            'q' => Some(Piece::BlackQueen),
            'k' => Some(Piece::BlackKing),
            _ => None,
        }
    }

    /// The letter of the piece in a position string.
    #[inline(always)]
    pub fn to_char(self) -> (r: char)
        ensures
            r == self.letter(),
            Piece::of_char(r) == Some(self),
    {
        match self {
            Piece::WhitePawn => 'P',
            Piece::WhiteKnight => 'N',
            Piece::WhiteBishop => 'B',
            Piece::WhiteRook => 'R',
            Piece::WhiteQueen => 'Q',
            Piece::WhiteKing => 'K',
            Piece::BlackPawn => 'p',
            Piece::BlackKnight => 'n',
            Piece::BlackBishop => 'b',
            Piece::BlackRook => 'r',
            Piece::BlackQueen => 'q',
            Piece::BlackKing => 'k',
        }
    }

    /// The piece of a kind and a color.
    #[inline(always)]
    pub fn new(kind: PieceKind, color: Color) -> (r: Piece)
        ensures
            r == Piece::make(kind, color),
            r.kind_spec() == kind,
            r.color_spec() == color,
    {
        Piece::from_raw(kind.value() * 2 + color.value())
    }

    /// The kind of the piece.
    #[inline(always)]
    pub fn kind(self) -> (r: PieceKind)
        ensures
            r == self.kind_spec(),
    {
        PieceKind::from_raw(self.value() / 2)
    }

    /// The color of the piece.
    #[inline(always)]
    pub fn color(self) -> (r: Color)
        ensures
            r == self.color_spec(),
    {
        Color::from_raw(self.value() % 2 != 0)
    }
}

/// A piece is determined by its kind and color, and by its number.
pub proof fn lemma_piece_parts(p: Piece)
    ensures
        0 <= p.idx() < 12,
        Piece::of(p.idx()) == p,
        Piece::make(p.kind_spec(), p.color_spec()) == p,
        p.idx() == p.kind_spec().idx() * 2 + p.color_spec().idx(),
{
}

} // verus!
