use vstd::prelude::*;
use crate::color::Color;
use crate::square::Square;

verus! {

/// One of the four castling moves. Each has a bit of its own in a
/// [`Castle`] mask.
#[derive(Debug, Clone, Copy, PartialEq, Eq, Structural)]
pub enum CastleKind {
    WhiteShort,
    WhiteLong,
    BlackShort,
    BlackLong,
}

/// The castling moves that a position no longer allows, as a mask of four
/// bits: a set bit means that the right is lost.
#[derive(Debug, Clone, Copy, PartialEq, Eq, Structural)]
pub struct Castle {
    pub data: u8,
}

impl CastleKind {
    /// The bit of this castling move: 1, 2, 4 or 8.
    pub open spec fn bit(self) -> u8 {
        match self {
            CastleKind::WhiteShort => 1,
            CastleKind::WhiteLong => 2,
            CastleKind::BlackShort => 4,
            CastleKind::BlackLong => 8,
        }
    }

    /// The castling move of `color` to the king side if `is_short`, else to
    /// the queen side.
    pub open spec fn of(color: Color, is_short: bool) -> CastleKind {
        match color {
            Color::White => if is_short {
                CastleKind::WhiteShort
            } else {
                CastleKind::WhiteLong
            },
            Color::Black => if is_short {
                CastleKind::BlackShort
            } else {
                CastleKind::BlackLong
            },
        }
    }

    /// The side that castles.
    pub open spec fn color_spec(self) -> Color {
        match self {
            CastleKind::WhiteShort | CastleKind::WhiteLong => Color::White,
            CastleKind::BlackShort | CastleKind::BlackLong => Color::Black,
        }
    }

    /// Where the king starts.
    pub open spec fn king_from_spec(self) -> Square {
        match self {
            CastleKind::WhiteShort | CastleKind::WhiteLong => Square::E1,
            CastleKind::BlackShort | CastleKind::BlackLong => Square::E8,
        }
    }

    /// Where the king lands.
    pub open spec fn king_to_spec(self) -> Square {
        match self {
            CastleKind::WhiteShort => Square::G1,
            CastleKind::WhiteLong => Square::C1,
            CastleKind::BlackShort => Square::G8,
            CastleKind::BlackLong => Square::C8,
        }
    }

    /// Where the rook starts.
    pub open spec fn rook_from_spec(self) -> Square {
        match self {
            CastleKind::WhiteShort => Square::H1,
            CastleKind::WhiteLong => Square::A1,
            CastleKind::BlackShort => Square::H8,
            CastleKind::BlackLong => Square::A8,
        }
    }

    /// Where the rook lands.
    pub open spec fn rook_to_spec(self) -> Square {
        match self {
            CastleKind::WhiteShort => Square::F1,
            CastleKind::WhiteLong => Square::D1,
            CastleKind::BlackShort => Square::F8,
            CastleKind::BlackLong => Square::D8,
        }
    }

    /// The castling move whose rook starts on `square`, if there is one.
    pub open spec fn of_corner(square: Square) -> Option<CastleKind> {
        match square {
            Square::H1 => Some(CastleKind::WhiteShort),
            Square::A1 => Some(CastleKind::WhiteLong),
            Square::H8 => Some(CastleKind::BlackShort),
            Square::A8 => Some(CastleKind::BlackLong),
            _ => None,
        }
    }

    #[inline(always)]
    pub fn index(self) -> (r: usize)
        ensures
            r == self.bit(),
    {
        self.value() as usize
    }

    #[inline(always)]
    pub fn value(self) -> (r: u8)
        ensures
            r == self.bit(),
    {
        match self {
            CastleKind::WhiteShort => 1,
            CastleKind::WhiteLong => 2,
            CastleKind::BlackShort => 4,
            CastleKind::BlackLong => 8,
        }
    }

    /// The castling move of `color` to the king side if `is_short`, else to
    /// the queen side.
    #[inline(always)]
    pub fn new(color: Color, is_short: bool) -> (r: CastleKind)
        ensures
            r == CastleKind::of(color, is_short),
            r.color_spec() == color,
    {
        match color {
            Color::White => if is_short {
                CastleKind::WhiteShort
            } else {
                CastleKind::WhiteLong
            },
            Color::Black => if is_short {
                CastleKind::BlackShort
            } else {
                CastleKind::BlackLong
            },
        }
    }

    /// The side that castles.
    #[inline(always)]
    pub fn color(self) -> (r: Color)
        ensures
            r == self.color_spec(),
    {
        match self {
            CastleKind::WhiteShort | CastleKind::WhiteLong => Color::White,
            CastleKind::BlackShort | CastleKind::BlackLong => Color::Black,
        }
    }

    /// Where the king starts.
    #[inline(always)]
    pub fn king_from(self) -> (r: Square)
        ensures
            r == self.king_from_spec(),
    {
        match self {
            CastleKind::WhiteShort | CastleKind::WhiteLong => Square::E1,
            CastleKind::BlackShort | CastleKind::BlackLong => Square::E8,
        }
    }

    /// Where the king lands.
    #[inline(always)]
    pub fn king_to(self) -> (r: Square)
        ensures
            r == self.king_to_spec(),
    {
        match self {
            CastleKind::WhiteShort => Square::G1,
            CastleKind::WhiteLong => Square::C1,
            CastleKind::BlackShort => Square::G8,
            CastleKind::BlackLong => Square::C8,
        }
    }

    /// Where the rook starts.
    #[inline(always)]
    pub fn rook_from(self) -> (r: Square)
        ensures
            r == self.rook_from_spec(),
    {
        match self {
            CastleKind::WhiteShort => Square::H1,
            CastleKind::WhiteLong => Square::A1,
            CastleKind::BlackShort => Square::H8,
            CastleKind::BlackLong => Square::A8,
        }
    }

    /// Where the rook lands.
    #[inline(always)]
    pub fn rook_to(self) -> (r: Square)
        ensures
            r == self.rook_to_spec(),
    {
        match self {
            CastleKind::WhiteShort => Square::F1,
            CastleKind::WhiteLong => Square::D1,
            CastleKind::BlackShort => Square::F8,
            CastleKind::BlackLong => Square::D8,
        }
    }

    /// The castling move whose rook starts on `square`, if there is one.
    #[inline(always)]
    pub fn from_corner(square: Square) -> (r: Option<CastleKind>)
        ensures
            r == CastleKind::of_corner(square),
    {
        match square {
            Square::H1 => Some(CastleKind::WhiteShort),
            Square::A1 => Some(CastleKind::WhiteLong),
            Square::H8 => Some(CastleKind::BlackShort),
            Square::A8 => Some(CastleKind::BlackLong),
            _ => None,
        }
    }

    /// The four castling moves.
    pub fn all() -> (r: [CastleKind; 4])
        ensures
            r[0] == CastleKind::WhiteShort,
            r[1] == CastleKind::WhiteLong,
            r[2] == CastleKind::BlackShort,
            r[3] == CastleKind::BlackLong,
    {
        [
            CastleKind::WhiteShort,
            CastleKind::WhiteLong,
            CastleKind::BlackShort,
            CastleKind::BlackLong,
        ]
    }
}

impl Castle {
    /// A mask names only the four castling moves.
    pub open spec fn wf(self) -> bool {
        self.data < 16
    }

    /// Whether the mask still allows `kind`.
    pub open spec fn allows(self, kind: CastleKind) -> bool {
        self.data & kind.bit() == 0
    }

    /// The mask with `kind` lost as well.
    pub open spec fn without(self, kind: CastleKind) -> Castle {
        Castle { data: self.data | kind.bit() }
    }

    /// The mask that allows every castling move.
    #[inline(always)]
    pub fn new() -> (r: Castle)
        ensures
            r.data == 0,
            r.wf(),
    {
        Castle { data: 0 }
    }

    #[inline(always)]
    pub fn index(self) -> (r: usize)
        ensures
            r == self.data,
    {
        self.data as usize
    }

    #[inline(always)]
    pub fn value(self) -> (r: u8)
        ensures
            r == self.data,
    {
        self.data
    }

    /// Takes the right to `kind` away. The other rights stay as they are.
    #[inline(always)]
    pub fn update(&mut self, kind: CastleKind)
        ensures
            *final(self) == old(self).without(kind),
            old(self).wf() ==> final(self).wf(),
            !final(self).allows(kind),
            forall|k: CastleKind| k != kind ==> final(self).allows(k) == old(self).allows(k),
    {
        let ghost before = self.data;
        let bit = kind.value();
        self.data = self.data | bit;
        proof {
            lemma_castle_mask(before, bit);
        }
    }

    /// Whether the mask still allows `kind`.
    #[inline(always)]
    pub fn is_allowed(self, kind: CastleKind) -> (r: bool)
        ensures
            r == self.allows(kind),
    {
        self.value() & kind.value() == 0
    }
}

/// Setting one bit of a mask sets that bit and leaves the other three alone.
pub proof fn lemma_castle_mask(data: u8, bit: u8)
    by (bit_vector)
    requires
        bit == 1 || bit == 2 || bit == 4 || bit == 8,
    ensures
        data < 16 ==> (data | bit) < 16,
        (data | bit) & bit != 0,
        bit != 1 ==> ((data | bit) & 1 == 0) == (data & 1 == 0),
        bit != 2 ==> ((data | bit) & 2 == 0) == (data & 2 == 0),
        bit != 4 ==> ((data | bit) & 4 == 0) == (data & 4 == 0),
        bit != 8 ==> ((data | bit) & 8 == 0) == (data & 8 == 0),
{
}

} // verus!
