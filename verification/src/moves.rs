use vstd::prelude::*;
use crate::piece::PieceKind;
use crate::square::{lemma_square_of_idx, Square};

verus! {

/// What a move does besides taking a piece from one square to another.
#[derive(Debug, Clone, Copy, PartialEq, Eq, Structural)]
pub enum MoveKind {
    Normal,
    Castling,
    Enpassant,
    PromotionKnight,
    PromotionBishop,
    PromotionRook,
    PromotionQueen,
}

/// A move packed into sixteen bits: the origin in the low six, the
/// destination in the next six, the kind above them. The value zero is the
/// null move, which stands for "no move" and is never legal.
#[derive(Debug, Clone, Copy, PartialEq, Eq, Structural)]
pub struct Move {
    data: u16,
}

impl MoveKind {
    /// Room for the kinds in a table.
    pub const COUNT: usize = 8;

    /// The kind as a number in `0..7`.
    pub open spec fn idx(self) -> int {
        match self {
            MoveKind::Normal => 0,
            MoveKind::Castling => 1,
            MoveKind::Enpassant => 2,
            MoveKind::PromotionKnight => 3,
            MoveKind::PromotionBishop => 4,
            MoveKind::PromotionRook => 5,
            MoveKind::PromotionQueen => 6,
        }
    }

    /// The kind with a given number.
    pub open spec fn of(i: int) -> MoveKind
        recommends
            0 <= i < 7,
    {
        if i == 0 {
            MoveKind::Normal
        } else if i == 1 {
            MoveKind::Castling
        } else if i == 2 {
            MoveKind::Enpassant
        } else if i == 3 {
            MoveKind::PromotionKnight
        } else if i == 4 {
            MoveKind::PromotionBishop
        } else if i == 5 {
            MoveKind::PromotionRook
        } else {
            MoveKind::PromotionQueen
        }
    }

    /// The piece a pawn turns into, for the four promotions.
    pub open spec fn promotion(self) -> Option<PieceKind> {
        match self {
            MoveKind::PromotionKnight => Some(PieceKind::Knight),
            MoveKind::PromotionBishop => Some(PieceKind::Bishop),
            MoveKind::PromotionRook => Some(PieceKind::Rook),
            MoveKind::PromotionQueen => Some(PieceKind::Queen),
            _ => None,
        }
    }

    #[inline(always)]
    pub fn index(self) -> (r: usize)
        ensures
            r == self.idx(),
            r < 7,
    {
        self.value() as usize
    }

    #[inline(always)]
    pub fn value(self) -> (r: u16)
        ensures
            r == self.idx(),
            r < 7,
    {
        match self {
            MoveKind::Normal => 0,
            MoveKind::Castling => 1,
            MoveKind::Enpassant => 2,
            MoveKind::PromotionKnight => 3,
            MoveKind::PromotionBishop => 4,
            MoveKind::PromotionRook => 5,
            MoveKind::PromotionQueen => 6,
        }
    }

    /// The kind numbered `value`, which the caller guarantees to be below 7.
    #[inline(always)]
    pub fn from_raw(value: u16) -> (r: MoveKind)
        requires
            value < 7,
        ensures
            r == MoveKind::of(value as int),
            r.idx() == value,
    {
        match value {
            0 => MoveKind::Normal,
            1 => MoveKind::Castling,
            2 => MoveKind::Enpassant,
            3 => MoveKind::PromotionKnight,
            4 => MoveKind::PromotionBishop,
            5 => MoveKind::PromotionRook,
            _ => MoveKind::PromotionQueen,
        }
    }

    /// Whether the move is anything but a normal one.
    #[inline(always)]
    pub fn is_special(self) -> (r: bool)
        ensures
            r == (self != MoveKind::Normal),
    {
        match self {
            MoveKind::Normal => false,
            _ => true,
        }
    }
}

impl Move {
    #[verifier::type_invariant]
    spec fn inv(self) -> bool {
        self.data < 7 * 4096
    }

    /// The sixteen bits of the move.
    pub closed spec fn raw(self) -> int {
        self.data as int
    }

    /// The move that packs an origin, a destination and a kind.
    pub open spec fn pack(from: Square, to: Square, kind: MoveKind) -> int {
        from.idx() + 64 * to.idx() + 4096 * kind.idx()
    }

    /// The origin.
    pub open spec fn from_spec(self) -> Square {
        Square::of(self.raw() % 64)
    }

    /// The destination.
    pub open spec fn to_spec(self) -> Square {
        Square::of((self.raw() / 64) % 64)
    }

    /// The kind.
    pub open spec fn kind_spec(self) -> MoveKind {
        MoveKind::of(self.raw() / 4096)
    }

    /// The move from `from` to `to` of the given kind.
    pub closed spec fn of(from: Square, to: Square, kind: MoveKind) -> Move {
        Move { data: Move::pack(from, to, kind) as u16 }
    }

    /// The move from `from` to `to` of the given kind.
    #[inline(always)]
    pub fn new(from: Square, to: Square, kind: MoveKind) -> (r: Move)
        ensures
            r == Move::of(from, to, kind),
            r.raw() == Move::pack(from, to, kind),
            r.from_spec() == from,
            r.to_spec() == to,
            r.kind_spec() == kind,
    {
        let f = from.value() as u16;
        let t = to.value() as u16;
        let k = kind.value();
        let data: u16 = f + t * 64 + k * 4096;
        proof {
            lemma_square_of_idx(from);
            lemma_square_of_idx(to);
            assert(data % 64 == f);
            assert((data / 64) % 64 == t);
            assert(data / 4096 == k);
        }
        Move { data }
    }

    /// The null move.
    pub closed spec fn none() -> Move {
        Move { data: 0 }
    }

    /// The null move.
    #[inline(always)]
    pub fn null() -> (r: Move)
        ensures
            r == Move::none(),
            r.raw() == 0,
    {
        Move { data: 0 }
    }

    /// The origin.
    #[inline(always)]
    pub fn from(self) -> (r: Square)
        ensures
            r == self.from_spec(),
    {
        Square::from_raw((self.data % 64) as u8)
    }

    /// The destination.
    #[inline(always)]
    pub fn to(self) -> (r: Square)
        ensures
            r == self.to_spec(),
    {
        Square::from_raw(((self.data / 64) % 64) as u8)
    }

    /// The kind.
    #[inline(always)]
    pub fn kind(self) -> (r: MoveKind)
        ensures
            r == self.kind_spec(),
    {
        proof {
            use_type_invariant(&self);
        }
        MoveKind::from_raw(self.data / 4096)
    }

    /// The piece a pawn turns into, if the move is a promotion.
    #[inline(always)]
    pub fn promotion_kind(self) -> (r: Option<PieceKind>)
        ensures
            r == self.kind_spec().promotion(),
    {
        match self.kind() {
            MoveKind::PromotionKnight => Some(PieceKind::Knight),
            MoveKind::PromotionBishop => Some(PieceKind::Bishop),
            MoveKind::PromotionRook => Some(PieceKind::Rook),
            MoveKind::PromotionQueen => Some(PieceKind::Queen),
            _ => None,
        }
    }

    /// Whether this is a move at all, not the null move.
    #[inline(always)]
    pub fn is_some(self) -> (r: bool)
        ensures
            r == (self.raw() != 0),
    {
        self.data != 0
    }

    /// Whether this is the null move.
    #[inline(always)]
    pub fn is_null(self) -> (r: bool)
        ensures
            r == (self.raw() == 0),
    {
        self.data == 0
    }

    /// Whether the move is a normal one.
    #[inline(always)]
    pub fn is_normal(self) -> (r: bool)
        ensures
            r == (self.kind_spec() == MoveKind::Normal),
    {
        !self.kind().is_special()
    }

    /// Whether the move is anything but a normal one.
    #[inline(always)]
    pub fn is_special(self) -> (r: bool)
        ensures
            r == (self.kind_spec() != MoveKind::Normal),
    {
        self.kind().is_special()
    }

    /// Whether the move castles.
    #[inline(always)]
    pub fn is_castling(self) -> (r: bool)
        ensures
            r == (self.kind_spec() == MoveKind::Castling),
    {
        match self.kind() {
            MoveKind::Castling => true,
            _ => false,
        }
    }

    /// Whether the move takes a pawn in passing.
    #[inline(always)]
    pub fn is_enpassant(self) -> (r: bool)
        ensures
            r == (self.kind_spec() == MoveKind::Enpassant),
    {
        match self.kind() {
            MoveKind::Enpassant => true,
            _ => false,
        }
    }

    /// Whether the move promotes a pawn.
    #[inline(always)]
    pub fn is_promotion(self) -> (r: bool)
        ensures
            r == self.kind_spec().promotion().is_some(),
    {
        self.kind().value() >= 3
    }
}

/// A move has the origin, the destination and the kind that it was made of.
pub proof fn lemma_move_parts(from: Square, to: Square, kind: MoveKind)
    ensures
        Move::of(from, to, kind).raw() == Move::pack(from, to, kind),
        Move::of(from, to, kind).from_spec() == from,
        Move::of(from, to, kind).to_spec() == to,
        Move::of(from, to, kind).kind_spec() == kind,
{
    lemma_square_of_idx(from);
    lemma_square_of_idx(to);
    let data = Move::pack(from, to, kind);
    assert(data % 64 == from.idx());
    assert((data / 64) % 64 == to.idx());
    assert(data / 4096 == kind.idx());
}

/// The null move is the move whose sixteen bits are zero.
pub proof fn lemma_move_none()
    ensures
        Move::none().raw() == 0,
{
}

} // verus!
