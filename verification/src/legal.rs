use vstd::prelude::*;
use crate::attack::{
    bishop_attacks, bishop_reach, king_attacks, king_mask, knight_attacks, knight_mask,
    pawn_attacks, pawn_mask, rook_attacks, rook_reach,
};
use crate::bitboard::{many, shifted, Bitboard, RANK_1};
use crate::bits::{bit, lowest, single};
use crate::board::Board;
use crate::castle::CastleKind;
use crate::color::Color;
use crate::direction::Direction;
use crate::moves::{Move, MoveKind};
use crate::piece::{Piece, PieceKind};
use crate::rank::Rank;
use crate::square::Square;
use crate::tables::{between_bits, line_bits};

verus! {

/// The squares of the first and of the eighth rank.
pub const RANK_FIRST_LAST: u64 = 0xff00_0000_0000_00ff;

/// The direction in which the pawns of `color` move.
pub open spec fn forward(color: Color) -> Direction {
    match color {
        Color::White => Direction::North,
        Color::Black => Direction::South,
    }
}

/// The rank that a pawn of `color` reaches by a single step from where it
/// starts: the third for white, the sixth for black.
pub open spec fn push_rank(color: Color) -> u64 {
    match color {
        Color::White => RANK_1 << 16,
        Color::Black => RANK_1 << 40,
    }
}

/// The castling move that takes the king to `to`, if there is one.
pub open spec fn castle_to(to: Square) -> Option<CastleKind> {
    match to {
        Square::G1 => Some(CastleKind::WhiteShort),
        Square::C1 => Some(CastleKind::WhiteLong),
        Square::G8 => Some(CastleKind::BlackShort),
        Square::C8 => Some(CastleKind::BlackLong),
        _ => None,
    }
}

/// The squares that a pawn of `color` on the square numbered `from` can go
/// to: one step forward onto an empty square, a second step from its home
/// rank onto another empty square, or one step diagonally forward onto a
/// piece of the other side.
pub open spec fn pawn_span(color: Color, from: int, occupied: u64, enemy: u64) -> u64 {
    let push = shifted(single(from), forward(color)) & !occupied;
    let double_push = shifted(push & push_rank(color), forward(color)) & !occupied;
    let capture = pawn_mask(color, from) & enemy;
    push | double_push | capture
}

/// The squares that a piece of `kind`, not a pawn or a king, attacks from the
/// square numbered `from`.
pub open spec fn piece_reach(kind: PieceKind, from: int, occupied: u64) -> u64 {
    match kind {
        PieceKind::Knight => knight_mask(from),
        PieceKind::Bishop => bishop_reach(from, occupied),
        PieceKind::Rook => rook_reach(from, occupied),
        PieceKind::Queen => bishop_reach(from, occupied) | rook_reach(from, occupied),
        _ => 0,
    }
}

impl<'a> Board<'a> {
    /// Whether the move takes a piece or promotes a pawn.
    pub open spec fn noisy(&self, mv: Move) -> bool {
        ||| self.state.mailbox[mv.to_spec().idx()].is_some()
        ||| mv.kind_spec().promotion().is_some()
        ||| mv.kind_spec() == MoveKind::Enpassant
    }

    /// Whether the king of the side to move, standing on `from`, may castle
    /// to `to` as far as the position's rights and the squares in between
    /// go: `to` is where one of this side's castling moves takes the king
    /// and `from` where it starts, the king is not in check, the right is
    /// not lost, and no piece stands between the king and the rook.
    pub open spec fn castling_ok(&self, moving: Piece, from: Square, to: Square) -> bool {
        match castle_to(to) {
            Some(castle) => {
                &&& castle.color_spec() == self.color
                &&& from == castle.king_from_spec()
                &&& moving == Piece::make(PieceKind::King, self.color)
                &&& self.state.checkers.data == 0
                &&& self.state.castles.allows(castle)
                &&& between_bits(from.idx(), castle.rook_from_spec().idx())
                    & self.state.occupied_bits() == 0
            },
            None => false,
        }
    }

    /// Whether a move fits the way its piece moves and the state of the
    /// position, whatever it does to the safety of the mover's own king.
    ///
    /// The null move does not, nor a move from an empty square, of a piece
    /// of the side that is not to move, or onto a piece of the side to move.
    /// In double check only a king's step does.
    /// Castling is judged by `castling_ok`. A capture in passing takes a
    /// pawn to the square that the position names for it, which the pawn
    /// attacks. A promotion is a pawn's move. A king steps to a neighbouring
    /// square. In single check any other piece must take the checker or
    /// step between it and the king. A pawn moves within its span, and
    /// promotes exactly when it comes to the first or the eighth rank. A
    /// pinned piece stays in
    /// line with its king. Knights, bishops, rooks and queens move to a
    /// square that they attack.
    #[verifier::opaque]
    pub open spec fn pseudo_legal(&self, mv: Move) -> bool {
        let from = mv.from_spec();
        let to = mv.to_spec();
        let kind = mv.kind_spec();
        let us = self.color;
        let occupied = self.state.occupied_bits();
        let own = self.state.colors[us.idx()].data;
        let enemy = self.state.colors[us.other().idx()].data;
        let checkers = self.state.checkers.data;
        if mv.raw() == 0 {
            false
        } else {
            match self.state.mailbox[from.idx()] {
                None => false,
                Some(moving) => {
                    if moving.color_spec() != us {
                        false
                    } else if bit(own, to.idx()) {
                        false
                    } else if many(checkers) {
                        kind == MoveKind::Normal && moving.kind_spec() == PieceKind::King && bit(
                            king_mask(from.idx()),
                            to.idx(),
                        )
                    } else if kind == MoveKind::Castling {
                        self.castling_ok(moving, from, to)
                    } else if kind == MoveKind::Enpassant {
                        &&& moving.kind_spec() == PieceKind::Pawn
                        &&& bit(pawn_mask(us, from.idx()), to.idx())
                        &&& self.state.enpassant == Some(to)
                    } else if kind.promotion().is_some() && moving.kind_spec() != PieceKind::Pawn {
                        false
                    } else if moving.kind_spec() == PieceKind::King {
                        bit(king_mask(from.idx()), to.idx())
                    } else if checkers != 0 && !bit(
                        between_bits(self.state.king_at(us), lowest(checkers)) | checkers,
                        to.idx(),
                    ) {
                        false
                    } else if moving.kind_spec() == PieceKind::Pawn {
                        let span = pawn_span(us, from.idx(), occupied, enemy);
                        bit(span, to.idx()) && kind.promotion().is_some() == bit(
                            RANK_FIRST_LAST,
                            to.idx(),
                        )
                    } else if bit(self.state.blockers[us.idx()].data, from.idx()) && !bit(
                        line_bits(from.idx(), to.idx()),
                        self.state.king_at(us),
                    ) {
                        false
                    } else {
                        bit(piece_reach(moving.kind_spec(), from.idx(), occupied), to.idx())
                    }
                },
            }
        }
    }

    /// The occupied squares after a capture in passing from `from` to `to`:
    /// the pawn has left `from` for `to`, and the pawn behind `to` is gone.
    pub open spec fn passing_occupied(&self, from: int, to: int) -> u64 {
        let behind = match self.color {
            Color::White => Direction::South,
            Color::Black => Direction::North,
        };
        ((self.state.occupied_bits() & !single(from)) | single(to)) ^ shifted(single(to), behind)
    }

    /// Whether a move that fits the way its piece moves leaves the mover's
    /// king out of attack, as far as this can be told before the move is
    /// made.
    ///
    /// A knight, bishop, rook or queen always passes: a pinned one has only
    /// been let move along its pin. Castling passes if neither the square
    /// that the king lands on nor the one that the rook lands on is
    /// attacked. A king's step passes if its destination is not attacked
    /// once the king has left its square. A capture in passing passes if,
    /// with the two pawns where the move leaves them, no slider of the other
    /// side attacks the king; it fails if the position names no square for
    /// it. Any other pawn move passes if the pawn is not pinned, or stays in
    /// line with its king.
    #[verifier::opaque]
    pub open spec fn legal(&self, mv: Move) -> bool
        recommends
            self.state.mailbox[mv.from_spec().idx()].is_some(),
    {
        let from = mv.from_spec();
        let to = mv.to_spec();
        let us = self.color;
        let kind = self.state.mailbox[from.idx()].unwrap().kind_spec();
        let occupied = self.state.occupied_bits();
        let own = self.state.colors[us.idx()].data;
        let enemy = self.state.colors[us.other().idx()].data;
        if kind != PieceKind::King && kind != PieceKind::Pawn {
            true
        } else if mv.kind_spec() == MoveKind::Castling {
            let castle = CastleKind::of(us, to.idx() > from.idx());
            &&& !self.state.attacked(castle.king_to_spec().idx(), us, occupied)
            &&& !self.state.attacked(castle.rook_to_spec().idx(), us, occupied)
        } else if kind == PieceKind::King {
            !self.state.attacked(to.idx(), us, occupied ^ single(from.idx()))
        } else if mv.kind_spec() == MoveKind::Enpassant {
            if self.state.enpassant.is_some() {
                if self.state.has_king(us) {
                    let after = self.passing_occupied(from.idx(), to.idx());
                    let king = self.state.king_at(us);
                    &&& bishop_reach(king, after) & enemy & self.state.diagonal_bits() == 0
                    &&& rook_reach(king, after) & enemy & self.state.straight_bits() == 0
                } else {
                    true
                }
            } else {
                false
            }
        } else if !bit(self.state.blockers[us.idx()].data, from.idx()) {
            true
        } else {
            line_bits(from.idx(), to.idx()) & self.state.pieces[5].data & own != 0
        }
    }

    /// Whether the move neither takes a piece nor promotes a pawn.
    #[inline(always)]
    pub fn is_quiet(&self, mv: Move) -> (r: bool)
        ensures
            r == !self.noisy(mv),
    {
        !self.is_noisy(mv)
    }

    /// Whether the move takes a piece or promotes a pawn.
    #[inline(always)]
    pub fn is_noisy(&self, mv: Move) -> (r: bool)
        ensures
            r == self.noisy(mv),
    {
        self.state.at(mv.to()).is_some() || mv.is_promotion() || mv.is_enpassant()
    }

    /// Whether a move fits the way its piece moves and the state of the
    /// position.
    pub fn is_pseudo_legal(&self, mv: Move) -> (r: bool)
        requires
            self.wf(),
        ensures
            r == self.pseudo_legal(mv),
    {
        reveal(Board::pseudo_legal);
        if mv.is_null() {
            return false;
        }
        let occupied = self.state.occupied();
        let from = mv.from();
        let to = mv.to();
        let moving = match self.state.at(from) {
            Some(piece) => piece,
            None => {
                return false;
            },
        };
        if moving.color() != self.color {
            return false;
        }
        if self.state.colors(self.color).is_set(to) {
            return false;
        }
        if self.state.checkers().is_many() {
            return mv.is_normal() && moving.kind() == PieceKind::King && king_attacks(
                self.tables,
                from,
            ).is_set(to);
        }
        if mv.is_castling() {
            let castle = match to {
                Square::G1 => CastleKind::WhiteShort,
                Square::C1 => CastleKind::WhiteLong,
                Square::G8 => CastleKind::BlackShort,
                Square::C8 => CastleKind::BlackLong,
                _ => {
                    return false;
                },
            };
            if castle.color() != self.color || from != castle.king_from() {
                return false;
            }
            if moving != Piece::new(PieceKind::King, self.color) {
                return false;
            }
            if self.state.checkers().is_some() {
                return false;
            }
            if !self.state.castles().is_allowed(castle) {
                return false;
            }
            if Bitboard::from_between(self.tables, from, castle.rook_from()).bitand(
                occupied,
            ).is_some() {
                return false;
            }
            return true;
        }
        if mv.is_enpassant() {
            if moving.kind() != PieceKind::Pawn {
                return false;
            }
            if !pawn_attacks(self.tables, from, self.color).is_set(to) {
                return false;
            }
            return match self.state.enpassant() {
                Some(square) => to == square,
                None => false,
            };
        }
        if mv.is_promotion() && moving.kind() != PieceKind::Pawn {
            return false;
        }
        if moving.kind() == PieceKind::King {
            return king_attacks(self.tables, from).is_set(to);
        }
        if self.state.checkers().is_some() {
            proof {
                self.lemma_threats_need_king();
            }
            let king_square = self.state.king_square(self.color);
            let checker_square = self.state.checkers().lsb();
            let betweens = Bitboard::from_between(self.tables, king_square, checker_square).bitor(
                self.state.checkers(),
            );
            if !betweens.is_set(to) {
                return false;
            }
        }
        if moving.kind() == PieceKind::Pawn {
            let north = match self.color {
                Color::White => Direction::North,
                Color::Black => Direction::South,
            };
            let push_mask = match self.color {
                Color::White => Bitboard::from_rank(Rank::Third),
                Color::Black => Bitboard::from_rank(Rank::Sixth),
            };
            let push = Bitboard::from_square(from).shift(north).bitand(occupied.not());
            let double_push = push.bitand(push_mask).shift(north).bitand(occupied.not());
            let capture = pawn_attacks(self.tables, from, self.color).bitand(
                self.state.colors(self.color.not()),
            );
            let span = push.bitor(double_push).bitor(capture);
            let last = Bitboard::from_rank(Rank::First).bitor(Bitboard::from_rank(Rank::Eighth));
            proof {
                assert((RANK_1 << 0) | (RANK_1 << 56) == RANK_FIRST_LAST) by (bit_vector);
            }
            return span.is_set(to) && mv.is_promotion() == last.is_set(to);
        }
        if self.state.blockers(self.color).is_set(from) {
            proof {
                self.lemma_threats_need_king();
                crate::bits::lemma_bit_nonzero(
                    self.state.blockers[self.color.idx()].data,
                    from.idx(),
                );
            }
            if !Bitboard::from_line(self.tables, from, to).is_set(
                self.state.king_square(self.color),
            ) {
                return false;
            }
        }
        let attacks = match moving.kind() {
            PieceKind::Knight => knight_attacks(self.tables, from),
            PieceKind::Bishop => bishop_attacks(self.tables, from, occupied),
            PieceKind::Rook => rook_attacks(self.tables, from, occupied),
            PieceKind::Queen => bishop_attacks(self.tables, from, occupied).bitor(
                rook_attacks(self.tables, from, occupied),
            ),
            _ => Bitboard::new(),
        };
        attacks.is_set(to)
    }

    /// Whether a move that fits the way its piece moves leaves the mover's
    /// king out of attack. The caller guarantees that a piece stands on the
    /// move's origin.
    pub fn is_legal(&self, mv: Move) -> (r: bool)
        requires
            self.wf(),
            self.state.mailbox[mv.from_spec().idx()].is_some(),
        ensures
            r == self.legal(mv),
    {
        reveal(Board::legal);
        let from = mv.from();
        let to = mv.to();
        let kind = self.state.at(from).unwrap().kind();
        if kind != PieceKind::King && kind != PieceKind::Pawn {
            return true;
        }
        if mv.is_castling() {
            let castle = CastleKind::new(self.color, to.value() > from.value());
            return !self.state.is_attacked(
                self.tables,
                castle.king_to(),
                self.color,
                self.state.occupied(),
            ) && !self.state.is_attacked(
                self.tables,
                castle.rook_to(),
                self.color,
                self.state.occupied(),
            );
        }
        if kind == PieceKind::King {
            return !self.state.is_attacked(
                self.tables,
                to,
                self.color,
                self.state.occupied().bitxor(Bitboard::from_square(from)),
            );
        }
        if mv.is_enpassant() {
            if self.state.enpassant().is_some() {
                let own_king = self.state.pieces(PieceKind::King).bitand(
                    self.state.colors(self.color),
                );
                if own_king.is_empty() {
                    return true;
                }
                let mut occupied = self.state.occupied();
                occupied.clear(from);
                occupied.set(to);
                occupied.bitxor_assign(
                    Bitboard::from_square(to).shift(
                        match self.color {
                            Color::White => Direction::South,
                            Color::Black => Direction::North,
                        },
                    ),
                );
                let king_square = self.state.king_square(self.color);
                let bishops = self.state.pieces(PieceKind::Bishop).bitor(
                    self.state.pieces(PieceKind::Queen),
                );
                let rooks = self.state.pieces(PieceKind::Rook).bitor(
                    self.state.pieces(PieceKind::Queen),
                );
                let enemy = self.state.colors(self.color.not());
                return bishop_attacks(self.tables, king_square, occupied).bitand(enemy).bitand(
                    bishops,
                ).is_empty() && rook_attacks(self.tables, king_square, occupied).bitand(
                    enemy,
                ).bitand(rooks).is_empty();
            } else {
                return false;
            }
        }
        if !self.state.blockers(self.color).is_set(from) {
            return true;
        }
        Bitboard::from_line(self.tables, from, to).bitand(
            self.state.pieces(PieceKind::King),
        ).bitand(self.state.colors(self.color)).is_some()
    }

    /// A move that fits is made by a piece of the side to move, and a pawn's
    /// move other than a capture in passing promotes exactly when it ends
    /// on the first or the eighth rank.
    pub proof fn lemma_fitting_mover(&self, mv: Move)
        requires
            self.pseudo_legal(mv),
        ensures
            self.state.mailbox[mv.from_spec().idx()] matches Some(piece) && piece.color_spec()
                == self.color && (piece.kind_spec() == PieceKind::Pawn && mv.kind_spec()
                != MoveKind::Enpassant ==> mv.kind_spec().promotion().is_some() == bit(
                RANK_FIRST_LAST,
                mv.to_spec().idx(),
            )),
    {
        reveal(Board::pseudo_legal);
    }

    /// A side without a king is neither in check nor has pinned pieces.
    pub proof fn lemma_threats_need_king(&self)
        requires
            self.wf(),
        ensures
            self.state.checkers.data != 0 ==> self.state.has_king(self.color),
            self.state.blockers[self.color.idx()].data != 0 ==> self.state.has_king(self.color),
    {
    }
}

} // verus!
