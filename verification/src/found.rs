use vstd::prelude::*;
use crate::attack::{
    bishop_reach, king_mask, knight_mask, lemma_step_masks, lemma_step_symmetry, pawn_mask,
    rook_reach,
};
use crate::bitboard::{lemma_shifted_bits, many, shifted};
use crate::bits::{
    bit, lemma_bit_and, lemma_bit_nonzero, lemma_bit_not, lemma_bit_or, lemma_bit_single, lowest,
    single,
};
use crate::board::Board;
use crate::castle::CastleKind;
use crate::color::Color;
use crate::fits::{bv_ranks, lemma_concat_has, move_of};
use crate::legal::{castle_to, forward, pawn_span, piece_reach, push_rank, RANK_FIRST_LAST};
use crate::movegen::{
    each, from_moves, normal_moves, passing_moves, promotion_moves, promotions, span,
    step_moves, stride,
};
use crate::moves::{Move, MoveKind};
use crate::piece::{lemma_piece_parts, Piece, PieceKind};
use crate::square::{lemma_square_of_idx, Square};
use crate::tables::{between_bits, lemma_line_has, line_bits};

verus! {

/// A move that is given for a square of a set is among the moves that are
/// given for the squares of the set.
pub proof fn lemma_each_holds(
    bits: u64,
    per: spec_fn(int) -> Seq<Move>,
    n: int,
    i: int,
    m: Move,
)
    requires
        0 <= i < n <= 64,
        bit(bits, i),
        per(i).contains(m),
    ensures
        each(bits, per, n).contains(m),
    decreases n,
{
    let last = if bit(bits, n - 1) {
        per(n - 1)
    } else {
        Seq::empty()
    };
    lemma_concat_has(each(bits, per, n - 1), last, m);
    if i < n - 1 {
        lemma_each_holds(bits, per, n - 1, i, m);
    }
}

/// The normal move from a square to a square of a set is among the normal
/// moves from the square to the squares of the set.
pub proof fn lemma_normal_holds(from: int, targets: u64, to: int)
    requires
        0 <= to < 64,
        bit(targets, to),
    ensures
        normal_moves(from, targets).contains(move_of(from, to, MoveKind::Normal)),
{
    let per = from_moves(from);
    assert(per(to)[0] == move_of(from, to, MoveKind::Normal));
    lemma_each_holds(targets, per, 64, to, move_of(from, to, MoveKind::Normal));
}

impl<'a> Board<'a> {
    /// Whether a king that stands on `from` is the king that the position
    /// keeps track of for the side to move. A position with one king a side
    /// has no other.
    pub open spec fn proper(&self, from: Square) -> bool {
        match self.state.mailbox[from.idx()] {
            Some(piece) => piece.kind_spec() == PieceKind::King ==> from.idx()
                == self.state.king_at(self.color),
            None => true,
        }
    }

    /// A step of the king that fits is among the king's steps.
    proof fn lemma_king_found(&self, from: Square, to: Square)
        requires
            self.wf(),
            self.state.mailbox[from.idx()] == Some(Piece::make(PieceKind::King, self.color)),
            from.idx() == self.state.king_at(self.color),
            bit(king_mask(from.idx()), to.idx()),
            !bit(self.own_bits(), to.idx()),
        ensures
            self.king_part(self.movable(true, true)).contains(
                Move::of(from, to, MoveKind::Normal),
            ),
    {
        lemma_square_of_idx(from);
        lemma_square_of_idx(to);
        self.lemma_cell(from.idx());
        lemma_bit_and(self.state.pieces[5].data, self.own_bits(), from.idx());
        lemma_bit_nonzero(self.state.king_bits(self.color), from.idx());
        lemma_bit_not(self.own_bits(), to.idx());
        lemma_bit_and(king_mask(from.idx()), self.movable(true, true), to.idx());
        lemma_normal_holds(from.idx(), king_mask(from.idx()) & self.movable(true, true), to.idx());
    }

    /// A move of a pawn by a step or a capture that fits is among the moves
    /// of the pawns.
    proof fn lemma_pawn_found(&self, from: Square, to: Square, kind: MoveKind)
        requires
            self.wf(),
            !many(self.state.checkers.data),
            kind != MoveKind::Castling,
            kind != MoveKind::Enpassant,
            self.state.mailbox[from.idx()] == Some(Piece::make(PieceKind::Pawn, self.color)),
            !bit(self.own_bits(), to.idx()),
            bit(self.checkmask(), to.idx()),
            bit(
                pawn_span(
                    self.color,
                    from.idx(),
                    self.state.occupied_bits(),
                    self.enemy_bits(),
                ),
                to.idx(),
            ),
            kind.promotion().is_some() == bit(RANK_FIRST_LAST, to.idx()),
        ensures
            self.pawn_part(self.checkmask(), true, true).contains(Move::of(from, to, kind)),
    {
        let us = self.color;
        let f = from.idx();
        let t = to.idx();
        let occ = self.state.occupied_bits();
        let mask = self.checkmask();
        let north = forward(us);
        let east = Board::forward_east(us);
        let west = Board::forward_west(us);
        let last = Board::last_rank(us);
        let m = Move::of(from, to, kind);
        lemma_square_of_idx(from);
        lemma_square_of_idx(to);
        self.lemma_cell(f);
        self.lemma_cell(t);
        let push = shifted(single(f), north) & !occ;
        let double_push = shifted(push & push_rank(us), north) & !occ;
        let capture = pawn_mask(us, f) & self.enemy_bits();
        lemma_bit_or(push | double_push, capture, t);
        lemma_bit_or(push, double_push, t);
        lemma_bit_and(shifted(single(f), north), !occ, t);
        lemma_shifted_bits(single(f), north, t);
        lemma_bit_and(shifted(push & push_rank(us), north), !occ, t);
        lemma_shifted_bits(push & push_rank(us), north, t);
        lemma_bit_and(pawn_mask(us, f), self.enemy_bits(), t);
        lemma_step_masks(f, t);
        lemma_bit_not(occ, t);
        bv_ranks(t as u64);
        lemma_bit_not(last, t);
        let promote = kind.promotion().is_some();
        // Which set of targets the destination is in, and by which step.
        let single_step = bit(push, t);
        let double_step = !single_step && bit(double_push, t);
        let targets = if single_step {
            self.single_pushes() & mask & (if promote {
                last
            } else {
                !last
            })
        } else if double_step {
            self.double_pushes() & mask
        } else if t - f == span(east, false) {
            self.pawn_captures(east, mask) & (if promote {
                last
            } else {
                !last
            })
        } else {
            self.pawn_captures(west, mask) & (if promote {
                last
            } else {
                !last
            })
        };
        let delta = if single_step {
            span(north, false)
        } else if double_step {
            span(north, true)
        } else if t - f == span(east, false) {
            span(east, false)
        } else {
            span(west, false)
        };
        if single_step {
            lemma_bit_single(f, t - stride(north));
            lemma_shifted_bits(self.pawn_bits(), north, t);
            lemma_bit_and(shifted(self.pawn_bits(), north), !occ, t);
            lemma_bit_and(self.single_pushes(), mask, t);
            lemma_bit_and(self.single_pushes() & mask, last, t);
            lemma_bit_and(self.single_pushes() & mask, !last, t);
        } else if double_step {
            let mid = t - stride(north);
            lemma_bit_and(push, push_rank(us), mid);
            lemma_bit_and(shifted(single(f), north), !occ, mid);
            lemma_shifted_bits(single(f), north, mid);
            lemma_bit_single(f, mid - stride(north));
            lemma_shifted_bits(self.pawn_bits(), north, mid);
            lemma_bit_and(shifted(self.pawn_bits(), north), !occ, mid);
            lemma_bit_and(self.single_pushes(), push_rank(us), mid);
            lemma_shifted_bits(self.single_pushes() & push_rank(us), north, t);
            lemma_bit_and(shifted(self.single_pushes() & push_rank(us), north), !occ, t);
            lemma_bit_and(self.double_pushes(), mask, t);
            lemma_line_rank(us, mid);
        } else {
            let direction = if t - f == span(east, false) {
                east
            } else {
                west
            };
            lemma_shifted_bits(self.pawn_bits(), direction, t);
            lemma_bit_and(shifted(self.pawn_bits(), direction), self.enemy_bits(), t);
            lemma_bit_and(shifted(self.pawn_bits(), direction) & self.enemy_bits(), mask, t);
            lemma_bit_and(self.pawn_captures(direction, mask), last, t);
            lemma_bit_and(self.pawn_captures(direction, mask), !last, t);
        }
        assert(bit(targets, t));
        assert(f == t - delta);
        let per = if promote && !double_step {
            promotion_moves(delta)
        } else {
            step_moves(delta)
        };
        if promote && !double_step {
            let four = promotions(f, t);
            assert(four[0] == Move::of(from, to, MoveKind::PromotionQueen));
            assert(four[1] == Move::of(from, to, MoveKind::PromotionRook));
            assert(four[2] == Move::of(from, to, MoveKind::PromotionBishop));
            assert(four[3] == Move::of(from, to, MoveKind::PromotionKnight));
            assert(per(t).contains(m));
        } else {
            assert(per(t)[0] == m);
        }
        lemma_each_holds(targets, per, 64, t, m);
        // Where the set of targets stands among the moves of the pawns.
        let p1 = each(self.single_pushes() & mask & last, promotion_moves(span(north, false)), 64);
        let p2 = each(
            self.pawn_captures(east, mask) & last,
            promotion_moves(span(east, false)),
            64,
        );
        let p3 = each(
            self.pawn_captures(west, mask) & last,
            promotion_moves(span(west, false)),
            64,
        );
        let q1 = each(self.single_pushes() & mask & !last, step_moves(span(north, false)), 64);
        let q2 = each(self.double_pushes() & mask, step_moves(span(north, true)), 64);
        let c1 = each(self.pawn_captures(east, mask) & !last, step_moves(span(east, false)), 64);
        let c2 = each(self.pawn_captures(west, mask) & !last, step_moves(span(west, false)), 64);
        lemma_concat_has(p1 + p2, p3, m);
        lemma_concat_has(p1, p2, m);
        lemma_concat_has(q1, q2, m);
        lemma_concat_has(c1 + c2, self.passing_part(), m);
        lemma_concat_has(c1, c2, m);
        let first = self.promotion_part(mask);
        let second = self.push_part(mask);
        let third = self.capture_part(mask);
        lemma_concat_has(first + second, third, m);
        lemma_concat_has(first, second, m);
    }
}

/// The rank that a pawn reaches by a single step from its home rank is not
/// the rank on which it promotes.
proof fn lemma_line_rank(color: Color, i: int)
    requires
        0 <= i < 64,
    ensures
        bit(push_rank(color), i) == (i / 8 == (if color == Color::White {
            2int
        } else {
            5int
        })),
{
    crate::bitboard::lemma_line_bits(2, 0, i);
    crate::bitboard::lemma_line_bits(5, 0, i);
}

/// A knight's move joins two squares that share no rank, file or diagonal.
proof fn lemma_knight_off_line(from: int, to: int, king: int)
    requires
        0 <= from < 64,
        0 <= to < 64,
        0 <= king < 64,
        bit(knight_mask(from), to),
    ensures
        !bit(line_bits(from, to), king),
{
    lemma_step_masks(from, to);
    lemma_line_has(from, to, king);
}

impl<'a> Board<'a> {
    /// A castling move that fits is among the castling moves.
    proof fn lemma_castling_found(&self, from: Square, to: Square)
        requires
            self.wf(),
            from.idx() == self.state.king_at(self.color),
            self.state.mailbox[from.idx()] is Some,
            self.castling_ok(self.state.mailbox[from.idx()].unwrap(), from, to),
        ensures
            self.state.has_king(self.color),
            self.state.checkers.data == 0,
            self.castling_part().contains(Move::of(from, to, MoveKind::Castling)),
    {
        let castle = castle_to(to).unwrap();
        lemma_square_of_idx(from);
        self.lemma_cell(from.idx());
        lemma_bit_and(self.state.pieces[5].data, self.own_bits(), from.idx());
        lemma_bit_nonzero(self.state.king_bits(self.color), from.idx());
        let short = CastleKind::of(self.color, true);
        let long = CastleKind::of(self.color, false);
        lemma_concat_has(
            self.castling_move(short),
            self.castling_move(long),
            Move::of(from, to, MoveKind::Castling),
        );
        if castle == short {
            assert(self.castling_move(short)[0] == Move::of(from, to, MoveKind::Castling));
        } else {
            assert(castle == long);
            assert(self.castling_move(long)[0] == Move::of(from, to, MoveKind::Castling));
        }
    }

    /// A capture in passing that fits is among the captures in passing.
    proof fn lemma_passing_found(&self, from: Square, to: Square)
        requires
            self.wf(),
            self.state.mailbox[from.idx()] == Some(Piece::make(PieceKind::Pawn, self.color)),
            bit(pawn_mask(self.color, from.idx()), to.idx()),
            self.state.enpassant == Some(to),
            !bit(self.own_bits(), to.idx()),
        ensures
            self.passing_part().contains(Move::of(from, to, MoveKind::Enpassant)),
    {
        let f = from.idx();
        lemma_square_of_idx(from);
        lemma_square_of_idx(to);
        self.lemma_cell(f);
        lemma_step_symmetry(f, to.idx());
        lemma_step_symmetry(to.idx(), f);
        let sources = self.passing_sources(to);
        lemma_bit_and(pawn_mask(self.color.other(), to.idx()), self.pawn_bits(), f);
        let per = passing_moves(to.idx());
        assert(per(f)[0] == Move::of(from, to, MoveKind::Enpassant));
        lemma_each_holds(sources, per, 64, f, Move::of(from, to, MoveKind::Enpassant));
    }

    /// A move of a knight, bishop, rook or queen that fits is among the
    /// moves of the pieces.
    proof fn lemma_piece_found(&self, from: Square, to: Square)
        requires
            self.wf(),
            self.state.mailbox[from.idx()] is Some,
            self.state.mailbox[from.idx()].unwrap().color_spec() == self.color,
            ({
                let kind = self.state.mailbox[from.idx()].unwrap().kind_spec();
                &&& kind != PieceKind::Pawn
                &&& kind != PieceKind::King
                &&& bit(piece_reach(kind, from.idx(), self.state.occupied_bits()), to.idx())
            }),
            !bit(self.own_bits(), to.idx()),
            bit(self.checkmask(), to.idx()),
            bit(self.state.blockers[self.color.idx()].data, from.idx()) ==> bit(
                line_bits(from.idx(), to.idx()),
                self.state.king_at(self.color),
            ),
        ensures
            self.piece_part(self.movable(true, true) & self.checkmask()).contains(
                Move::of(from, to, MoveKind::Normal),
            ),
    {
        let f = from.idx();
        let t = to.idx();
        let us = self.color;
        let kind = self.state.mailbox[f].unwrap().kind_spec();
        let occ = self.state.occupied_bits();
        let own = self.own_bits();
        let blockers = self.state.blockers[us.idx()].data;
        let movable = self.movable(true, true) & self.checkmask();
        let king = self.state.king_at(us);
        let m = Move::of(from, to, MoveKind::Normal);
        lemma_square_of_idx(from);
        lemma_square_of_idx(to);
        self.lemma_cell(f);
        lemma_bit_not(own, t);
        lemma_bit_and(self.movable(true, true), self.checkmask(), t);
        let knights = self.state.pieces[1].data & own & !blockers;
        let diagonal = self.state.diagonal_bits() & own;
        let straight = self.state.straight_bits() & own;
        let a = each(knights, Board::knight_fan(movable), 64);
        let b = each(diagonal, Board::diagonal_fan(self.state, us, movable), 64);
        let c = each(straight, Board::straight_fan(self.state, us, movable), 64);
        lemma_concat_has(a + b, c, m);
        lemma_concat_has(a, b, m);
        lemma_bit_or(bishop_reach(f, occ), rook_reach(f, occ), t);
        if bit(blockers, f) {
            self.lemma_threats_need_king();
            lemma_bit_nonzero(blockers, f);
            self.lemma_own_king();
            if kind == PieceKind::Knight {
                lemma_knight_off_line(f, t, king);
            }
            crate::fits::lemma_line_turn(f, t, king);
        }
        if kind == PieceKind::Knight {
            lemma_bit_and(self.state.pieces[1].data & own, !blockers, f);
            lemma_bit_and(self.state.pieces[1].data, own, f);
            lemma_bit_not(blockers, f);
            lemma_bit_and(knight_mask(f), movable, t);
            lemma_normal_holds(f, knight_mask(f) & movable, t);
            lemma_each_holds(knights, Board::knight_fan(movable), 64, f, m);
        } else if kind == PieceKind::Bishop || (kind == PieceKind::Queen && bit(
            bishop_reach(f, occ),
            t,
        )) {
            lemma_bit_and(self.state.diagonal_bits(), own, f);
            lemma_bit_or(self.state.pieces[2].data, self.state.pieces[4].data, f);
            let reach = bishop_reach(f, occ);
            let targets = Board::slider_targets(self.state, us, f, reach, movable);
            lemma_bit_and(reach & movable, line_bits(f, king), t);
            lemma_bit_and(reach, movable, t);
            lemma_normal_holds(f, targets, t);
            lemma_each_holds(diagonal, Board::diagonal_fan(self.state, us, movable), 64, f, m);
        } else {
            lemma_bit_and(self.state.straight_bits(), own, f);
            lemma_bit_or(self.state.pieces[3].data, self.state.pieces[4].data, f);
            let reach = rook_reach(f, occ);
            let targets = Board::slider_targets(self.state, us, f, reach, movable);
            lemma_bit_and(reach & movable, line_bits(f, king), t);
            lemma_bit_and(reach, movable, t);
            lemma_normal_holds(f, targets, t);
            lemma_each_holds(straight, Board::straight_fan(self.state, us, movable), 64, f, m);
        }
    }

    /// Every pseudo-legal move is found, but a move of a king that the
    /// position does not keep track of.
    pub proof fn lemma_fitting_is_found(&self, from: Square, to: Square, kind: MoveKind)
        requires
            self.wf(),
            self.proper(from),
            self.pseudo_legal(Move::of(from, to, kind)),
        ensures
            self.generated(true, true).contains(Move::of(from, to, kind)),
    {
        reveal(Board::pseudo_legal);
        let m = Move::of(from, to, kind);
        crate::moves::lemma_move_parts(from, to, kind);
        let us = self.color;
        let moving = self.state.mailbox[from.idx()].unwrap();
        let movable = self.movable(true, true);
        let checkers = self.state.checkers.data;
        lemma_piece_parts(moving);
        let kings = self.king_part(movable);
        if many(checkers) {
            self.lemma_king_found(from, to);
        } else {
            let castles = if checkers == 0 && self.state.has_king(us) {
                self.castling_part()
            } else {
                Seq::empty()
            };
            let pawns = self.pawn_part(self.checkmask(), true, true);
            let pieces = self.piece_part(movable & self.checkmask());
            lemma_concat_has(kings + castles + pawns, pieces, m);
            lemma_concat_has(kings + castles, pawns, m);
            lemma_concat_has(kings, castles, m);
            let gap = between_bits(self.state.king_at(us), lowest(checkers));
            lemma_bit_or(gap, checkers, to.idx());
            lemma_bit_or(checkers, gap, to.idx());
            bv_ranks(to.idx() as u64);
            if kind == MoveKind::Castling {
                self.lemma_castling_found(from, to);
            } else if kind == MoveKind::Enpassant {
                self.lemma_passing_found(from, to);
                let first = self.promotion_part(self.checkmask());
                let second = self.push_part(self.checkmask());
                let third = self.capture_part(self.checkmask());
                let c1 = each(
                    self.pawn_captures(Board::forward_east(us), self.checkmask())
                        & !Board::last_rank(us),
                    step_moves(span(Board::forward_east(us), false)),
                    64,
                );
                let c2 = each(
                    self.pawn_captures(Board::forward_west(us), self.checkmask())
                        & !Board::last_rank(us),
                    step_moves(span(Board::forward_west(us), false)),
                    64,
                );
                lemma_concat_has(c1 + c2, self.passing_part(), m);
                lemma_concat_has(first + second, third, m);
            } else if moving.kind_spec() == PieceKind::King {
                self.lemma_king_found(from, to);
            } else if moving.kind_spec() == PieceKind::Pawn {
                self.lemma_pawn_found(from, to, kind);
            } else {
                self.lemma_piece_found(from, to);
            }
        }
    }
}

} // verus!
