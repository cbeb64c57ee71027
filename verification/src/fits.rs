use vstd::prelude::*;
use crate::attack::{king_mask, lemma_step_masks, pawn_mask};
use crate::bitboard::{lemma_many, lemma_shifted_bits, many, shifted};
use crate::bits::{
    bit, lemma_bit_and, lemma_bit_not, lemma_bit_or, lemma_bit_single, lemma_bit_zero,
    lemma_lowest, lowest, single,
};
use crate::board::Board;
use crate::castle::CastleKind;

use crate::direction::Direction;
use crate::legal::{castle_to, forward, pawn_span, piece_reach, push_rank, RANK_FIRST_LAST};
use crate::movegen::{
    each, from_moves, normal_moves, passing_moves, promotion_moves, promotions, span,
    step_moves, stride,
};
use crate::moves::{lemma_move_parts, Move, MoveKind};
use crate::piece::{lemma_piece_parts, Piece, PieceKind};
use crate::square::{lemma_square_idx_of, lemma_square_of_idx, Square};
use crate::tables::{between_bits, lemma_between_has, lemma_line_has, line_bits};

verus! {

/// The move from the square numbered `from` to the square numbered `to`.
pub open spec fn move_of(from: int, to: int, kind: MoveKind) -> Move {
    Move::of(Square::of(from), Square::of(to), kind)
}

/// The parts of a move between two squares of the board.
pub proof fn lemma_move_of(from: int, to: int, kind: MoveKind)
    requires
        0 <= from < 64,
        0 <= to < 64,
    ensures
        move_of(from, to, kind).from_spec().idx() == from,
        move_of(from, to, kind).to_spec().idx() == to,
        move_of(from, to, kind).kind_spec() == kind,
        move_of(from, to, kind).raw() == from + 64 * to + 4096 * kind.idx(),
{
    lemma_square_idx_of(from);
    lemma_square_idx_of(to);
    lemma_move_parts(Square::of(from), Square::of(to), kind);
}

impl<'a> Board<'a> {
    /// The pieces of the side to move.
    pub open spec fn own_bits(&self) -> u64 {
        self.state.colors[self.color.idx()].data
    }

    /// The pieces of the other side.
    pub open spec fn enemy_bits(&self) -> u64 {
        self.state.colors[self.color.other().idx()].data
    }

    /// A step of the king to a neighbouring square that holds no piece of
    /// its own side fits.
    pub proof fn lemma_king_fits(&self, from: int, to: int)
        requires
            self.wf(),
            0 <= from < 64,
            0 <= to < 64,
            self.state.mailbox[from] == Some(Piece::make(PieceKind::King, self.color)),
            bit(king_mask(from), to),
            !bit(self.own_bits(), to),
        ensures
            self.pseudo_legal(move_of(from, to, MoveKind::Normal)),
    {
        reveal(Board::pseudo_legal);
        lemma_move_of(from, to, MoveKind::Normal);
        lemma_step_masks(from, to);
    }

    /// A castling move of the side to move fits, and takes nothing, if the
    /// king stands where the move starts and is not in check, the right is
    /// not lost, and no piece stands between the king and the rook.
    pub proof fn lemma_castling_fits(&self, castle: CastleKind)
        requires
            self.wf(),
            castle.color_spec() == self.color,
            self.state.mailbox[castle.king_from_spec().idx()] == Some(
                Piece::make(PieceKind::King, self.color),
            ),
            self.state.checkers.data == 0,
            self.state.castles.allows(castle),
            between_bits(castle.king_from_spec().idx(), castle.rook_from_spec().idx())
                & self.state.occupied_bits() == 0,
        ensures
            self.pseudo_legal(
                Move::of(castle.king_from_spec(), castle.king_to_spec(), MoveKind::Castling),
            ),
            !self.noisy(
                Move::of(castle.king_from_spec(), castle.king_to_spec(), MoveKind::Castling),
            ),
    {
        reveal(Board::pseudo_legal);
        let from = castle.king_from_spec();
        let to = castle.king_to_spec();
        lemma_move_parts(from, to, MoveKind::Castling);
        lemma_square_of_idx(to);
        self.lemma_cell(to.idx());
        lemma_many(0);
        let gap = between_bits(from.idx(), castle.rook_from_spec().idx());
        lemma_between_has(from.idx(), castle.rook_from_spec().idx(), to.idx());
        lemma_bit_and(gap, self.state.occupied_bits(), to.idx());
        lemma_bit_zero(to.idx());
        lemma_bit_or(self.state.colors[0].data, self.state.colors[1].data, to.idx());
        assert(castle_to(to) == Some(castle));
    }

    /// A capture in passing fits if a pawn of the side to move attacks the
    /// square that the position names for it, no piece of its own side
    /// stands there, and the king is not in double check.
    pub proof fn lemma_passing_fits(&self, from: int, target: Square)
        requires
            self.wf(),
            0 <= from < 64,
            self.state.enpassant == Some(target),
            self.state.mailbox[from] == Some(Piece::make(PieceKind::Pawn, self.color)),
            bit(pawn_mask(self.color.other(), target.idx()), from),
            !bit(self.own_bits(), target.idx()),
            !many(self.state.checkers.data),
        ensures
            self.pseudo_legal(Move::of(Square::of(from), target, MoveKind::Enpassant)),
    {
        reveal(Board::pseudo_legal);
        lemma_square_idx_of(from);
        lemma_move_parts(Square::of(from), target, MoveKind::Enpassant);
        crate::attack::lemma_step_symmetry(from, target.idx());
        crate::attack::lemma_step_symmetry(target.idx(), from);
    }

    /// A move of a knight, bishop, rook or queen of the side to move fits if
    /// it leads to a square that the piece attacks and that holds no piece of
    /// its own side,
    /// ends a single check if there is one, and, if the piece is pinned,
    /// stays in line with the king; and the king is not in double check.
    pub proof fn lemma_piece_fits(&self, from: int, to: int)
        requires
            self.wf(),
            0 <= from < 64,
            0 <= to < 64,
            from != to,
            self.state.mailbox[from] is Some,
            ({
                let kind = self.state.mailbox[from].unwrap().kind_spec();
                &&& self.state.mailbox[from].unwrap().color_spec() == self.color
                &&& kind != PieceKind::Pawn
                &&& kind != PieceKind::King
                &&& bit(piece_reach(kind, from, self.state.occupied_bits()), to)
            }),
            !bit(self.own_bits(), to),
            !many(self.state.checkers.data),
            self.state.checkers.data != 0 ==> bit(
                between_bits(self.state.king_at(self.color), lowest(self.state.checkers.data))
                    | self.state.checkers.data,
                to,
            ),
            bit(self.state.blockers[self.color.idx()].data, from) ==> bit(
                line_bits(from, to),
                self.state.king_at(self.color),
            ),
        ensures
            self.pseudo_legal(move_of(from, to, MoveKind::Normal)),
    {
        reveal(Board::pseudo_legal);
        lemma_move_of(from, to, MoveKind::Normal);
    }

    /// A move of a pawn fits if it leads to a square of the pawn's span that
    /// holds no piece of its own side, ends a single check if there is one,
    /// and promotes exactly if it reaches the first or eighth rank; and the
    /// king is not in double check.
    pub proof fn lemma_pawn_fits(&self, from: int, to: int, kind: MoveKind)
        requires
            self.wf(),
            0 <= from < 64,
            0 <= to < 64,
            from != to,
            kind != MoveKind::Castling,
            kind != MoveKind::Enpassant,
            self.state.mailbox[from] == Some(Piece::make(PieceKind::Pawn, self.color)),
            !bit(self.own_bits(), to),
            !many(self.state.checkers.data),
            self.state.checkers.data != 0 ==> bit(
                between_bits(self.state.king_at(self.color), lowest(self.state.checkers.data))
                    | self.state.checkers.data,
                to,
            ),
            bit(pawn_span(self.color, from, self.state.occupied_bits(), self.enemy_bits()), to),
            kind.promotion().is_some() == bit(RANK_FIRST_LAST, to),
        ensures
            self.pseudo_legal(move_of(from, to, kind)),
    {
        reveal(Board::pseudo_legal);
        lemma_move_of(from, to, kind);
    }
}

/// A move is in a sequence made of two exactly if it is in one of them.
pub proof fn lemma_concat_has(a: Seq<Move>, b: Seq<Move>, m: Move)
    ensures
        (a + b).contains(m) == (a.contains(m) || b.contains(m)),
{
    if a.contains(m) {
        let i = choose|i: int| 0 <= i < a.len() && a[i] == m;
        assert((a + b)[i] == m);
    }
    if b.contains(m) {
        let i = choose|i: int| 0 <= i < b.len() && b[i] == m;
        assert((a + b)[a.len() + i] == m);
    }
    if (a + b).contains(m) {
        let i = choose|i: int| 0 <= i < (a + b).len() && (a + b)[i] == m;
        if i < a.len() {
            assert(a[i] == m);
        } else {
            assert(b[i - a.len()] == m);
        }
    }
}

/// A move among those that are given for each square of a set is among
/// those given for one of the squares.
pub proof fn lemma_each_has(bits: u64, per: spec_fn(int) -> Seq<Move>, n: int, m: Move)
    requires
        0 <= n <= 64,
        each(bits, per, n).contains(m),
    ensures
        exists|i: int| 0 <= i < n && bit(bits, i) && (#[trigger] per(i)).contains(m),
    decreases n,
{
    if n > 0 {
        let last = if bit(bits, n - 1) {
            per(n - 1)
        } else {
            Seq::empty()
        };
        lemma_concat_has(each(bits, per, n - 1), last, m);
        if each(bits, per, n - 1).contains(m) {
            lemma_each_has(bits, per, n - 1, m);
            let i = choose|i: int| 0 <= i < n - 1 && bit(bits, i) && (#[trigger] per(i)).contains(m);
            assert(0 <= i < n && bit(bits, i) && per(i).contains(m));
        } else {
            assert(last.contains(m));
            assert(bit(bits, n - 1) && per(n - 1).contains(m));
        }
    }
}

/// A move among the normal moves from a square to the squares of a set is
/// the normal move to one of them.
pub proof fn lemma_normal_has(from: int, targets: u64, m: Move)
    requires
        normal_moves(from, targets).contains(m),
    ensures
        exists|to: int|
            0 <= to < 64 && bit(targets, to) && m == #[trigger] move_of(from, to, MoveKind::Normal),
{
    let per = from_moves(from);
    lemma_each_has(targets, per, 64, m);
    let to = choose|i: int| 0 <= i < 64 && bit(targets, i) && (#[trigger] per(i)).contains(m);
    assert(per(to)[0] == move_of(from, to, MoveKind::Normal));
    assert(m == move_of(from, to, MoveKind::Normal));
}

/// Three squares in line: if `t` lies on the line through `f` and `k`, then
/// `k` lies on the line through `f` and `t`.
pub proof fn lemma_line_turn(f: int, k: int, t: int)
    requires
        0 <= f < 64,
        0 <= k < 64,
        0 <= t < 64,
        t != f,
        bit(line_bits(f, k), t),
    ensures
        bit(line_bits(f, t), k),
{
    lemma_line_has(f, k, t);
    lemma_line_has(f, t, k);
}

impl<'a> Board<'a> {
    /// A square of the king of the side to move holds that king.
    pub proof fn lemma_own_king(&self)
        requires
            self.wf(),
            self.state.has_king(self.color),
        ensures
            0 <= self.state.king_at(self.color) < 64,
            self.state.mailbox[self.state.king_at(self.color)] == Some(
                Piece::make(PieceKind::King, self.color),
            ),
    {
        let bits = self.state.king_bits(self.color);
        lemma_lowest(bits);
        let king = self.state.king_at(self.color);
        lemma_bit_and(self.state.pieces[5].data, self.own_bits(), king);
        assert(bit(self.state.pieces[5].data, king));
        assert(bit(self.state.colors[self.color.idx()].data, king));
        lemma_piece_parts(self.state.mailbox[king].unwrap());
    }

    /// What stands on a square, told from the bitboards.
    pub proof fn lemma_cell(&self, s: int)
        requires
            self.wf(),
            0 <= s < 64,
        ensures
            bit(self.own_bits(), s) == (self.state.mailbox[s] matches Some(p) && p.color_spec()
                == self.color),
            bit(self.enemy_bits(), s) == (self.state.mailbox[s] matches Some(p) && p.color_spec()
                == self.color.other()),
            bit(self.state.occupied_bits(), s) == self.state.mailbox[s].is_some(),
            forall|kind: PieceKind|
                bit(self.state.pieces[kind.idx()].data, s) == (
                self.state.mailbox[s] matches Some(p) && p.kind_spec() == kind),
            bit(self.pawn_bits(), s) == (self.state.mailbox[s] == Some(
                Piece::make(PieceKind::Pawn, self.color),
            )),
    {
        assert(bit(self.state.colors[0].data, s) == (self.state.mailbox[s] matches Some(p)
            && p.color_spec().idx() == 0));
        assert(bit(self.state.colors[1].data, s) == (self.state.mailbox[s] matches Some(p)
            && p.color_spec().idx() == 1));
        lemma_bit_or(self.state.colors[0].data, self.state.colors[1].data, s);
        assert forall|kind: PieceKind|
            bit(self.state.pieces[kind.idx()].data, s) == (self.state.mailbox[s] matches Some(p)
                && p.kind_spec() == kind) by {
            assert(bit(self.state.pieces[kind.idx()].data, s) == (
            self.state.mailbox[s] matches Some(p) && p.kind_spec().idx() == kind.idx()));
        }
        lemma_bit_and(self.own_bits(), self.state.pieces[0].data, s);
        assert(bit(self.state.pieces[PieceKind::Pawn.idx()].data, s) == (
        self.state.mailbox[s] matches Some(p) && p.kind_spec() == PieceKind::Pawn));
        if self.state.mailbox[s] is Some {
            lemma_piece_parts(self.state.mailbox[s].unwrap());
        }
    }

    /// The squares that moves of a category may end on hold no piece of the
    /// side to move.
    pub proof fn lemma_movable(&self, quiet: bool, noisy: bool, t: int)
        requires
            self.wf(),
            0 <= t < 64,
            bit(self.movable(quiet, noisy), t),
        ensures
            !bit(self.own_bits(), t),
    {
        self.lemma_cell(t);
        lemma_bit_not(self.state.occupied_bits(), t);
        lemma_bit_not(self.own_bits(), t);
    }

    /// In single check, a square of the check mask is the checker's square
    /// or lies between the checker and the king.
    pub proof fn lemma_checkmask(&self, t: int)
        requires
            0 <= t < 64,
            bit(self.checkmask(), t),
        ensures
            self.state.checkers.data != 0 ==> bit(
                between_bits(self.state.king_at(self.color), lowest(self.state.checkers.data))
                    | self.state.checkers.data,
                t,
            ),
    {
        let gap = between_bits(self.state.king_at(self.color), lowest(self.state.checkers.data));
        lemma_bit_or(self.state.checkers.data, gap, t);
        lemma_bit_or(gap, self.state.checkers.data, t);
    }

    /// The king's steps fit.
    pub proof fn lemma_king_part_fits(&self, quiet: bool, noisy: bool, m: Move)
        requires
            self.wf(),
            self.king_part(self.movable(quiet, noisy)).contains(m),
        ensures
            self.pseudo_legal(m),
    {
        let movable = self.movable(quiet, noisy);
        if self.state.has_king(self.color) {
            let king = self.state.king_at(self.color);
            self.lemma_own_king();
            lemma_normal_has(king, king_mask(king) & movable, m);
            let to = choose|to: int|
                0 <= to < 64 && bit(king_mask(king) & movable, to) && m == #[trigger] move_of(
                    king,
                    to,
                    MoveKind::Normal,
                );
            lemma_bit_and(king_mask(king), movable, to);
            self.lemma_movable(quiet, noisy, to);
            self.lemma_king_fits(king, to);
        }
    }

    /// The castling moves fit, if the king is not in check, and take
    /// nothing.
    pub proof fn lemma_castling_part_fits(&self, m: Move)
        requires
            self.wf(),
            self.state.has_king(self.color),
            self.state.checkers.data == 0,
            self.castling_part().contains(m),
        ensures
            self.pseudo_legal(m),
            !self.noisy(m),
    {
        let short = CastleKind::of(self.color, true);
        let long = CastleKind::of(self.color, false);
        lemma_concat_has(self.castling_move(short), self.castling_move(long), m);
        self.lemma_own_king();
        let king = self.state.king_at(self.color);
        if self.castling_move(short).contains(m) {
            lemma_square_of_idx(short.king_from_spec());
            assert(self.castling_move(short)[0] == m);
            self.lemma_castling_fits(short);
        } else {
            lemma_square_of_idx(long.king_from_spec());
            assert(self.castling_move(long)[0] == m);
            self.lemma_castling_fits(long);
        }
    }

    /// A square that a pawn reaches by a single step: where the pawn comes
    /// from, and that the square is in its span.
    pub proof fn lemma_single_push(&self, t: int)
        requires
            self.wf(),
            0 <= t < 64,
            bit(self.single_pushes(), t),
        ensures
            ({
                let f = t - span(forward(self.color), false);
                &&& 0 <= f < 64
                &&& f != t
                &&& bit(self.pawn_bits(), f)
                &&& !bit(self.own_bits(), t)
                &&& bit(pawn_span(self.color, f, self.state.occupied_bits(), self.enemy_bits()), t)
            }),
            bit(RANK_FIRST_LAST, t) == bit(Board::last_rank(self.color), t),
    {
        bv_ranks(t as u64);
        let north = forward(self.color);
        let f = t - stride(north);
        let occ = self.state.occupied_bits();
        lemma_bit_and(shifted(self.pawn_bits(), north), !occ, t);
        lemma_shifted_bits(self.pawn_bits(), north, t);
        lemma_bit_not(occ, t);
        self.lemma_cell(t);
        lemma_shifted_bits(single(f), north, t);
        lemma_bit_single(f, f);
        let push = shifted(single(f), north) & !occ;
        lemma_bit_and(shifted(single(f), north), !occ, t);
        let double_push = shifted(push & push_rank(self.color), north) & !occ;
        let capture = pawn_mask(self.color, f) & self.enemy_bits();
        lemma_bit_or(push | double_push, capture, t);
        lemma_bit_or(push, double_push, t);
    }

    /// A square that a pawn reaches by a double step: where the pawn comes
    /// from, and that the square is in its span.
    pub proof fn lemma_double_push(&self, t: int)
        requires
            self.wf(),
            0 <= t < 64,
            bit(self.double_pushes(), t),
        ensures
            ({
                let f = t - span(forward(self.color), true);
                &&& 0 <= f < 64
                &&& f != t
                &&& bit(self.pawn_bits(), f)
                &&& !bit(self.own_bits(), t)
                &&& bit(pawn_span(self.color, f, self.state.occupied_bits(), self.enemy_bits()), t)
            }),
            !bit(RANK_FIRST_LAST, t),
    {
        bv_ranks(t as u64);
        let north = forward(self.color);
        let mid = t - stride(north);
        let f = mid - stride(north);
        if 0 <= mid < 64 {
            bv_ranks(mid as u64);
        }
        let occ = self.state.occupied_bits();
        let rank = push_rank(self.color);
        lemma_bit_and(shifted(self.single_pushes() & rank, north), !occ, t);
        lemma_shifted_bits(self.single_pushes() & rank, north, t);
        lemma_bit_and(self.single_pushes(), rank, mid);
        lemma_bit_and(shifted(self.pawn_bits(), north), !occ, mid);
        lemma_shifted_bits(self.pawn_bits(), north, mid);
        lemma_bit_not(occ, t);
        self.lemma_cell(t);
        lemma_shifted_bits(single(f), north, mid);
        lemma_bit_single(f, f);
        let push = shifted(single(f), north) & !occ;
        lemma_bit_and(shifted(single(f), north), !occ, mid);
        lemma_bit_and(push, rank, mid);
        lemma_shifted_bits(push & rank, north, t);
        let double_push = shifted(push & rank, north) & !occ;
        lemma_bit_and(shifted(push & rank, north), !occ, t);
        let capture = pawn_mask(self.color, f) & self.enemy_bits();
        lemma_bit_or(push | double_push, capture, t);
        lemma_bit_or(push, double_push, t);
    }

    /// A square on which a pawn captures: where the pawn comes from, and
    /// that the square is in its span.
    pub proof fn lemma_pawn_capture(&self, direction: Direction, t: int)
        requires
            self.wf(),
            0 <= t < 64,
            direction == Board::forward_east(self.color) || direction == Board::forward_west(
                self.color,
            ),
            bit(shifted(self.pawn_bits(), direction) & self.enemy_bits(), t),
        ensures
            ({
                let f = t - span(direction, false);
                &&& 0 <= f < 64
                &&& f != t
                &&& bit(self.pawn_bits(), f)
                &&& !bit(self.own_bits(), t)
                &&& bit(pawn_span(self.color, f, self.state.occupied_bits(), self.enemy_bits()), t)
            }),
            bit(RANK_FIRST_LAST, t) == bit(Board::last_rank(self.color), t),
    {
        bv_ranks(t as u64);
        let f = t - stride(direction);
        let occ = self.state.occupied_bits();
        lemma_bit_and(shifted(self.pawn_bits(), direction), self.enemy_bits(), t);
        lemma_shifted_bits(self.pawn_bits(), direction, t);
        self.lemma_cell(t);
        lemma_step_masks(f, t);
        let push = shifted(single(f), forward(self.color)) & !occ;
        let double_push = shifted(push & push_rank(self.color), forward(self.color)) & !occ;
        let capture = pawn_mask(self.color, f) & self.enemy_bits();
        lemma_bit_and(pawn_mask(self.color, f), self.enemy_bits(), t);
        lemma_bit_or(push | double_push, capture, t);
    }

    /// A move of a pawn to a square that has passed one of the three lemmas
    /// on pawn targets fits, unless the king is in double check.
    pub proof fn lemma_pawn_step_fits(
        &self,
        targets: u64,
        delta: int,
        promote: bool,
        m: Move,
    )
        requires
            self.wf(),
            !many(self.state.checkers.data),
            each(
                targets,
                if promote {
                    promotion_moves(delta)
                } else {
                    step_moves(delta)
                },
                64,
            ).contains(m),
            forall|t: int|
                0 <= t < 64 && #[trigger] bit(targets, t) ==> {
                    let f = t - delta;
                    &&& 0 <= f < 64
                    &&& f != t
                    &&& bit(self.pawn_bits(), f)
                    &&& !bit(self.own_bits(), t)
                    &&& bit(
                        pawn_span(self.color, f, self.state.occupied_bits(), self.enemy_bits()),
                        t,
                    )
                    &&& bit(self.checkmask(), t)
                    &&& promote == bit(RANK_FIRST_LAST, t)
                },
        ensures
            self.pseudo_legal(m),
    {
        let per = if promote {
            promotion_moves(delta)
        } else {
            step_moves(delta)
        };
        lemma_each_has(targets, per, 64, m);
        let t = choose|i: int| 0 <= i < 64 && bit(targets, i) && (#[trigger] per(i)).contains(m);
        let f = t - delta;
        assert(bit(targets, t));
        self.lemma_cell(f);
        self.lemma_checkmask(t);
        if promote {
            let four = promotions(f, t);
            let i = choose|i: int| 0 <= i < four.len() && four[i] == m;
            assert(four.len() == 4);
            if i == 0 {
                self.lemma_pawn_fits(f, t, MoveKind::PromotionQueen);
            } else if i == 1 {
                self.lemma_pawn_fits(f, t, MoveKind::PromotionRook);
            } else if i == 2 {
                self.lemma_pawn_fits(f, t, MoveKind::PromotionBishop);
            } else {
                self.lemma_pawn_fits(f, t, MoveKind::PromotionKnight);
            }
        } else {
            assert(per(t)[0] == m);
            self.lemma_pawn_fits(f, t, MoveKind::Normal);
        }
    }
}

/// Which squares the sets of the first, third, sixth and eighth rank hold.
pub proof fn bv_ranks(i: u64)
    by (bit_vector)
    requires
        i < 64,
    ensures
        ((0xffu64 << 56) >> i) & 1 == 1 <==> i / 8 == 7,
        ((0xffu64 << 0) >> i) & 1 == 1 <==> i / 8 == 0,
        ((0xffu64 << 16) >> i) & 1 == 1 <==> i / 8 == 2,
        ((0xffu64 << 40) >> i) & 1 == 1 <==> i / 8 == 5,
        ((0xff00_0000_0000_00ffu64 >> i) & 1 == 1) <==> (i / 8 == 0 || i / 8 == 7),
        (0xffff_ffff_ffff_ffffu64 >> i) & 1 == 1,
{
}

impl<'a> Board<'a> {
    /// The moves of the pawns by a single step fit.
    proof fn lemma_push_fits(&self, extra: u64, promote: bool, m: Move)
        requires
            self.wf(),
            !many(self.state.checkers.data),
            extra == if promote {
                Board::last_rank(self.color)
            } else {
                !Board::last_rank(self.color)
            },
            each(
                self.single_pushes() & self.checkmask() & extra,
                if promote {
                    promotion_moves(span(forward(self.color), false))
                } else {
                    step_moves(span(forward(self.color), false))
                },
                64,
            ).contains(m),
        ensures
            self.pseudo_legal(m),
    {
        let targets = self.single_pushes() & self.checkmask() & extra;
        assert forall|t: int| 0 <= t < 64 && #[trigger] bit(targets, t) implies {
            let f = t - span(forward(self.color), false);
            &&& 0 <= f < 64
            &&& f != t
            &&& bit(self.pawn_bits(), f)
            &&& !bit(self.own_bits(), t)
            &&& bit(pawn_span(self.color, f, self.state.occupied_bits(), self.enemy_bits()), t)
            &&& bit(self.checkmask(), t)
            &&& promote == bit(RANK_FIRST_LAST, t)
        } by {
            lemma_bit_and(self.single_pushes() & self.checkmask(), extra, t);
            lemma_bit_and(self.single_pushes(), self.checkmask(), t);
            self.lemma_single_push(t);
            lemma_bit_not(Board::last_rank(self.color), t);
        }
        self.lemma_pawn_step_fits(targets, span(forward(self.color), false), promote, m);
    }

    /// The moves of the pawns by a double step fit.
    proof fn lemma_double_fits(&self, m: Move)
        requires
            self.wf(),
            !many(self.state.checkers.data),
            each(
                self.double_pushes() & self.checkmask(),
                step_moves(span(forward(self.color), true)),
                64,
            ).contains(m),
        ensures
            self.pseudo_legal(m),
    {
        let targets = self.double_pushes() & self.checkmask();
        assert forall|t: int| 0 <= t < 64 && #[trigger] bit(targets, t) implies {
            let f = t - span(forward(self.color), true);
            &&& 0 <= f < 64
            &&& f != t
            &&& bit(self.pawn_bits(), f)
            &&& !bit(self.own_bits(), t)
            &&& bit(pawn_span(self.color, f, self.state.occupied_bits(), self.enemy_bits()), t)
            &&& bit(self.checkmask(), t)
            &&& !bit(RANK_FIRST_LAST, t)
        } by {
            lemma_bit_and(self.double_pushes(), self.checkmask(), t);
            self.lemma_double_push(t);
        }
        self.lemma_pawn_step_fits(targets, span(forward(self.color), true), false, m);
    }

    /// The captures of the pawns to one side fit.
    proof fn lemma_capture_fits(&self, direction: Direction, extra: u64, promote: bool, m: Move)
        requires
            self.wf(),
            !many(self.state.checkers.data),
            direction == Board::forward_east(self.color) || direction == Board::forward_west(
                self.color,
            ),
            extra == if promote {
                Board::last_rank(self.color)
            } else {
                !Board::last_rank(self.color)
            },
            each(
                self.pawn_captures(direction, self.checkmask()) & extra,
                if promote {
                    promotion_moves(span(direction, false))
                } else {
                    step_moves(span(direction, false))
                },
                64,
            ).contains(m),
        ensures
            self.pseudo_legal(m),
    {
        let targets = self.pawn_captures(direction, self.checkmask()) & extra;
        assert forall|t: int| 0 <= t < 64 && #[trigger] bit(targets, t) implies {
            let f = t - span(direction, false);
            &&& 0 <= f < 64
            &&& f != t
            &&& bit(self.pawn_bits(), f)
            &&& !bit(self.own_bits(), t)
            &&& bit(pawn_span(self.color, f, self.state.occupied_bits(), self.enemy_bits()), t)
            &&& bit(self.checkmask(), t)
            &&& promote == bit(RANK_FIRST_LAST, t)
        } by {
            lemma_bit_and(self.pawn_captures(direction, self.checkmask()), extra, t);
            lemma_bit_and(
                shifted(self.pawn_bits(), direction) & self.enemy_bits(),
                self.checkmask(),
                t,
            );
            self.lemma_pawn_capture(direction, t);
            lemma_bit_not(Board::last_rank(self.color), t);
        }
        self.lemma_pawn_step_fits(targets, span(direction, false), promote, m);
    }

    /// The captures in passing fit.
    proof fn lemma_passing_part_fits(&self, m: Move)
        requires
            self.wf(),
            !many(self.state.checkers.data),
            self.passing_part().contains(m),
        ensures
            self.pseudo_legal(m),
    {
        match self.state.enpassant {
            Some(target) => {
                let sources = self.passing_sources(target);
                let per = passing_moves(target.idx());
                lemma_each_has(sources, per, 64, m);
                let f = choose|i: int|
                    0 <= i < 64 && bit(sources, i) && (#[trigger] per(i)).contains(m);
                assert(per(f)[0] == m);
                lemma_square_of_idx(target);
                lemma_bit_zero(f);
                lemma_bit_and(
                    pawn_mask(self.color.other(), target.idx()),
                    self.pawn_bits(),
                    f,
                );
                self.lemma_cell(f);
                self.lemma_passing_fits(f, target);
            },
            None => {},
        }
    }

    /// The moves of the pawns fit.
    proof fn lemma_pawn_part_fits(&self, quiet: bool, noisy: bool, m: Move)
        requires
            self.wf(),
            !many(self.state.checkers.data),
            self.pawn_part(self.checkmask(), quiet, noisy).contains(m),
        ensures
            self.pseudo_legal(m),
    {
        let us = self.color;
        let mask = self.checkmask();
        let last = Board::last_rank(us);
        let east = Board::forward_east(us);
        let west = Board::forward_west(us);
        let first = if noisy {
            self.promotion_part(mask)
        } else {
            Seq::empty()
        };
        let second = if quiet {
            self.push_part(mask)
        } else {
            Seq::empty()
        };
        let third = if noisy {
            self.capture_part(mask)
        } else {
            Seq::empty()
        };
        lemma_concat_has(first + second, third, m);
        lemma_concat_has(first, second, m);
        if first.contains(m) {
            let a = each(
                self.single_pushes() & mask & last,
                promotion_moves(span(forward(us), false)),
                64,
            );
            let b = each(
                self.pawn_captures(east, mask) & last,
                promotion_moves(span(east, false)),
                64,
            );
            let c = each(
                self.pawn_captures(west, mask) & last,
                promotion_moves(span(west, false)),
                64,
            );
            lemma_concat_has(a + b, c, m);
            lemma_concat_has(a, b, m);
            if a.contains(m) {
                self.lemma_push_fits(last, true, m);
            } else if b.contains(m) {
                self.lemma_capture_fits(east, last, true, m);
            } else {
                self.lemma_capture_fits(west, last, true, m);
            }
        } else if second.contains(m) {
            let a = each(
                self.single_pushes() & mask & !last,
                step_moves(span(forward(us), false)),
                64,
            );
            let b = each(self.double_pushes() & mask, step_moves(span(forward(us), true)), 64);
            lemma_concat_has(a, b, m);
            if a.contains(m) {
                self.lemma_push_fits(!last, false, m);
            } else {
                self.lemma_double_fits(m);
            }
        } else {
            let a = each(
                self.pawn_captures(east, mask) & !last,
                step_moves(span(east, false)),
                64,
            );
            let b = each(
                self.pawn_captures(west, mask) & !last,
                step_moves(span(west, false)),
                64,
            );
            lemma_concat_has(a + b, self.passing_part(), m);
            lemma_concat_has(a, b, m);
            if a.contains(m) {
                self.lemma_capture_fits(east, !last, false, m);
            } else if b.contains(m) {
                self.lemma_capture_fits(west, !last, false, m);
            } else {
                self.lemma_passing_part_fits(m);
            }
        }
    }

    /// The moves of a knight or slider from `from` to the squares of
    /// `targets` fit if the squares are among those that the piece attacks
    /// and may go to, and, should the piece be pinned, in line with the king.
    proof fn lemma_fan_fits(&self, quiet: bool, noisy: bool, from: int, targets: u64, m: Move)
        requires
            self.wf(),
            !many(self.state.checkers.data),
            0 <= from < 64,
            bit(self.own_bits(), from),
            self.state.mailbox[from] is Some,
            ({
                let kind = self.state.mailbox[from].unwrap().kind_spec();
                &&& kind != PieceKind::Pawn
                &&& kind != PieceKind::King
                &&& forall|t: int|
                    0 <= t < 64 && #[trigger] bit(targets, t) ==> {
                        &&& bit(piece_reach(kind, from, self.state.occupied_bits()), t)
                        &&& bit(self.movable(quiet, noisy) & self.checkmask(), t)
                        &&& (bit(self.state.blockers[self.color.idx()].data, from) ==> bit(
                            line_bits(from, self.state.king_at(self.color)),
                            t,
                        ))
                    }
            }),
            normal_moves(from, targets).contains(m),
        ensures
            self.pseudo_legal(m),
    {
        lemma_normal_has(from, targets, m);
        let t = choose|to: int|
            0 <= to < 64 && bit(targets, to) && m == #[trigger] move_of(
                from,
                to,
                MoveKind::Normal,
            );
        assert(bit(targets, t));
        lemma_bit_and(self.movable(quiet, noisy), self.checkmask(), t);
        self.lemma_movable(quiet, noisy, t);
        self.lemma_checkmask(t);
        if bit(self.state.blockers[self.color.idx()].data, from) {
            self.lemma_threats_need_king();
            crate::bits::lemma_bit_nonzero(self.state.blockers[self.color.idx()].data, from);
            self.lemma_own_king();
            lemma_line_turn(from, self.state.king_at(self.color), t);
        }
        self.lemma_piece_fits(from, t);
    }

    /// The moves of the knights and sliders fit.
    proof fn lemma_piece_part_fits(&self, quiet: bool, noisy: bool, m: Move)
        requires
            self.wf(),
            !many(self.state.checkers.data),
            self.piece_part(self.movable(quiet, noisy) & self.checkmask()).contains(m),
        ensures
            self.pseudo_legal(m),
    {
        let movable = self.movable(quiet, noisy) & self.checkmask();
        let own = self.own_bits();
        let occ = self.state.occupied_bits();
        let blockers = self.state.blockers[self.color.idx()].data;
        let knights = self.state.pieces[1].data & own & !blockers;
        let diagonal = self.state.diagonal_bits() & own;
        let straight = self.state.straight_bits() & own;
        let a = each(knights, Board::knight_fan(movable), 64);
        let b = each(diagonal, Board::diagonal_fan(self.state, self.color, movable), 64);
        let c = each(straight, Board::straight_fan(self.state, self.color, movable), 64);
        lemma_concat_has(a + b, c, m);
        lemma_concat_has(a, b, m);
        if a.contains(m) {
            let per = Board::knight_fan(movable);
            lemma_each_has(knights, per, 64, m);
            let f = choose|i: int| 0 <= i < 64 && bit(knights, i) && (#[trigger] per(i)).contains(m);
            lemma_bit_and(self.state.pieces[1].data & own, !blockers, f);
            lemma_bit_and(self.state.pieces[1].data, own, f);
            lemma_bit_not(blockers, f);
            self.lemma_cell(f);
            let targets = crate::attack::knight_mask(f) & movable;
            assert forall|t: int| 0 <= t < 64 && #[trigger] bit(targets, t) implies bit(
                crate::attack::knight_mask(f),
                t,
            ) && bit(movable, t) by {
                lemma_bit_and(crate::attack::knight_mask(f), movable, t);
            }
            self.lemma_fan_fits(quiet, noisy, f, targets, m);
        } else if b.contains(m) {
            let per = Board::diagonal_fan(self.state, self.color, movable);
            lemma_each_has(diagonal, per, 64, m);
            let f = choose|i: int|
                0 <= i < 64 && bit(diagonal, i) && (#[trigger] per(i)).contains(m);
            lemma_bit_and(self.state.diagonal_bits(), own, f);
            lemma_bit_or(self.state.pieces[2].data, self.state.pieces[4].data, f);
            self.lemma_cell(f);
            let reach = crate::attack::bishop_reach(f, occ);
            let targets = Board::slider_targets(self.state, self.color, f, reach, movable);
            assert forall|t: int| 0 <= t < 64 && #[trigger] bit(targets, t) implies {
                &&& bit(reach, t)
                &&& bit(movable, t)
                &&& (bit(blockers, f) ==> bit(line_bits(f, self.state.king_at(self.color)), t))
            } by {
                lemma_bit_and(reach & movable, line_bits(f, self.state.king_at(self.color)), t);
                lemma_bit_and(reach, movable, t);
            }
            assert forall|t: int| 0 <= t < 64 && bit(reach, t) implies bit(
                piece_reach(self.state.mailbox[f].unwrap().kind_spec(), f, occ),
                t,
            ) by {
                lemma_bit_or(reach, crate::attack::rook_reach(f, occ), t);
            }
            self.lemma_fan_fits(quiet, noisy, f, targets, m);
        } else {
            let per = Board::straight_fan(self.state, self.color, movable);
            lemma_each_has(straight, per, 64, m);
            let f = choose|i: int|
                0 <= i < 64 && bit(straight, i) && (#[trigger] per(i)).contains(m);
            lemma_bit_and(self.state.straight_bits(), own, f);
            lemma_bit_or(self.state.pieces[3].data, self.state.pieces[4].data, f);
            self.lemma_cell(f);
            let reach = crate::attack::rook_reach(f, occ);
            let targets = Board::slider_targets(self.state, self.color, f, reach, movable);
            assert forall|t: int| 0 <= t < 64 && #[trigger] bit(targets, t) implies {
                &&& bit(reach, t)
                &&& bit(movable, t)
                &&& (bit(blockers, f) ==> bit(line_bits(f, self.state.king_at(self.color)), t))
            } by {
                lemma_bit_and(reach & movable, line_bits(f, self.state.king_at(self.color)), t);
                lemma_bit_and(reach, movable, t);
            }
            assert forall|t: int| 0 <= t < 64 && bit(reach, t) implies bit(
                piece_reach(self.state.mailbox[f].unwrap().kind_spec(), f, occ),
                t,
            ) by {
                lemma_bit_or(crate::attack::bishop_reach(f, occ), reach, t);
            }
            self.lemma_fan_fits(quiet, noisy, f, targets, m);
        }
    }

    /// Every move that is found for a sound position is pseudo-legal.
    pub proof fn lemma_generated_fit(&self, quiet: bool, noisy: bool, m: Move)
        requires
            self.wf(),
            self.generated(quiet, noisy).contains(m),
        ensures
            self.pseudo_legal(m),
    {
        let movable = self.movable(quiet, noisy);
        if many(self.state.checkers.data) {
            self.lemma_king_part_fits(quiet, noisy, m);
        } else {
            let kings = self.king_part(movable);
            let castles = if quiet && self.state.checkers.data == 0 && self.state.has_king(
                self.color,
            ) {
                self.castling_part()
            } else {
                Seq::empty()
            };
            let pawns = self.pawn_part(self.checkmask(), quiet, noisy);
            let pieces = self.piece_part(movable & self.checkmask());
            lemma_concat_has(kings + castles + pawns, pieces, m);
            lemma_concat_has(kings + castles, pawns, m);
            lemma_concat_has(kings, castles, m);
            if kings.contains(m) {
                self.lemma_king_part_fits(quiet, noisy, m);
            } else if castles.contains(m) {
                self.lemma_castling_part_fits(m);
            } else if pawns.contains(m) {
                self.lemma_pawn_part_fits(quiet, noisy, m);
            } else {
                self.lemma_piece_part_fits(quiet, noisy, m);
            }
        }
    }

    /// Every move of a list of found moves is pseudo-legal.
    pub proof fn lemma_listed_fit(&self, quiet: bool, noisy: bool, i: int)
        requires
            self.wf(),
            0 <= i < crate::movegen::capped(self.generated(quiet, noisy)).len(),
        ensures
            self.pseudo_legal(crate::movegen::capped(self.generated(quiet, noisy))[i]),
    {
        let all = self.generated(quiet, noisy);
        assert(all[i] == crate::movegen::capped(all)[i]);
        self.lemma_generated_fit(quiet, noisy, all[i]);
    }
}

} // verus!
