use vstd::prelude::*;
use crate::attack::{bishop_reach, king_mask, knight_mask, rook_reach};
use crate::bitboard::many;
use crate::bits::{bit, group_bits};
use crate::board::Board;
use crate::fits::{lemma_concat_has, lemma_each_has, lemma_normal_has, move_of};
use crate::found::{lemma_each_holds, lemma_normal_holds};
use crate::legal::forward;
use crate::movegen::{each, normal_moves, passing_moves, promotion_moves, span, step_moves};
use crate::moves::{lemma_move_parts, Move, MoveKind};
use crate::square::{lemma_square_idx_of, Square};

verus! {

broadcast use group_bits;

/// If, for each square of a set, a move is among the moves that one rule
/// gives exactly if it is among those that one of two others gives, then
/// the same holds of the moves that the rules give for the whole set.
pub proof fn lemma_each_split(
    bits: u64,
    all: spec_fn(int) -> Seq<Move>,
    quiet: spec_fn(int) -> Seq<Move>,
    noisy: spec_fn(int) -> Seq<Move>,
    m: Move,
)
    requires
        forall|i: int|
            0 <= i < 64 && bit(bits, i) ==> (#[trigger] all(i)).contains(m) == (quiet(i).contains(
                m,
            ) || noisy(i).contains(m)),
    ensures
        each(bits, all, 64).contains(m) == (each(bits, quiet, 64).contains(m) || each(
            bits,
            noisy,
            64,
        ).contains(m)),
{
    if each(bits, all, 64).contains(m) {
        lemma_each_has(bits, all, 64, m);
        let i = choose|i: int| 0 <= i < 64 && bit(bits, i) && (#[trigger] all(i)).contains(m);
        if quiet(i).contains(m) {
            lemma_each_holds(bits, quiet, 64, i, m);
        } else {
            lemma_each_holds(bits, noisy, 64, i, m);
        }
    }
    if each(bits, quiet, 64).contains(m) {
        lemma_each_has(bits, quiet, 64, m);
        let i = choose|i: int| 0 <= i < 64 && bit(bits, i) && (#[trigger] quiet(i)).contains(m);
        assert(all(i).contains(m));
        lemma_each_holds(bits, all, 64, i, m);
    }
    if each(bits, noisy, 64).contains(m) {
        lemma_each_has(bits, noisy, 64, m);
        let i = choose|i: int| 0 <= i < 64 && bit(bits, i) && (#[trigger] noisy(i)).contains(m);
        assert(all(i).contains(m));
        lemma_each_holds(bits, all, 64, i, m);
    }
}

/// If a set of squares is the union of two others, the normal moves from a
/// square to its squares are those to the squares of the one or the other.
pub proof fn lemma_normal_split(from: int, all: u64, quiet: u64, noisy: u64, m: Move)
    requires
        forall|t: int| 0 <= t < 64 ==> #[trigger] bit(all, t) == (bit(quiet, t) || bit(noisy, t)),
    ensures
        normal_moves(from, all).contains(m) == (normal_moves(from, quiet).contains(m)
            || normal_moves(from, noisy).contains(m)),
{
    if normal_moves(from, all).contains(m) {
        lemma_normal_has(from, all, m);
        let t = choose|t: int|
            0 <= t < 64 && bit(all, t) && m == #[trigger] move_of(from, t, MoveKind::Normal);
        if bit(quiet, t) {
            lemma_normal_holds(from, quiet, t);
        } else {
            lemma_normal_holds(from, noisy, t);
        }
    }
    if normal_moves(from, quiet).contains(m) {
        lemma_normal_has(from, quiet, m);
        let t = choose|t: int|
            0 <= t < 64 && bit(quiet, t) && m == #[trigger] move_of(from, t, MoveKind::Normal);
        assert(bit(all, t));
        lemma_normal_holds(from, all, t);
    }
    if normal_moves(from, noisy).contains(m) {
        lemma_normal_has(from, noisy, m);
        let t = choose|t: int|
            0 <= t < 64 && bit(noisy, t) && m == #[trigger] move_of(from, t, MoveKind::Normal);
        assert(bit(all, t));
        lemma_normal_holds(from, all, t);
    }
}

/// A move among the normal moves from a square to the squares of a set is
/// a normal move that ends on a square of the set.
pub proof fn lemma_normal_to(from: int, targets: u64, m: Move)
    requires
        normal_moves(from, targets).contains(m),
    ensures
        m.kind_spec() == MoveKind::Normal,
        0 <= m.to_spec().idx() < 64,
        bit(targets, m.to_spec().idx()),
{
    lemma_normal_has(from, targets, m);
    let t = choose|t: int|
        0 <= t < 64 && bit(targets, t) && m == #[trigger] move_of(from, t, MoveKind::Normal);
    lemma_move_parts(Square::of(from), Square::of(t), MoveKind::Normal);
    lemma_square_idx_of(t);
}

/// A move among the steps to the squares of a set is a normal move that
/// ends on a square of the set.
pub proof fn lemma_step_to(targets: u64, delta: int, m: Move)
    requires
        each(targets, step_moves(delta), 64).contains(m),
    ensures
        m.kind_spec() == MoveKind::Normal,
        0 <= m.to_spec().idx() < 64,
        bit(targets, m.to_spec().idx()),
{
    let per = step_moves(delta);
    lemma_each_has(targets, per, 64, m);
    let t = choose|t: int| 0 <= t < 64 && bit(targets, t) && (#[trigger] per(t)).contains(m);
    assert(per(t)[0] == m);
    lemma_move_parts(Square::of(t - delta), Square::of(t), MoveKind::Normal);
    lemma_square_idx_of(t);
}

/// A move among the promotions to the squares of a set promotes.
pub proof fn lemma_promotion_kind(targets: u64, delta: int, m: Move)
    requires
        each(targets, promotion_moves(delta), 64).contains(m),
    ensures
        m.kind_spec().promotion().is_some(),
{
    let per = promotion_moves(delta);
    lemma_each_has(targets, per, 64, m);
    let t = choose|t: int| 0 <= t < 64 && bit(targets, t) && (#[trigger] per(t)).contains(m);
    let four = per(t);
    let i = choose|i: int| 0 <= i < four.len() && four[i] == m;
    let from = Square::of(t - delta);
    let to = Square::of(t);
    lemma_move_parts(from, to, MoveKind::PromotionQueen);
    lemma_move_parts(from, to, MoveKind::PromotionRook);
    lemma_move_parts(from, to, MoveKind::PromotionBishop);
    lemma_move_parts(from, to, MoveKind::PromotionKnight);
}

/// A move among the captures in passing from the squares of a set is a
/// capture in passing.
pub proof fn lemma_passing_kind(sources: u64, to: int, m: Move)
    requires
        each(sources, passing_moves(to), 64).contains(m),
    ensures
        m.kind_spec() == MoveKind::Enpassant,
{
    let per = passing_moves(to);
    lemma_each_has(sources, per, 64, m);
    let f = choose|f: int| 0 <= f < 64 && bit(sources, f) && (#[trigger] per(f)).contains(m);
    assert(per(f)[0] == m);
    lemma_move_parts(Square::of(f), Square::of(to), MoveKind::Enpassant);
}

impl<'a> Board<'a> {
    /// A square that holds no piece of the side to move is empty or holds a
    /// piece of the other side, and not both.
    pub proof fn lemma_movable_split(&self, t: int)
        requires
            self.wf(),
            0 <= t < 64,
        ensures
            bit(self.movable(true, true), t) == (bit(self.movable(true, false), t) || bit(
                self.movable(false, true),
                t,
            )),
            bit(self.movable(true, false), t) == self.state.mailbox[t].is_none(),
            bit(self.movable(false, true), t) ==> self.state.mailbox[t].is_some(),
    {
        self.lemma_cell(t);
        if self.state.mailbox[t] is Some {
            crate::piece::lemma_piece_parts(self.state.mailbox[t].unwrap());
        }
    }

    /// The king's steps are those onto an empty square, which are not
    /// noisy, and those onto a piece of the other side, which are.
    proof fn lemma_king_split(&self, m: Move)
        requires
            self.wf(),
        ensures
            self.king_part(self.movable(true, true)).contains(m) == (self.king_part(
                self.movable(true, false),
            ).contains(m) || self.king_part(self.movable(false, true)).contains(m)),
            self.king_part(self.movable(true, false)).contains(m) ==> !self.noisy(m),
            self.king_part(self.movable(false, true)).contains(m) ==> self.noisy(m),
    {
        if self.state.has_king(self.color) {
            let king = self.state.king_at(self.color);
            let all = king_mask(king) & self.movable(true, true);
            let quiet = king_mask(king) & self.movable(true, false);
            let noisy = king_mask(king) & self.movable(false, true);
            assert forall|t: int| 0 <= t < 64 implies #[trigger] bit(all, t) == (bit(quiet, t)
                || bit(noisy, t)) by {
                self.lemma_movable_split(t);
            }
            lemma_normal_split(king, all, quiet, noisy, m);
            if normal_moves(king, quiet).contains(m) {
                lemma_normal_to(king, quiet, m);
                self.lemma_movable_split(m.to_spec().idx());
            }
            if normal_moves(king, noisy).contains(m) {
                lemma_normal_to(king, noisy, m);
                self.lemma_movable_split(m.to_spec().idx());
            }
        }
    }

    /// The pawns' moves are the pushes that do not promote, which are not
    /// noisy, and the promotions and captures, which are.
    proof fn lemma_pawn_split(&self, m: Move)
        requires
            self.wf(),
        ensures
            self.pawn_part(self.checkmask(), true, true).contains(m) == (self.pawn_part(
                self.checkmask(),
                true,
                false,
            ).contains(m) || self.pawn_part(self.checkmask(), false, true).contains(m)),
            self.pawn_part(self.checkmask(), true, false).contains(m) ==> !self.noisy(m),
            self.pawn_part(self.checkmask(), false, true).contains(m) ==> self.noisy(m),
    {
        let us = self.color;
        let mask = self.checkmask();
        let last = Board::last_rank(us);
        let east = Board::forward_east(us);
        let west = Board::forward_west(us);
        let none = Seq::<Move>::empty();
        let promotions = self.promotion_part(mask);
        let pushes = self.push_part(mask);
        let captures = self.capture_part(mask);
        lemma_concat_has(promotions + pushes, captures, m);
        lemma_concat_has(promotions, pushes, m);
        lemma_concat_has(none + pushes, none, m);
        lemma_concat_has(none, pushes, m);
        lemma_concat_has(promotions + none, captures, m);
        lemma_concat_has(promotions, none, m);
        if pushes.contains(m) {
            let single = self.single_pushes() & mask & !last;
            let double = self.double_pushes() & mask;
            let a = each(single, step_moves(span(forward(us), false)), 64);
            let b = each(double, step_moves(span(forward(us), true)), 64);
            lemma_concat_has(a, b, m);
            if a.contains(m) {
                lemma_step_to(single, span(forward(us), false), m);
            } else {
                lemma_step_to(double, span(forward(us), true), m);
            }
            self.lemma_cell(m.to_spec().idx());
        }
        if promotions.contains(m) {
            let a = each(
                self.single_pushes() & mask & last,
                promotion_moves(span(forward(us), false)),
                64,
            );
            let b = each(
                self.pawn_captures(east, mask) & last,
                promotion_moves(span(east, false)),
                64,
            );
            let c = each(
                self.pawn_captures(west, mask) & last,
                promotion_moves(span(west, false)),
                64,
            );
            lemma_concat_has(a + b, c, m);
            lemma_concat_has(a, b, m);
            if a.contains(m) {
                lemma_promotion_kind(
                    self.single_pushes() & mask & last,
                    span(forward(us), false),
                    m,
                );
            } else if b.contains(m) {
                lemma_promotion_kind(self.pawn_captures(east, mask) & last, span(east, false), m);
            } else {
                lemma_promotion_kind(self.pawn_captures(west, mask) & last, span(west, false), m);
            }
        }
        if captures.contains(m) {
            let a = each(
                self.pawn_captures(east, mask) & !last,
                step_moves(span(east, false)),
                64,
            );
            let b = each(
                self.pawn_captures(west, mask) & !last,
                step_moves(span(west, false)),
                64,
            );
            lemma_concat_has(a + b, self.passing_part(), m);
            lemma_concat_has(a, b, m);
            if a.contains(m) {
                lemma_step_to(self.pawn_captures(east, mask) & !last, span(east, false), m);
                self.lemma_cell(m.to_spec().idx());
            } else if b.contains(m) {
                lemma_step_to(self.pawn_captures(west, mask) & !last, span(west, false), m);
                self.lemma_cell(m.to_spec().idx());
            } else {
                let target = self.state.enpassant.unwrap();
                lemma_passing_kind(self.passing_sources(target), target.idx(), m);
            }
        }
    }

    /// The moves of one knight or slider are those onto an empty square,
    /// which are not noisy, and those onto a piece of the other side, which
    /// are. The squares that the piece may go to are, in each category, the
    /// squares of `base` that the category and the check mask admit.
    proof fn lemma_fan_split(
        &self,
        from: int,
        base: u64,
        all: u64,
        quiet: u64,
        noisy: u64,
        m: Move,
    )
        requires
            self.wf(),
            forall|t: int|
                0 <= t < 64 ==> #[trigger] bit(all, t) == (bit(base, t) && bit(
                    self.movable(true, true) & self.checkmask(),
                    t,
                )),
            forall|t: int|
                0 <= t < 64 ==> #[trigger] bit(quiet, t) == (bit(base, t) && bit(
                    self.movable(true, false) & self.checkmask(),
                    t,
                )),
            forall|t: int|
                0 <= t < 64 ==> #[trigger] bit(noisy, t) == (bit(base, t) && bit(
                    self.movable(false, true) & self.checkmask(),
                    t,
                )),
        ensures
            normal_moves(from, all).contains(m) == (normal_moves(from, quiet).contains(m)
                || normal_moves(from, noisy).contains(m)),
            normal_moves(from, quiet).contains(m) ==> !self.noisy(m),
            normal_moves(from, noisy).contains(m) ==> self.noisy(m),
    {
        assert forall|t: int| 0 <= t < 64 implies #[trigger] bit(all, t) == (bit(quiet, t) || bit(
            noisy,
            t,
        )) by {
            self.lemma_movable_split(t);
        }
        lemma_normal_split(from, all, quiet, noisy, m);
        if normal_moves(from, quiet).contains(m) {
            lemma_normal_to(from, quiet, m);
            self.lemma_movable_split(m.to_spec().idx());
        }
        if normal_moves(from, noisy).contains(m) {
            lemma_normal_to(from, noisy, m);
            self.lemma_movable_split(m.to_spec().idx());
        }
    }

    /// What holds of the moves of each piece of a set holds of the moves
    /// of all of them: they are the quiet ones, which are not noisy, and
    /// the noisy ones, which are.
    proof fn lemma_fans_split(
        &self,
        bits: u64,
        all: spec_fn(int) -> Seq<Move>,
        quiet: spec_fn(int) -> Seq<Move>,
        noisy: spec_fn(int) -> Seq<Move>,
        m: Move,
    )
        requires
            forall|i: int|
                0 <= i < 64 ==> {
                    &&& (#[trigger] all(i)).contains(m) == (quiet(i).contains(m) || noisy(
                        i,
                    ).contains(m))
                    &&& quiet(i).contains(m) ==> !self.noisy(m)
                    &&& noisy(i).contains(m) ==> self.noisy(m)
                },
        ensures
            each(bits, all, 64).contains(m) == (each(bits, quiet, 64).contains(m) || each(
                bits,
                noisy,
                64,
            ).contains(m)),
            each(bits, quiet, 64).contains(m) ==> !self.noisy(m),
            each(bits, noisy, 64).contains(m) ==> self.noisy(m),
    {
        lemma_each_split(bits, all, quiet, noisy, m);
        if each(bits, quiet, 64).contains(m) {
            lemma_each_has(bits, quiet, 64, m);
            let i = choose|i: int| 0 <= i < 64 && bit(bits, i) && (#[trigger] quiet(i)).contains(m);
            assert(all(i).contains(m));
        }
        if each(bits, noisy, 64).contains(m) {
            lemma_each_has(bits, noisy, 64, m);
            let i = choose|i: int| 0 <= i < 64 && bit(bits, i) && (#[trigger] noisy(i)).contains(m);
            assert(all(i).contains(m));
        }
    }

    /// The targets of a slider in the three categories.
    proof fn lemma_slider_split(&self, from: int, reach: u64, m: Move)
        requires
            self.wf(),
        ensures
            ({
                let mask = self.checkmask();
                let all = Board::slider_targets(
                    self.state,
                    self.color,
                    from,
                    reach,
                    self.movable(true, true) & mask,
                );
                let quiet = Board::slider_targets(
                    self.state,
                    self.color,
                    from,
                    reach,
                    self.movable(true, false) & mask,
                );
                let noisy = Board::slider_targets(
                    self.state,
                    self.color,
                    from,
                    reach,
                    self.movable(false, true) & mask,
                );
                &&& normal_moves(from, all).contains(m) == (normal_moves(from, quiet).contains(m)
                    || normal_moves(from, noisy).contains(m))
                &&& normal_moves(from, quiet).contains(m) ==> !self.noisy(m)
                &&& normal_moves(from, noisy).contains(m) ==> self.noisy(m)
            }),
    {
        let mask = self.checkmask();
        let all = Board::slider_targets(
            self.state,
            self.color,
            from,
            reach,
            self.movable(true, true) & mask,
        );
        let quiet = Board::slider_targets(
            self.state,
            self.color,
            from,
            reach,
            self.movable(true, false) & mask,
        );
        let noisy = Board::slider_targets(
            self.state,
            self.color,
            from,
            reach,
            self.movable(false, true) & mask,
        );
        let base = if bit(self.state.blockers[self.color.idx()].data, from) {
            reach & crate::tables::line_bits(from, self.state.king_at(self.color))
        } else {
            reach
        };
        self.lemma_fan_split(from, base, all, quiet, noisy, m);
    }

    /// The moves of the knights and sliders are those onto an empty square,
    /// which are not noisy, and those onto a piece of the other side, which
    /// are.
    proof fn lemma_piece_split(&self, m: Move)
        requires
            self.wf(),
        ensures
            ({
                let mask = self.checkmask();
                let all = self.piece_part(self.movable(true, true) & mask);
                let quiet = self.piece_part(self.movable(true, false) & mask);
                let noisy = self.piece_part(self.movable(false, true) & mask);
                &&& all.contains(m) == (quiet.contains(m) || noisy.contains(m))
                &&& quiet.contains(m) ==> !self.noisy(m)
                &&& noisy.contains(m) ==> self.noisy(m)
            }),
    {
        let mask = self.checkmask();
        let ma = self.movable(true, true) & mask;
        let mq = self.movable(true, false) & mask;
        let mn = self.movable(false, true) & mask;
        let own = self.state.colors[self.color.idx()].data;
        let occupied = self.state.occupied_bits();
        let knights = self.state.pieces[1].data & own & !self.state.blockers[self.color.idx()].data;
        let diagonal = self.state.diagonal_bits() & own;
        let straight = self.state.straight_bits() & own;
        assert forall|i: int| 0 <= i < 64 implies {
            &&& (#[trigger] Board::knight_fan(ma)(i)).contains(m) == (Board::knight_fan(mq)(
                i,
            ).contains(m) || Board::knight_fan(mn)(i).contains(m))
            &&& Board::knight_fan(mq)(i).contains(m) ==> !self.noisy(m)
            &&& Board::knight_fan(mn)(i).contains(m) ==> self.noisy(m)
        } by {
            self.lemma_fan_split(
                i,
                knight_mask(i),
                knight_mask(i) & ma,
                knight_mask(i) & mq,
                knight_mask(i) & mn,
                m,
            );
        }
        self.lemma_fans_split(
            knights,
            Board::knight_fan(ma),
            Board::knight_fan(mq),
            Board::knight_fan(mn),
            m,
        );
        let da = Board::diagonal_fan(self.state, self.color, ma);
        let dq = Board::diagonal_fan(self.state, self.color, mq);
        let dn = Board::diagonal_fan(self.state, self.color, mn);
        assert forall|i: int| 0 <= i < 64 implies {
            &&& (#[trigger] da(i)).contains(m) == (dq(i).contains(m) || dn(i).contains(m))
            &&& dq(i).contains(m) ==> !self.noisy(m)
            &&& dn(i).contains(m) ==> self.noisy(m)
        } by {
            self.lemma_slider_split(i, bishop_reach(i, occupied), m);
        }
        self.lemma_fans_split(diagonal, da, dq, dn, m);
        let sa = Board::straight_fan(self.state, self.color, ma);
        let sq = Board::straight_fan(self.state, self.color, mq);
        let sn = Board::straight_fan(self.state, self.color, mn);
        assert forall|i: int| 0 <= i < 64 implies {
            &&& (#[trigger] sa(i)).contains(m) == (sq(i).contains(m) || sn(i).contains(m))
            &&& sq(i).contains(m) ==> !self.noisy(m)
            &&& sn(i).contains(m) ==> self.noisy(m)
        } by {
            self.lemma_slider_split(i, rook_reach(i, occupied), m);
        }
        self.lemma_fans_split(straight, sa, sq, sn, m);
        let ka = each(knights, Board::knight_fan(ma), 64);
        let kq = each(knights, Board::knight_fan(mq), 64);
        let kn = each(knights, Board::knight_fan(mn), 64);
        lemma_concat_has(ka + each(diagonal, da, 64), each(straight, sa, 64), m);
        lemma_concat_has(ka, each(diagonal, da, 64), m);
        lemma_concat_has(kq + each(diagonal, dq, 64), each(straight, sq, 64), m);
        lemma_concat_has(kq, each(diagonal, dq, 64), m);
        lemma_concat_has(kn + each(diagonal, dn, 64), each(straight, sn, 64), m);
        lemma_concat_has(kn, each(diagonal, dn, 64), m);
    }

    /// The moves that are found are parted into the quiet and the noisy
    /// ones: a move is among the quiet moves exactly if it is among all
    /// moves and neither takes a piece nor promotes, and among the noisy
    /// moves exactly if it is among all moves and takes a piece or promotes.
    /// So no move is in both lists, and the two together hold the moves of
    /// the full list and no others.
    pub proof fn lemma_generated_split(&self, m: Move)
        requires
            self.wf(),
        ensures
            self.generated(true, false).contains(m) == (self.generated(true, true).contains(m)
                && !self.noisy(m)),
            self.generated(false, true).contains(m) == (self.generated(true, true).contains(m)
                && self.noisy(m)),
    {
        let mask = self.checkmask();
        let ka = self.king_part(self.movable(true, true));
        let kq = self.king_part(self.movable(true, false));
        let kn = self.king_part(self.movable(false, true));
        self.lemma_king_split(m);
        if !many(self.state.checkers.data) {
            let none = Seq::<Move>::empty();
            let castles = if self.state.checkers.data == 0 && self.state.has_king(self.color) {
                self.castling_part()
            } else {
                none
            };
            if castles.contains(m) {
                self.lemma_castling_part_fits(m);
            }
            let wa = self.pawn_part(mask, true, true);
            let wq = self.pawn_part(mask, true, false);
            let wn = self.pawn_part(mask, false, true);
            self.lemma_pawn_split(m);
            let pa = self.piece_part(self.movable(true, true) & mask);
            let pq = self.piece_part(self.movable(true, false) & mask);
            let pn = self.piece_part(self.movable(false, true) & mask);
            self.lemma_piece_split(m);
            lemma_concat_has(ka + castles + wa, pa, m);
            lemma_concat_has(ka + castles, wa, m);
            lemma_concat_has(ka, castles, m);
            lemma_concat_has(kq + castles + wq, pq, m);
            lemma_concat_has(kq + castles, wq, m);
            lemma_concat_has(kq, castles, m);
            lemma_concat_has(kn + none + wn, pn, m);
            lemma_concat_has(kn + none, wn, m);
            lemma_concat_has(kn, none, m);
        }
    }
}

} // verus!
