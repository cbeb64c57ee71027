use vstd::prelude::*;
use crate::attack::{bishop_reach, knight_mask, rook_reach};
use crate::bitboard::many;
use crate::bits::{bit, lemma_bit_and, lemma_bit_or, lemma_bit_single, lemma_bit_zero, single};
use crate::board::Board;
use crate::castle::CastleKind;
use crate::fits::{lemma_concat_has, lemma_each_has, lemma_move_of, move_of};
use crate::legal::forward;
use crate::magic::{ray, rays, slider, step_ok};
use crate::movegen::{
    each, from_moves, normal_moves, passing_moves, promotion_moves, promotions, span,
    step_moves,
};
use crate::moves::{lemma_move_parts, Move, MoveKind};
use crate::piece::PieceKind;
use crate::square::{lemma_square_of_idx, Square};

verus! {

/// A sequence made of two that have no move twice and no move in common has
/// no move twice.
pub proof fn lemma_concat_distinct(a: Seq<Move>, b: Seq<Move>)
    requires
        a.no_duplicates(),
        b.no_duplicates(),
        forall|m: Move| !(a.contains(m) && b.contains(m)),
    ensures
        (a + b).no_duplicates(),
{
    assert forall|i: int, j: int| 0 <= i < (a + b).len() && 0 <= j < (a + b).len() && i
        != j implies (a + b)[i] != (a + b)[j] by {
        if i < a.len() && j >= a.len() {
            assert(a.contains(a[i]));
            assert(b.contains(b[j - a.len()]));
        } else if j < a.len() && i >= a.len() {
            assert(a.contains(a[j]));
            assert(b.contains(b[i - a.len()]));
        }
    }
}

/// If the moves that are given for a square can be told by a mark that each
/// of them bears, and come once, then the moves given for the squares of a
/// set come once.
pub proof fn lemma_each_distinct(
    bits: u64,
    per: spec_fn(int) -> Seq<Move>,
    mark: spec_fn(Move) -> int,
    n: int,
)
    requires
        0 <= n <= 64,
        forall|i: int, m: Move|
            0 <= i < 64 && bit(bits, i) && (#[trigger] per(i)).contains(m) ==> #[trigger] mark(m)
                == i,
        forall|i: int| 0 <= i < 64 && bit(bits, i) ==> (#[trigger] per(i)).no_duplicates(),
    ensures
        each(bits, per, n).no_duplicates(),
    decreases n,
{
    if n > 0 {
        lemma_each_distinct(bits, per, mark, n - 1);
        let before = each(bits, per, n - 1);
        let last = if bit(bits, n - 1) {
            per(n - 1)
        } else {
            Seq::empty()
        };
        assert forall|m: Move| !(before.contains(m) && last.contains(m)) by {
            if before.contains(m) && last.contains(m) {
                lemma_each_has(bits, per, n - 1, m);
                let i = choose|i: int|
                    0 <= i < n - 1 && bit(bits, i) && (#[trigger] per(i)).contains(m);
                assert(mark(m) == i);
                assert(per(n - 1).contains(m));
                assert(mark(m) == n - 1);
            }
        }
        lemma_concat_distinct(before, last);
    }
}

/// The number of the origin of a move.
pub open spec fn from_mark() -> spec_fn(Move) -> int {
    |m: Move| m.from_spec().idx()
}

/// The number of the destination of a move.
pub open spec fn to_mark() -> spec_fn(Move) -> int {
    |m: Move| m.to_spec().idx()
}

/// The normal moves from a square to the squares of a set come once.
pub proof fn lemma_normal_distinct(from: int, targets: u64)
    requires
        0 <= from < 64,
    ensures
        normal_moves(from, targets).no_duplicates(),
{
    let per = from_moves(from);
    let mark = to_mark();
    assert forall|i: int, m: Move|
        0 <= i < 64 && bit(targets, i) && (#[trigger] per(i)).contains(m) implies #[trigger] mark(
        m,
    ) == i by {
        assert(per(i)[0] == m);
        lemma_move_of(from, i, MoveKind::Normal);
    }
    lemma_each_distinct(targets, per, mark, 64);
}

/// A square that a slider attacks lies, seen from the slider, in the
/// direction of one of its walks.
pub proof fn lemma_ray_direction(r: int, f: int, dr: int, df: int, occ: u64, i: int)
    requires
        0 <= i < 64,
        bit(ray(r, f, dr, df, occ), i),
    ensures
        dr == 0 ==> i / 8 == r,
        dr == 1 ==> i / 8 > r,
        dr == -1 ==> i / 8 < r,
        df == 0 ==> i % 8 == f,
        df == 1 ==> i % 8 > f,
        df == -1 ==> i % 8 < f,
        step_ok(dr, df),
    decreases crate::magic::room(r, f, dr, df),
{
    let r1 = r + dr;
    let f1 = f + df;
    if step_ok(dr, df) && 0 <= r < 8 && 0 <= f < 8 && 0 <= r1 < 8 && 0 <= f1 < 8 {
        let b = single(r1 * 8 + f1);
        lemma_bit_single(r1 * 8 + f1, i);
        if occ & b != 0 {
        } else {
            lemma_bit_or(b, ray(r1, f1, dr, df, occ), i);
            if bit(ray(r1, f1, dr, df, occ), i) {
                lemma_ray_direction(r1, f1, dr, df, occ, i);
            }
        }
    } else {
        lemma_bit_zero(i);
    }
}

/// No square is attacked by a bishop and by a rook from one square.
pub proof fn lemma_reach_apart(a: int, occ: u64, i: int)
    requires
        0 <= a < 64,
        0 <= i < 64,
    ensures
        !(bit(bishop_reach(a, occ), i) && bit(rook_reach(a, occ), i)),
{
    reveal_with_fuel(rays, 5);
    let r = a / 8;
    let f = a % 8;
    let b0 = ray(r, f, -1, -1, occ);
    let b1 = ray(r, f, -1, 1, occ);
    let b2 = ray(r, f, 1, -1, occ);
    let b3 = ray(r, f, 1, 1, occ);
    let r0 = ray(r, f, -1, 0, occ);
    let r1 = ray(r, f, 0, -1, occ);
    let r2 = ray(r, f, 0, 1, occ);
    let r3 = ray(r, f, 1, 0, occ);
    assert(bishop_reach(a, occ) == (((0 | b0) | b1) | b2) | b3);
    assert(rook_reach(a, occ) == (((0 | r0) | r1) | r2) | r3);
    lemma_bit_zero(i);
    lemma_bit_or(0, b0, i);
    lemma_bit_or(0 | b0, b1, i);
    lemma_bit_or((0 | b0) | b1, b2, i);
    lemma_bit_or(((0 | b0) | b1) | b2, b3, i);
    lemma_bit_or(0, r0, i);
    lemma_bit_or(0 | r0, r1, i);
    lemma_bit_or((0 | r0) | r1, r2, i);
    lemma_bit_or(((0 | r0) | r1) | r2, r3, i);
    if bit(b0, i) {
        lemma_ray_direction(r, f, -1, -1, occ, i);
    }
    if bit(b1, i) {
        lemma_ray_direction(r, f, -1, 1, occ, i);
    }
    if bit(b2, i) {
        lemma_ray_direction(r, f, 1, -1, occ, i);
    }
    if bit(b3, i) {
        lemma_ray_direction(r, f, 1, 1, occ, i);
    }
    if bit(r0, i) {
        lemma_ray_direction(r, f, -1, 0, occ, i);
    }
    if bit(r1, i) {
        lemma_ray_direction(r, f, 0, -1, occ, i);
    }
    if bit(r2, i) {
        lemma_ray_direction(r, f, 0, 1, occ, i);
    }
    if bit(r3, i) {
        lemma_ray_direction(r, f, 1, 0, occ, i);
    }
}

/// Whether every move of a sequence belongs to a part of the found moves
/// whose number lies between `low` and `high`.
pub open spec fn classed(board: &Board, moves: Seq<Move>, low: int, high: int) -> bool {
    forall|m: Move| moves.contains(m) ==> low <= #[trigger] board.part_of(m) <= high
}

/// Two sequences without a move twice, of which the second holds moves of
/// later parts only, make a sequence without a move twice.
pub proof fn lemma_join(
    board: &Board,
    a: Seq<Move>,
    b: Seq<Move>,
    low: int,
    middle: int,
    high: int,
)
    requires
        low <= middle + 1,
        middle <= high,
        a.no_duplicates(),
        b.no_duplicates(),
        classed(board, a, low, middle),
        classed(board, b, middle + 1, high),
    ensures
        (a + b).no_duplicates(),
        classed(board, a + b, low, high),
{
    assert forall|m: Move| !(a.contains(m) && b.contains(m)) by {
        if a.contains(m) && b.contains(m) {
            assert(board.part_of(m) <= middle);
            assert(board.part_of(m) >= middle + 1);
        }
    }
    lemma_concat_distinct(a, b);
    assert forall|m: Move| (a + b).contains(m) implies low <= #[trigger] board.part_of(m)
        <= high by {
        lemma_concat_has(a, b, m);
    }
}

impl<'a> Board<'a> {
    /// The part of the found moves that a move belongs to, told from its
    /// kind, the piece that makes it and the step that it takes: 0 for the
    /// king's steps, 1 for castling, 2 to 4 for promotions by a push and by a
    /// capture to either side, 5 and 6 for single and double pushes, 7 and 8
    /// for captures to either side, 9 for captures in passing, 10 for the
    /// knights' moves, 11 for moves along diagonals, and 12 for moves
    /// along ranks and files.
    pub open spec fn part_of(&self, m: Move) -> int {
        let from = m.from_spec().idx();
        let to = m.to_spec().idx();
        let us = self.color;
        let step = to - from;
        match m.kind_spec() {
            MoveKind::Castling => 1,
            MoveKind::Enpassant => 9,
            MoveKind::Normal => match self.state.mailbox[from] {
                Some(piece) => match piece.kind_spec() {
                    PieceKind::King => 0,
                    PieceKind::Pawn => if step == span(forward(us), false) {
                        5
                    } else if step == span(forward(us), true) {
                        6
                    } else if step == span(Board::forward_east(us), false) {
                        7
                    } else {
                        8
                    },
                    PieceKind::Knight => 10,
                    PieceKind::Bishop => 11,
                    PieceKind::Rook => 12,
                    PieceKind::Queen => if bit(
                        bishop_reach(from, self.state.occupied_bits()),
                        to,
                    ) {
                        11
                    } else {
                        12
                    },
                },
                None => -1,
            },
            _ => if step == span(forward(us), false) {
                2
            } else if step == span(Board::forward_east(us), false) {
                3
            } else {
                4
            },
        }
    }

    /// The king's steps come once and are of part 0.
    proof fn lemma_king_part_distinct(&self, movable: u64)
        requires
            self.wf(),
        ensures
            self.king_part(movable).no_duplicates(),
            classed(self, self.king_part(movable), 0, 0),
    {
        if self.state.has_king(self.color) {
            self.lemma_own_king();
            let king = self.state.king_at(self.color);
            let targets = crate::attack::king_mask(king) & movable;
            lemma_normal_distinct(king, targets);
            assert forall|m: Move| self.king_part(movable).contains(m) implies 0
                <= #[trigger] self.part_of(m) <= 0 by {
                crate::fits::lemma_normal_has(king, targets, m);
                let to = choose|to: int|
                    0 <= to < 64 && bit(targets, to) && m == #[trigger] move_of(
                        king,
                        to,
                        MoveKind::Normal,
                    );
                lemma_move_of(king, to, MoveKind::Normal);
            }
        }
    }

    /// The castling moves come once and are of part 1.
    proof fn lemma_castling_part_distinct(&self)
        requires
            self.wf(),
            self.state.has_king(self.color),
        ensures
            self.castling_part().no_duplicates(),
            classed(self, self.castling_part(), 1, 1),
    {
        let short = CastleKind::of(self.color, true);
        let long = CastleKind::of(self.color, false);
        let a = self.castling_move(short);
        let b = self.castling_move(long);
        let king = Square::of(self.state.king_at(self.color));
        lemma_move_parts(king, short.king_to_spec(), MoveKind::Castling);
        lemma_move_parts(king, long.king_to_spec(), MoveKind::Castling);
        assert forall|m: Move| !(a.contains(m) && b.contains(m)) by {
            if a.contains(m) && b.contains(m) {
                assert(a[0] == m);
                assert(b[0] == m);
            }
        }
        lemma_concat_distinct(a, b);
        assert forall|m: Move| (a + b).contains(m) implies 1 <= #[trigger] self.part_of(m)
            <= 1 by {
            lemma_concat_has(a, b, m);
            if a.contains(m) {
                assert(a[0] == m);
            } else {
                assert(b[0] == m);
            }
        }
    }

    /// The moves of pawns to the squares of a set, by one step each, come
    /// once and are of one part.
    proof fn lemma_step_distinct(&self, targets: u64, delta: int, promote: bool, part: int)
        requires
            self.wf(),
            forall|t: int|
                0 <= t < 64 && #[trigger] bit(targets, t) ==> 0 <= t - delta < 64 && bit(
                    self.pawn_bits(),
                    t - delta,
                ),
            ({
                let us = self.color;
                let single = span(forward(us), false);
                let double = span(forward(us), true);
                let east = span(Board::forward_east(us), false);
                let west = span(Board::forward_west(us), false);
                if promote {
                    ||| delta == single && part == 2
                    ||| delta == east && part == 3
                    ||| delta == west && part == 4
                } else {
                    ||| delta == single && part == 5
                    ||| delta == double && part == 6
                    ||| delta == east && part == 7
                    ||| delta == west && part == 8
                }
            }),
        ensures
            each(
                targets,
                if promote {
                    promotion_moves(delta)
                } else {
                    step_moves(delta)
                },
                64,
            ).no_duplicates(),
            classed(
                self,
                each(
                    targets,
                    if promote {
                        promotion_moves(delta)
                    } else {
                        step_moves(delta)
                    },
                    64,
                ),
                part,
                part,
            ),
    {
        let per = if promote {
            promotion_moves(delta)
        } else {
            step_moves(delta)
        };
        let mark = to_mark();
        assert forall|i: int, m: Move|
            0 <= i < 64 && bit(targets, i) && (#[trigger] per(i)).contains(m)
                implies #[trigger] mark(m) == i && self.part_of(m) == part by {
            self.lemma_step_move(i, delta, promote, part, m);
        }
        assert forall|i: int| 0 <= i < 64 && bit(targets, i) implies (
        #[trigger] per(i)).no_duplicates() by {
            if promote {
                let f = i - delta;
                lemma_move_of(f, i, MoveKind::PromotionQueen);
                lemma_move_of(f, i, MoveKind::PromotionRook);
                lemma_move_of(f, i, MoveKind::PromotionBishop);
                lemma_move_of(f, i, MoveKind::PromotionKnight);
                assert(promotions(f, i).len() == 4);
            }
        }
        lemma_each_distinct(targets, per, mark, 64);
        assert forall|m: Move| each(targets, per, 64).contains(m) implies part
            <= #[trigger] self.part_of(m) <= part by {
            lemma_each_has(targets, per, 64, m);
            let i = choose|i: int| 0 <= i < 64 && bit(targets, i) && (#[trigger] per(i)).contains(m);
            self.lemma_step_move(i, delta, promote, part, m);
        }
    }

    /// A move of a pawn to a square by a given step bears the number of the
    /// square as its destination and is of the part of the step.
    proof fn lemma_step_move(&self, t: int, delta: int, promote: bool, part: int, m: Move)
        requires
            self.wf(),
            0 <= t < 64,
            0 <= t - delta < 64,
            bit(self.pawn_bits(), t - delta),
            (if promote {
                promotion_moves(delta)
            } else {
                step_moves(delta)
            })(t).contains(m),
            ({
                let us = self.color;
                let single = span(forward(us), false);
                let double = span(forward(us), true);
                let east = span(Board::forward_east(us), false);
                let west = span(Board::forward_west(us), false);
                if promote {
                    ||| delta == single && part == 2
                    ||| delta == east && part == 3
                    ||| delta == west && part == 4
                } else {
                    ||| delta == single && part == 5
                    ||| delta == double && part == 6
                    ||| delta == east && part == 7
                    ||| delta == west && part == 8
                }
            }),
        ensures
            m.to_spec().idx() == t,
            self.part_of(m) == part,
    {
        let f = t - delta;
        self.lemma_cell(f);
        lemma_move_of(f, t, MoveKind::Normal);
        lemma_move_of(f, t, MoveKind::PromotionQueen);
        lemma_move_of(f, t, MoveKind::PromotionRook);
        lemma_move_of(f, t, MoveKind::PromotionBishop);
        lemma_move_of(f, t, MoveKind::PromotionKnight);
        if promote {
            let four = promotions(f, t);
            let i = choose|i: int| 0 <= i < four.len() && four[i] == m;
            assert(four.len() == 4);
            assert(m == four[0] || m == four[1] || m == four[2] || m == four[3]);
        } else {
            assert(step_moves(delta)(t)[0] == m);
        }
    }

    /// The captures in passing come once and are of part 9.
    proof fn lemma_passing_distinct(&self)
        requires
            self.wf(),
        ensures
            self.passing_part().no_duplicates(),
            classed(self, self.passing_part(), 9, 9),
    {
        match self.state.enpassant {
            Some(target) => {
                let sources = self.passing_sources(target);
                let per = passing_moves(target.idx());
                let mark = from_mark();
                lemma_square_of_idx(target);
                assert forall|i: int, m: Move|
                    0 <= i < 64 && bit(sources, i) && (#[trigger] per(i)).contains(m)
                        implies #[trigger] mark(m) == i && self.part_of(m) == 9 by {
                    assert(per(i)[0] == m);
                    lemma_move_of(i, target.idx(), MoveKind::Enpassant);
                }
                lemma_each_distinct(sources, per, mark, 64);
                assert forall|m: Move| self.passing_part().contains(m) implies 9
                    <= #[trigger] self.part_of(m) <= 9 by {
                    lemma_each_has(sources, per, 64, m);
                    let i = choose|i: int|
                        0 <= i < 64 && bit(sources, i) && (#[trigger] per(i)).contains(m);
                    assert(per(i)[0] == m);
                    lemma_move_of(i, target.idx(), MoveKind::Enpassant);
                }
            },
            None => {},
        }
    }

    /// The moves of pieces of one sort, found square by square as normal
    /// moves to the squares of a set, come once and are of one part.
    proof fn lemma_fan_distinct(
        &self,
        pieces: u64,
        fan: spec_fn(int) -> Seq<Move>,
        targets: spec_fn(int) -> u64,
        part: int,
    )
        requires
            self.wf(),
            forall|f: int| 0 <= f < 64 ==> #[trigger] fan(f) == normal_moves(f, targets(f)),
            forall|f: int, t: int|
                0 <= f < 64 && 0 <= t < 64 && bit(pieces, f) && bit(#[trigger] targets(f), t)
                    ==> #[trigger] self.part_of(move_of(f, t, MoveKind::Normal)) == part,
        ensures
            each(pieces, fan, 64).no_duplicates(),
            classed(self, each(pieces, fan, 64), part, part),
    {
        let mark = from_mark();
        assert forall|i: int, m: Move|
            0 <= i < 64 && bit(pieces, i) && (#[trigger] fan(i)).contains(m)
                implies #[trigger] mark(m) == i by {
            crate::fits::lemma_normal_has(i, targets(i), m);
            let t = choose|to: int|
                0 <= to < 64 && bit(targets(i), to) && m == #[trigger] move_of(
                    i,
                    to,
                    MoveKind::Normal,
                );
            lemma_move_of(i, t, MoveKind::Normal);
        }
        assert forall|i: int| 0 <= i < 64 && bit(pieces, i) implies (
        #[trigger] fan(i)).no_duplicates() by {
            lemma_normal_distinct(i, targets(i));
        }
        lemma_each_distinct(pieces, fan, mark, 64);
        assert forall|m: Move| each(pieces, fan, 64).contains(m) implies part
            <= #[trigger] self.part_of(m) <= part by {
            lemma_each_has(pieces, fan, 64, m);
            let i = choose|i: int| 0 <= i < 64 && bit(pieces, i) && (#[trigger] fan(i)).contains(m);
            crate::fits::lemma_normal_has(i, targets(i), m);
            let t = choose|to: int|
                0 <= to < 64 && bit(targets(i), to) && m == #[trigger] move_of(
                    i,
                    to,
                    MoveKind::Normal,
                );
            assert(self.part_of(move_of(i, t, MoveKind::Normal)) == part);
        }
    }
}

impl<'a> Board<'a> {
    /// The moves of the pawns come once and are of parts 2 to 9.
    proof fn lemma_pawn_part_distinct(&self, quiet: bool, noisy: bool)
        requires
            self.wf(),
        ensures
            self.pawn_part(self.checkmask(), quiet, noisy).no_duplicates(),
            classed(self, self.pawn_part(self.checkmask(), quiet, noisy), 2, 9),
    {
        let us = self.color;
        let mask = self.checkmask();
        let last = Board::last_rank(us);
        let north = forward(us);
        let east = Board::forward_east(us);
        let west = Board::forward_west(us);
        let pushes = self.single_pushes() & mask;
        let doubles = self.double_pushes() & mask;
        let easts = self.pawn_captures(east, mask);
        let wests = self.pawn_captures(west, mask);
        assert forall|t: int| 0 <= t < 64 && #[trigger] bit(self.single_pushes(), t) implies 0
            <= t - span(north, false) < 64 && bit(self.pawn_bits(), t - span(north, false)) by {
            self.lemma_single_push(t);
        }
        assert forall|t: int| 0 <= t < 64 && #[trigger] bit(self.double_pushes(), t) implies 0
            <= t - span(north, true) < 64 && bit(self.pawn_bits(), t - span(north, true)) by {
            self.lemma_double_push(t);
        }
        assert forall|t: int|
            0 <= t < 64 && #[trigger] bit(
                crate::bitboard::shifted(self.pawn_bits(), east) & self.enemy_bits(),
                t,
            ) implies 0 <= t - span(east, false) < 64 && bit(
            self.pawn_bits(),
            t - span(east, false),
        ) by {
            self.lemma_pawn_capture(east, t);
        }
        assert forall|t: int|
            0 <= t < 64 && #[trigger] bit(
                crate::bitboard::shifted(self.pawn_bits(), west) & self.enemy_bits(),
                t,
            ) implies 0 <= t - span(west, false) < 64 && bit(
            self.pawn_bits(),
            t - span(west, false),
        ) by {
            self.lemma_pawn_capture(west, t);
        }
        // Promotions.
        let p1 = each(pushes & last, promotion_moves(span(north, false)), 64);
        let p2 = each(easts & last, promotion_moves(span(east, false)), 64);
        let p3 = each(wests & last, promotion_moves(span(west, false)), 64);
        self.lemma_subset_steps(self.single_pushes(), mask, last, span(north, false));
        self.lemma_step_distinct(pushes & last, span(north, false), true, 2);
        self.lemma_subset_steps(
            crate::bitboard::shifted(self.pawn_bits(), east) & self.enemy_bits(),
            mask,
            last,
            span(east, false),
        );
        self.lemma_step_distinct(easts & last, span(east, false), true, 3);
        self.lemma_subset_steps(
            crate::bitboard::shifted(self.pawn_bits(), west) & self.enemy_bits(),
            mask,
            last,
            span(west, false),
        );
        self.lemma_step_distinct(wests & last, span(west, false), true, 4);
        lemma_join(self, p1, p2, 2, 2, 3);
        lemma_join(self, p1 + p2, p3, 2, 3, 4);
        // Pushes.
        let q1 = each(pushes & !last, step_moves(span(north, false)), 64);
        let q2 = each(doubles, step_moves(span(north, true)), 64);
        self.lemma_subset_steps(self.single_pushes(), mask, !last, span(north, false));
        self.lemma_step_distinct(pushes & !last, span(north, false), false, 5);
        self.lemma_subset_steps(
            self.double_pushes(),
            mask,
            0xffff_ffff_ffff_ffff,
            span(north, true),
        );
        assert(doubles & 0xffff_ffff_ffff_ffff == doubles) by (bit_vector);
        self.lemma_step_distinct(doubles, span(north, true), false, 6);
        lemma_join(self, q1, q2, 5, 5, 6);
        // Captures.
        let c1 = each(easts & !last, step_moves(span(east, false)), 64);
        let c2 = each(wests & !last, step_moves(span(west, false)), 64);
        self.lemma_subset_steps(
            crate::bitboard::shifted(self.pawn_bits(), east) & self.enemy_bits(),
            mask,
            !last,
            span(east, false),
        );
        self.lemma_step_distinct(easts & !last, span(east, false), false, 7);
        self.lemma_subset_steps(
            crate::bitboard::shifted(self.pawn_bits(), west) & self.enemy_bits(),
            mask,
            !last,
            span(west, false),
        );
        self.lemma_step_distinct(wests & !last, span(west, false), false, 8);
        self.lemma_passing_distinct();
        lemma_join(self, c1, c2, 7, 7, 8);
        lemma_join(self, c1 + c2, self.passing_part(), 7, 8, 9);
        // All of them.
        let first = if noisy {
            self.promotion_part(mask)
        } else {
            Seq::empty()
        };
        let second = if quiet {
            self.push_part(mask)
        } else {
            Seq::empty()
        };
        let third = if noisy {
            self.capture_part(mask)
        } else {
            Seq::empty()
        };
        lemma_join(self, first, second, 2, 4, 6);
        lemma_join(self, first + second, third, 2, 6, 9);
    }

    /// What holds of the squares of a set holds of those that it shares
    /// with two others.
    proof fn lemma_subset_steps(&self, bits: u64, mask: u64, extra: u64, delta: int)
        requires
            forall|t: int|
                0 <= t < 64 && #[trigger] bit(bits, t) ==> 0 <= t - delta < 64 && bit(
                    self.pawn_bits(),
                    t - delta,
                ),
        ensures
            forall|t: int|
                0 <= t < 64 && #[trigger] bit(bits & mask & extra, t) ==> 0 <= t - delta < 64
                    && bit(self.pawn_bits(), t - delta),
    {
        assert forall|t: int| 0 <= t < 64 && #[trigger] bit(bits & mask & extra, t) implies 0 <= t
            - delta < 64 && bit(self.pawn_bits(), t - delta) by {
            lemma_bit_and(bits & mask, extra, t);
            lemma_bit_and(bits, mask, t);
        }
    }

    /// The squares that a knight on a given square may go to.
    pub open spec fn knight_targets(movable: u64) -> spec_fn(int) -> u64 {
        |from: int| knight_mask(from) & movable
    }

    /// The squares that a diagonal slider on a given square may go to.
    pub open spec fn diagonal_targets(&self, movable: u64) -> spec_fn(int) -> u64 {
        |from: int|
            Board::slider_targets(
                self.state,
                self.color,
                from,
                bishop_reach(from, self.state.occupied_bits()),
                movable,
            )
    }

    /// The squares that a straight slider on a given square may go to.
    pub open spec fn straight_targets(&self, movable: u64) -> spec_fn(int) -> u64 {
        |from: int|
            Board::slider_targets(
                self.state,
                self.color,
                from,
                rook_reach(from, self.state.occupied_bits()),
                movable,
            )
    }

    /// The moves of the knights and sliders come once and are of parts 10
    /// to 12.
    proof fn lemma_piece_part_distinct(&self, movable: u64)
        requires
            self.wf(),
        ensures
            self.piece_part(movable).no_duplicates(),
            classed(self, self.piece_part(movable), 10, 12),
    {
        let own = self.own_bits();
        let occ = self.state.occupied_bits();
        let blockers = self.state.blockers[self.color.idx()].data;
        let knights = self.state.pieces[1].data & own & !blockers;
        let diagonal = self.state.diagonal_bits() & own;
        let straight = self.state.straight_bits() & own;
        let king = self.state.king_at(self.color);
        assert forall|f: int, t: int|
            0 <= f < 64 && 0 <= t < 64 && bit(knights, f) && bit(
                #[trigger] Board::knight_targets(movable)(f),
                t,
            ) implies #[trigger] self.part_of(move_of(f, t, MoveKind::Normal)) == 10 by {
            lemma_bit_and(self.state.pieces[1].data & own, !blockers, f);
            lemma_bit_and(self.state.pieces[1].data, own, f);
            self.lemma_cell(f);
            lemma_move_of(f, t, MoveKind::Normal);
        }
        self.lemma_fan_distinct(
            knights,
            Board::knight_fan(movable),
            Board::knight_targets(movable),
            10,
        );
        assert forall|f: int, t: int|
            0 <= f < 64 && 0 <= t < 64 && bit(diagonal, f) && bit(
                #[trigger] self.diagonal_targets(movable)(f),
                t,
            ) implies #[trigger] self.part_of(move_of(f, t, MoveKind::Normal)) == 11 by {
            lemma_bit_and(self.state.diagonal_bits(), own, f);
            lemma_bit_or(self.state.pieces[2].data, self.state.pieces[4].data, f);
            self.lemma_cell(f);
            lemma_move_of(f, t, MoveKind::Normal);
            let reach = bishop_reach(f, occ);
            lemma_bit_and(reach & movable, crate::tables::line_bits(f, king), t);
            lemma_bit_and(reach, movable, t);
        }
        self.lemma_fan_distinct(
            diagonal,
            Board::diagonal_fan(self.state, self.color, movable),
            self.diagonal_targets(movable),
            11,
        );
        assert forall|f: int, t: int|
            0 <= f < 64 && 0 <= t < 64 && bit(straight, f) && bit(
                #[trigger] self.straight_targets(movable)(f),
                t,
            ) implies #[trigger] self.part_of(move_of(f, t, MoveKind::Normal)) == 12 by {
            lemma_bit_and(self.state.straight_bits(), own, f);
            lemma_bit_or(self.state.pieces[3].data, self.state.pieces[4].data, f);
            self.lemma_cell(f);
            lemma_move_of(f, t, MoveKind::Normal);
            let reach = rook_reach(f, occ);
            lemma_bit_and(reach & movable, crate::tables::line_bits(f, king), t);
            lemma_bit_and(reach, movable, t);
            lemma_reach_apart(f, occ, t);
        }
        self.lemma_fan_distinct(
            straight,
            Board::straight_fan(self.state, self.color, movable),
            self.straight_targets(movable),
            12,
        );
        let a = each(knights, Board::knight_fan(movable), 64);
        let b = each(diagonal, Board::diagonal_fan(self.state, self.color, movable), 64);
        let c = each(straight, Board::straight_fan(self.state, self.color, movable), 64);
        lemma_join(self, a, b, 10, 10, 11);
        lemma_join(self, a + b, c, 10, 11, 12);
    }

    /// No move is found twice for a sound position.
    pub proof fn lemma_generated_distinct(&self, quiet: bool, noisy: bool)
        requires
            self.wf(),
        ensures
            self.generated(quiet, noisy).no_duplicates(),
            crate::movegen::capped(self.generated(quiet, noisy)).no_duplicates(),
    {
        let movable = self.movable(quiet, noisy);
        self.lemma_king_part_distinct(movable);
        if many(self.state.checkers.data) {
        } else {
            let kings = self.king_part(movable);
            let castles = if quiet && self.state.checkers.data == 0 && self.state.has_king(
                self.color,
            ) {
                self.castling_part()
            } else {
                Seq::empty()
            };
            if quiet && self.state.checkers.data == 0 && self.state.has_king(self.color) {
                self.lemma_castling_part_distinct();
            }
            let pawns = self.pawn_part(self.checkmask(), quiet, noisy);
            let pieces = self.piece_part(movable & self.checkmask());
            self.lemma_pawn_part_distinct(quiet, noisy);
            self.lemma_piece_part_distinct(movable & self.checkmask());
            lemma_join(self, kings, castles, 0, 0, 1);
            lemma_join(self, kings + castles, pawns, 0, 1, 9);
            lemma_join(self, kings + castles + pawns, pieces, 0, 9, 12);
        }
        let all = self.generated(quiet, noisy);
        assert forall|i: int, j: int|
            0 <= i < crate::movegen::capped(all).len() && 0 <= j < crate::movegen::capped(
                all,
            ).len() && i != j implies crate::movegen::capped(all)[i] != crate::movegen::capped(
            all,
        )[j] by {
            assert(crate::movegen::capped(all)[i] == all[i]);
            assert(crate::movegen::capped(all)[j] == all[j]);
        }
    }
}

} // verus!
