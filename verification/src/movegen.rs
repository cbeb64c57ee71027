use vstd::prelude::*;
use crate::attack::{
    bishop_attacks, bishop_reach, king_attacks, king_mask, knight_attacks, knight_mask,
    pawn_attacks, pawn_mask, rook_attacks, rook_reach,
};
use crate::bitboard::{lemma_shifted_bits, many, shifted, Bitboard, RANK_1};
use crate::bits::{bit, lemma_bit_and, lemma_bit_zero, lemma_lowest, lowest};
use crate::board::{Board, State};
use crate::castle::CastleKind;
use crate::color::Color;
use crate::direction::Direction;
use crate::legal::{forward, push_rank};
use crate::movelist::{MoveList, MAX_MOVES};
use crate::moves::{Move, MoveKind};
use crate::piece::PieceKind;
use crate::rank::Rank;
use crate::square::{lemma_square_idx_of, lemma_square_of_idx, Square};
use crate::tables::{between_bits, line_bits};

verus! {

/// A sequence of moves cut down to what a list has room for.
pub open spec fn capped(moves: Seq<Move>) -> Seq<Move> {
    if moves.len() <= MAX_MOVES {
        moves
    } else {
        moves.take(MAX_MOVES as int)
    }
}

/// The moves that `per` gives for each square of `bits` below `n`, from the
/// lowest square to the highest.
pub open spec fn each(bits: u64, per: spec_fn(int) -> Seq<Move>, n: int) -> Seq<Move>
    decreases n,
{
    if n <= 0 {
        Seq::empty()
    } else {
        each(bits, per, n - 1) + (if bit(bits, n - 1) {
            per(n - 1)
        } else {
            Seq::empty()
        })
    }
}

/// The normal move from the square numbered `from` to a given square.
pub open spec fn from_moves(from: int) -> spec_fn(int) -> Seq<Move> {
    |to: int| seq![Move::of(Square::of(from), Square::of(to), MoveKind::Normal)]
}

/// The normal moves from the square numbered `from` to the squares of
/// `targets`, from the lowest to the highest.
pub open spec fn normal_moves(from: int, targets: u64) -> Seq<Move> {
    each(targets, from_moves(from), 64)
}

/// The four promotions from one square to another: to queen, rook, bishop
/// and knight.
pub open spec fn promotions(from: int, to: int) -> Seq<Move> {
    seq![
        Move::of(Square::of(from), Square::of(to), MoveKind::PromotionQueen),
        Move::of(Square::of(from), Square::of(to), MoveKind::PromotionRook),
        Move::of(Square::of(from), Square::of(to), MoveKind::PromotionBishop),
        Move::of(Square::of(from), Square::of(to), MoveKind::PromotionKnight),
    ]
}

/// The normal move to a given square from the square that lies `delta`
/// squares below it in number.
pub open spec fn step_moves(delta: int) -> spec_fn(int) -> Seq<Move> {
    |to: int| seq![Move::of(Square::of(to - delta), Square::of(to), MoveKind::Normal)]
}

/// The four promotions to a given square from the square that lies `delta`
/// squares below it in number.
pub open spec fn promotion_moves(delta: int) -> spec_fn(int) -> Seq<Move> {
    |to: int| promotions(to - delta, to)
}

/// The capture in passing from a given square to the square numbered `to`.
pub open spec fn passing_moves(to: int) -> spec_fn(int) -> Seq<Move> {
    |from: int| seq![Move::of(Square::of(from), Square::of(to), MoveKind::Enpassant)]
}

/// By how much one step in `direction` changes the number of a square.
pub open spec fn stride(direction: Direction) -> int {
    8 * direction.dr() + direction.df()
}

/// By how much one step in `direction`, or two if `twice`, change the number
/// of a square.
pub open spec fn span(direction: Direction, twice: bool) -> int {
    if twice {
        2 * stride(direction)
    } else {
        stride(direction)
    }
}

/// Whether one step against `direction` from the square numbered `i`, or
/// two if `twice`, stay on the board.
pub open spec fn can_step_back(i: int, direction: Direction, twice: bool) -> bool {
    if twice {
        &&& 0 <= i % 8 - 2 * direction.df() < 8
        &&& 0 <= i / 8 - 2 * direction.dr() < 8
    } else {
        &&& 0 <= i % 8 - direction.df() < 8
        &&& 0 <= i / 8 - direction.dr() < 8
    }
}

/// Whether each square of `bits` has the square one step against
/// `direction`, or two if `twice`, on the board.
pub open spec fn steps_back(bits: u64, direction: Direction, twice: bool) -> bool {
    forall|i: int| 0 <= i < 64 && #[trigger] bit(bits, i) ==> can_step_back(i, direction, twice)
}

/// What holds of the squares of a set holds of those it shares with
/// another.
pub proof fn lemma_steps_subset(bits: u64, other: u64, direction: Direction, twice: bool)
    requires
        steps_back(bits, direction, twice),
    ensures
        steps_back(bits & other, direction, twice),
{
    assert forall|i: int| 0 <= i < 64 && #[trigger] bit(bits & other, i) implies can_step_back(
        i,
        direction,
        twice,
    ) by {
        lemma_bit_and(bits, other, i);
    }
}

/// The squares that a set reaches by a step in `direction` have the step
/// back on the board.
pub proof fn lemma_steps_shifted(bits: u64, direction: Direction)
    ensures
        steps_back(shifted(bits, direction), direction, false),
{
    assert forall|i: int| 0 <= i < 64 && #[trigger] bit(shifted(bits, direction), i)
        implies can_step_back(i, direction, false) by {
        lemma_shifted_bits(bits, direction, i);
    }
}

/// The squares that a set reaches by two steps north or south, each of
/// which lands in the set that one step reaches, have both steps back on the
/// board.
pub proof fn lemma_steps_twice(bits: u64, first: u64, direction: Direction)
    requires
        direction == Direction::North || direction == Direction::South,
        forall|i: int| 0 <= i < 64 && #[trigger] bit(first, i) ==> bit(shifted(bits, direction), i),
    ensures
        steps_back(shifted(first, direction), direction, true),
{
    assert forall|i: int| 0 <= i < 64 && #[trigger] bit(shifted(first, direction), i)
        implies can_step_back(i, direction, true) by {
        lemma_shifted_bits(first, direction, i);
        let j = i - stride(direction);
        assert(bit(first, j));
        lemma_shifted_bits(bits, direction, j);
    }
}

/// Squares of `bits` that hold none add nothing.
pub proof fn lemma_each_skip(bits: u64, per: spec_fn(int) -> Seq<Move>, n: int, m: int)
    requires
        0 <= n <= m <= 64,
        forall|i: int| n <= i < m ==> !bit(bits, i),
    ensures
        each(bits, per, m) == each(bits, per, n),
    decreases m - n,
{
    if n < m {
        lemma_each_skip(bits, per, n, m - 1);
        assert(each(bits, per, m - 1) + Seq::<Move>::empty() =~= each(bits, per, m - 1));
    }
}

/// Cutting down, appending and cutting down again is appending and cutting
/// down once.
pub proof fn lemma_capped(ideal: Seq<Move>, more: Seq<Move>)
    ensures
        capped(capped(ideal) + more) == capped(ideal + more),
        capped(ideal).len() <= MAX_MOVES,
        capped(ideal).len() < MAX_MOVES ==> capped(ideal) == ideal,
{
    if ideal.len() <= MAX_MOVES {
    } else {
        assert(capped(capped(ideal) + more) =~= capped(ideal + more));
    }
}

/// Appends a move if the list has room for it.
fn append(list: &mut MoveList, mv: Move, Ghost(ideal): Ghost<Seq<Move>>)
    requires
        old(list).moves() == capped(ideal),
    ensures
        final(list).moves() == capped(ideal + seq![mv]),
{
    proof {
        lemma_capped(ideal, seq![mv]);
    }
    if !list.is_full() {
        list.push(mv);
        assert(list.moves() =~= capped(ideal) + seq![mv]);
    } else {
        assert(list.moves() =~= capped(capped(ideal) + seq![mv]));
    }
}

/// Takes the lowest square out of what is left of the set `all`, of which
/// the squares below `n` have been taken out before.
fn pop_square(remaining: &mut Bitboard, Ghost(all): Ghost<u64>, Ghost(n): Ghost<int>) -> (r: Option<
    Square,
>)
    requires
        0 <= n <= 64,
        forall|i: int| 0 <= i < 64 ==> #[trigger] bit(old(remaining).data, i) == (bit(all, i) && i >= n),
    ensures
        r.is_none() ==> forall|i: int| n <= i < 64 ==> !bit(all, i),
        r matches Some(square) ==> {
            &&& n <= square.idx() < 64
            &&& bit(all, square.idx())
            &&& forall|i: int| n <= i < square.idx() ==> !bit(all, i)
            &&& forall|i: int|
                0 <= i < 64 ==> #[trigger] bit(final(remaining).data, i) == (bit(all, i) && i
                    > square.idx())
            &&& final(remaining).data < old(remaining).data
        },
{
    let ghost before = remaining.data;
    match remaining.next() {
        Some(square) => {
            proof {
                lemma_lowest(before);
                lemma_square_idx_of(lowest(before));
                lemma_square_of_idx(square);
                assert(bit(before, square.idx()));
                assert forall|i: int| n <= i < square.idx() implies !bit(all, i) by {
                    assert(!bit(before, i));
                }
                assert forall|i: int| 0 <= i < 64 implies #[trigger] bit(remaining.data, i) == (
                bit(all, i) && i > square.idx()) by {
                    lemma_square_idx_of(i);
                    assert(bit(remaining.data, i) == (bit(before, i) && Some(Square::of(i))
                        != Some(square)));
                    if i < square.idx() {
                        assert(!bit(before, i));
                    }
                }
            }
            Some(square)
        },
        None => {
            proof {
                assert forall|i: int| n <= i < 64 implies !bit(all, i) by {
                    lemma_bit_zero(i);
                }
            }
            None
        },
    }
}

/// Appends the normal moves from `from` to the squares of `targets`.
fn push_normal_moves(
    list: &mut MoveList,
    from: Square,
    targets: Bitboard,
    Ghost(ideal): Ghost<Seq<Move>>,
)
    requires
        old(list).moves() == capped(ideal),
    ensures
        final(list).moves() == capped(ideal + normal_moves(from.idx(), targets.data)),
{
    let ghost all = targets.data;
    let ghost per = from_moves(from.idx());
    let ghost mut n: int = 0;
    let mut remaining = targets;
    proof {
        assert(ideal + each(all, per, 0) =~= ideal);
    }
    loop
        invariant_except_break
            0 <= n <= 64,
            forall|i: int| 0 <= i < 64 ==> #[trigger] bit(remaining.data, i) == (bit(all, i) && i >= n),
            list.moves() == capped(ideal + each(all, per, n)),
        invariant
            per == from_moves(from.idx()),
        ensures
            list.moves() == capped(ideal + each(all, per, 64)),
        decreases remaining.data,
    {
        match pop_square(&mut remaining, Ghost(all), Ghost(n)) {
            Some(to) => {
                proof {
                    lemma_each_skip(all, per, n, to.idx());
                    lemma_square_of_idx(from);
                    lemma_square_of_idx(to);
                }
                let ghost so_far = ideal + each(all, per, to.idx());
                append(list, Move::new(from, to, MoveKind::Normal), Ghost(so_far));
                proof {
                    n = to.idx() + 1;
                    assert(so_far + seq![Move::of(from, to, MoveKind::Normal)] =~= ideal + each(
                        all,
                        per,
                        n,
                    ));
                }
            },
            None => {
                proof {
                    lemma_each_skip(all, per, n, 64);
                }
                break ;
            },
        }
    }
}

/// Appends the four promotions from `from` to `to`.
fn push_promotion_moves(list: &mut MoveList, from: Square, to: Square, Ghost(ideal): Ghost<Seq<Move>>)
    requires
        old(list).moves() == capped(ideal),
    ensures
        final(list).moves() == capped(ideal + promotions(from.idx(), to.idx())),
{
    proof {
        lemma_square_of_idx(from);
        lemma_square_of_idx(to);
    }
    let ghost queen = Move::of(from, to, MoveKind::PromotionQueen);
    let ghost rook = Move::of(from, to, MoveKind::PromotionRook);
    let ghost bishop = Move::of(from, to, MoveKind::PromotionBishop);
    let ghost knight = Move::of(from, to, MoveKind::PromotionKnight);
    append(list, Move::new(from, to, MoveKind::PromotionQueen), Ghost(ideal));
    append(list, Move::new(from, to, MoveKind::PromotionRook), Ghost(ideal + seq![queen]));
    append(list, Move::new(from, to, MoveKind::PromotionBishop), Ghost(ideal + seq![queen] + seq![rook]));
    append(
        list,
        Move::new(from, to, MoveKind::PromotionKnight),
        Ghost(ideal + seq![queen] + seq![rook] + seq![bishop]),
    );
    assert(ideal + seq![queen] + seq![rook] + seq![bishop] + seq![knight] =~= ideal + promotions(
        from.idx(),
        to.idx(),
    ));
}

/// The square that lies one step against `direction` from `to`, or two if
/// `twice`.
fn origin(to: Square, direction: Direction, twice: bool) -> (from: Square)
    requires
        can_step_back(to.idx(), direction, twice),
    ensures
        from.idx() == to.idx() - span(direction, twice),
        from == Square::of(to.idx() - span(direction, twice)),
{
    let back = direction.not();
    proof {
        lemma_square_idx_of(to.idx() - stride(direction));
    }
    let mut from = to.shift(back).unwrap();
    if twice {
        proof {
            lemma_square_idx_of(to.idx() - 2 * stride(direction));
        }
        from = from.shift(back).unwrap();
    }
    proof {
        lemma_square_of_idx(from);
    }
    from
}

/// Appends, for each square of `targets`, the pawn move that ends there
/// and began one step against `direction`, or two if `twice`: a normal
/// move, or the four promotions if `promote`.
fn push_pawn_steps(
    list: &mut MoveList,
    targets: Bitboard,
    direction: Direction,
    twice: bool,
    promote: bool,
    Ghost(ideal): Ghost<Seq<Move>>,
)
    requires
        old(list).moves() == capped(ideal),
        steps_back(targets.data, direction, twice),
    ensures
        final(list).moves() == capped(
            ideal + each(
                targets.data,
                if promote {
                    promotion_moves(span(direction, twice))
                } else {
                    step_moves(span(direction, twice))
                },
                64,
            ),
        ),
{
    let ghost all = targets.data;
    let ghost delta = span(direction, twice);
    let ghost per = if promote {
        promotion_moves(delta)
    } else {
        step_moves(delta)
    };
    let ghost mut n: int = 0;
    let mut remaining = targets;
    proof {
        assert(ideal + each(all, per, 0) =~= ideal);
    }
    loop
        invariant_except_break
            0 <= n <= 64,
            forall|i: int| 0 <= i < 64 ==> #[trigger] bit(remaining.data, i) == (bit(all, i) && i >= n),
            list.moves() == capped(ideal + each(all, per, n)),
        invariant
            delta == span(direction, twice),
            per == (if promote {
                promotion_moves(delta)
            } else {
                step_moves(delta)
            }),
            steps_back(all, direction, twice),
        ensures
            list.moves() == capped(ideal + each(all, per, 64)),
        decreases remaining.data,
    {
        match pop_square(&mut remaining, Ghost(all), Ghost(n)) {
            Some(to) => {
                proof {
                    lemma_each_skip(all, per, n, to.idx());
                    lemma_square_of_idx(to);
                }
                let ghost so_far = ideal + each(all, per, to.idx());
                proof {
                    assert(bit(all, to.idx()));
                }
                let from = origin(to, direction, twice);
                if promote {
                    push_promotion_moves(list, from, to, Ghost(so_far));
                } else {
                    append(list, Move::new(from, to, MoveKind::Normal), Ghost(so_far));
                }
                proof {
                    n = to.idx() + 1;
                    assert(so_far + per(to.idx()) =~= ideal + each(all, per, n));
                }
            },
            None => {
                proof {
                    lemma_each_skip(all, per, n, 64);
                }
                break ;
            },
        }
    }
}

impl<'a> Board<'a> {
    /// The squares that the moves of a category may end on: for quiet moves
    /// the empty squares, for noisy moves the squares of the other side's
    /// pieces, for all moves every square that holds no piece of the side to
    /// move.
    pub open spec fn movable(&self, quiet: bool, noisy: bool) -> u64 {
        if !noisy {
            !self.state.occupied_bits()
        } else if !quiet {
            self.state.colors[self.color.other().idx()].data
        } else {
            !self.state.colors[self.color.idx()].data
        }
    }

    /// The squares on which a move other than the king's ends a check: the
    /// checker's square and the squares between it and the king. Every
    /// square if there is no check.
    pub open spec fn checkmask(&self) -> u64 {
        if self.state.checkers.data != 0 {
            self.state.checkers.data | between_bits(
                self.state.king_at(self.color),
                lowest(self.state.checkers.data),
            )
        } else {
            0xffff_ffff_ffff_ffff
        }
    }

    /// The king's steps to the squares of `movable`.
    pub open spec fn king_part(&self, movable: u64) -> Seq<Move> {
        if self.state.has_king(self.color) {
            let king = self.state.king_at(self.color);
            normal_moves(king, king_mask(king) & movable)
        } else {
            Seq::empty()
        }
    }

    /// The castling move `castle`, if its right is not lost, the king stands
    /// where the move starts, and no piece stands between the king and the
    /// rook.
    pub open spec fn castling_move(&self, castle: CastleKind) -> Seq<Move> {
        let king = self.state.king_at(self.color);
        if self.state.castles.allows(castle) && king == castle.king_from_spec().idx()
            && between_bits(king, castle.rook_from_spec().idx()) & self.state.occupied_bits()
            == 0 {
            seq![Move::of(Square::of(king), castle.king_to_spec(), MoveKind::Castling)]
        } else {
            Seq::empty()
        }
    }

    /// The castling moves of the side to move, the short one first.
    pub open spec fn castling_part(&self) -> Seq<Move> {
        self.castling_move(CastleKind::of(self.color, true)) + self.castling_move(
            CastleKind::of(self.color, false),
        )
    }

    /// The pawns of the side to move.
    pub open spec fn pawn_bits(&self) -> u64 {
        self.state.colors[self.color.idx()].data & self.state.pieces[0].data
    }

    /// The rank on which the pawns of `color` promote.
    pub open spec fn last_rank(color: Color) -> u64 {
        match color {
            Color::White => RANK_1 << 56,
            Color::Black => RANK_1 << 0,
        }
    }

    /// The direction in which the pawns of `color` capture towards the `H`
    /// file as white sees it.
    pub open spec fn forward_east(color: Color) -> Direction {
        match color {
            Color::White => Direction::NorthEast,
            Color::Black => Direction::SouthWest,
        }
    }

    /// The direction in which the pawns of `color` capture towards the `A`
    /// file as white sees it.
    pub open spec fn forward_west(color: Color) -> Direction {
        match color {
            Color::White => Direction::NorthWest,
            Color::Black => Direction::SouthEast,
        }
    }

    /// The squares that the pawns reach by one step forward onto an empty
    /// square.
    pub open spec fn single_pushes(&self) -> u64 {
        shifted(self.pawn_bits(), forward(self.color)) & !self.state.occupied_bits()
    }

    /// The squares that the pawns reach by a second step from their home
    /// rank onto another empty square.
    pub open spec fn double_pushes(&self) -> u64 {
        shifted(self.single_pushes() & push_rank(self.color), forward(self.color))
            & !self.state.occupied_bits()
    }

    /// The squares on which the pawns capture by a step in `direction`.
    pub open spec fn pawn_captures(&self, direction: Direction, checkmask: u64) -> u64 {
        shifted(self.pawn_bits(), direction) & self.state.colors[self.color.other().idx()].data
            & checkmask
    }

    /// The pawns that can capture in passing: those that attack the square
    /// that the position names for it, unless a piece of their own side
    /// stands there.
    pub open spec fn passing_sources(&self, target: Square) -> u64 {
        if bit(self.state.colors[self.color.idx()].data, target.idx()) {
            0
        } else {
            pawn_mask(self.color.other(), target.idx()) & self.pawn_bits()
        }
    }

    /// The captures in passing.
    pub open spec fn passing_part(&self) -> Seq<Move> {
        match self.state.enpassant {
            Some(target) => each(self.passing_sources(target), passing_moves(target.idx()), 64),
            None => Seq::empty(),
        }
    }

    /// The promotions of the pawns: by a push, then by a capture to either
    /// side.
    pub open spec fn promotion_part(&self, checkmask: u64) -> Seq<Move> {
        let us = self.color;
        let last = Board::last_rank(us);
        each(
            self.single_pushes() & checkmask & last,
            promotion_moves(span(forward(us), false)),
            64,
        ) + each(
            self.pawn_captures(Board::forward_east(us), checkmask) & last,
            promotion_moves(span(Board::forward_east(us), false)),
            64,
        ) + each(
            self.pawn_captures(Board::forward_west(us), checkmask) & last,
            promotion_moves(span(Board::forward_west(us), false)),
            64,
        )
    }

    /// The pushes of the pawns that do not promote: single steps, then
    /// double steps.
    pub open spec fn push_part(&self, checkmask: u64) -> Seq<Move> {
        let us = self.color;
        let last = Board::last_rank(us);
        each(
            self.single_pushes() & checkmask & !last,
            step_moves(span(forward(us), false)),
            64,
        ) + each(self.double_pushes() & checkmask, step_moves(span(forward(us), true)), 64)
    }

    /// The captures of the pawns that do not promote, to either side, and
    /// the captures in passing.
    pub open spec fn capture_part(&self, checkmask: u64) -> Seq<Move> {
        let us = self.color;
        let last = Board::last_rank(us);
        each(
            self.pawn_captures(Board::forward_east(us), checkmask) & !last,
            step_moves(span(Board::forward_east(us), false)),
            64,
        ) + each(
            self.pawn_captures(Board::forward_west(us), checkmask) & !last,
            step_moves(span(Board::forward_west(us), false)),
            64,
        ) + self.passing_part()
    }

    /// The moves of the pawns: promotions and captures if noisy moves are
    /// asked for, pushes if quiet ones are.
    pub open spec fn pawn_part(&self, checkmask: u64, quiet: bool, noisy: bool) -> Seq<Move> {
        (if noisy {
            self.promotion_part(checkmask)
        } else {
            Seq::empty()
        }) + (if quiet {
            self.push_part(checkmask)
        } else {
            Seq::empty()
        }) + (if noisy {
            self.capture_part(checkmask)
        } else {
            Seq::empty()
        })
    }

    /// The moves of a knight on a given square to the squares of `movable`.
    pub open spec fn knight_fan(movable: u64) -> spec_fn(int) -> Seq<Move> {
        |from: int| normal_moves(from, knight_mask(from) & movable)
    }

    /// The squares of `movable` that a slider on the square numbered `from`
    /// may go to, given the squares `reach` that it attacks: all of them, or
    /// those in line with the king if the slider is pinned.
    pub open spec fn slider_targets(
        state: State,
        color: Color,
        from: int,
        reach: u64,
        movable: u64,
    ) -> u64 {
        if bit(state.blockers[color.idx()].data, from) {
            reach & movable & line_bits(from, state.king_at(color))
        } else {
            reach & movable
        }
    }

    /// The moves of a diagonal slider on a given square.
    pub open spec fn diagonal_fan(state: State, color: Color, movable: u64) -> spec_fn(int) -> Seq<
        Move,
    > {
        |from: int|
            normal_moves(
                from,
                Board::slider_targets(
                    state,
                    color,
                    from,
                    bishop_reach(from, state.occupied_bits()),
                    movable,
                ),
            )
    }

    /// The moves of a straight slider on a given square.
    pub open spec fn straight_fan(state: State, color: Color, movable: u64) -> spec_fn(int) -> Seq<
        Move,
    > {
        |from: int|
            normal_moves(
                from,
                Board::slider_targets(
                    state,
                    color,
                    from,
                    rook_reach(from, state.occupied_bits()),
                    movable,
                ),
            )
    }

    /// The moves of the knights, which are not pinned, then of the bishops
    /// and queens along the diagonals, then of the rooks and queens along
    /// ranks and files.
    pub open spec fn piece_part(&self, movable: u64) -> Seq<Move> {
        let own = self.state.colors[self.color.idx()].data;
        each(
            self.state.pieces[1].data & own & !self.state.blockers[self.color.idx()].data,
            Board::knight_fan(movable),
            64,
        ) + each(self.state.diagonal_bits() & own, Board::diagonal_fan(self.state, self.color, movable), 64) + each(
            self.state.straight_bits() & own,
            Board::straight_fan(self.state, self.color, movable),
            64,
        )
    }

    /// The pseudo-legal moves of a category, in the order in which they are
    /// found: the king's steps; then, unless the king is in double check,
    /// castling, the pawns' moves, and the moves of knights, diagonal sliders
    /// and straight sliders, all of which, in single check, take the checker
    /// or step between it and the king.
    pub open spec fn generated(&self, quiet: bool, noisy: bool) -> Seq<Move> {
        let movable = self.movable(quiet, noisy);
        if many(self.state.checkers.data) {
            self.king_part(movable)
        } else {
            self.king_part(movable) + (if quiet && self.state.checkers.data == 0
                && self.state.has_king(self.color) {
                self.castling_part()
            } else {
                Seq::empty()
            }) + self.pawn_part(self.checkmask(), quiet, noisy) + self.piece_part(
                movable & self.checkmask(),
            )
        }
    }

    /// Appends one castling move, if its right is not lost, the king stands
    /// where the move starts, and no piece stands between the king and the
    /// rook.
    fn push_castling_move(
        &self,
        list: &mut MoveList,
        king_square: Square,
        castle: CastleKind,
        Ghost(ideal): Ghost<Seq<Move>>,
    )
        requires
            self.tables.wf(),
            king_square.idx() == self.state.king_at(self.color),
            old(list).moves() == capped(ideal),
        ensures
            final(list).moves() == capped(ideal + self.castling_move(castle)),
    {
        proof {
            lemma_square_of_idx(king_square);
        }
        if self.state.castles().is_allowed(castle) && king_square == castle.king_from()
            && Bitboard::from_between(self.tables, king_square, castle.rook_from()).bitand(
            self.state.occupied(),
        ).is_empty() {
            append(list, Move::new(king_square, castle.king_to(), MoveKind::Castling), Ghost(ideal));
        } else {
            assert(ideal + Seq::<Move>::empty() =~= ideal);
        }
    }

    /// Appends the castling moves of the side to move.
    fn push_castling_moves(&self, list: &mut MoveList, Ghost(ideal): Ghost<Seq<Move>>)
        requires
            self.tables.wf(),
            self.state.has_king(self.color),
            old(list).moves() == capped(ideal),
        ensures
            final(list).moves() == capped(ideal + self.castling_part()),
    {
        let king_square = self.state.king_square(self.color);
        let short = CastleKind::new(self.color, true);
        let long = CastleKind::new(self.color, false);
        self.push_castling_move(list, king_square, short, Ghost(ideal));
        self.push_castling_move(
            list,
            king_square,
            long,
            Ghost(ideal + self.castling_move(short)),
        );
        assert(ideal + self.castling_move(short) + self.castling_move(long) =~= ideal
            + self.castling_part());
    }

    /// Appends the captures in passing.
    fn push_passing_moves(&self, list: &mut MoveList, Ghost(ideal): Ghost<Seq<Move>>)
        requires
            self.tables.wf(),
            old(list).moves() == capped(ideal),
        ensures
            final(list).moves() == capped(ideal + self.passing_part()),
    {
        match self.state.enpassant() {
            Some(enpassant) => {
                let own = self.state.colors(self.color);
                let pawns = own.bitand(self.state.pieces(PieceKind::Pawn));
                let sources = if own.is_set(enpassant) {
                    Bitboard::new()
                } else {
                    pawn_attacks(self.tables, enpassant, self.color.not()).bitand(pawns)
                };
                let ghost all = sources.data;
                let ghost per = passing_moves(enpassant.idx());
                let ghost mut n: int = 0;
                let mut remaining = sources;
                proof {
                    assert(ideal + each(all, per, 0) =~= ideal);
                }
                loop
                    invariant_except_break
                        0 <= n <= 64,
                        forall|i: int|
                            0 <= i < 64 ==> #[trigger] bit(remaining.data, i) == (bit(all, i) && i
                                >= n),
                        list.moves() == capped(ideal + each(all, per, n)),
                    invariant
                        per == passing_moves(enpassant.idx()),
                    ensures
                        list.moves() == capped(ideal + each(all, per, 64)),
                    decreases remaining.data,
                {
                    match pop_square(&mut remaining, Ghost(all), Ghost(n)) {
                        Some(from) => {
                            proof {
                                lemma_each_skip(all, per, n, from.idx());
                                lemma_square_of_idx(from);
                                lemma_square_of_idx(enpassant);
                            }
                            let ghost so_far = ideal + each(all, per, from.idx());
                            append(
                                list,
                                Move::new(from, enpassant, MoveKind::Enpassant),
                                Ghost(so_far),
                            );
                            proof {
                                n = from.idx() + 1;
                                assert(so_far + seq![
                                    Move::of(from, enpassant, MoveKind::Enpassant),
                                ] =~= ideal + each(all, per, n));
                            }
                        },
                        None => {
                            proof {
                                lemma_each_skip(all, per, n, 64);
                            }
                            break ;
                        },
                    }
                }
            },
            None => {
                assert(ideal + Seq::<Move>::empty() =~= ideal);
            },
        }
    }

    /// The squares that the pawns move to, each set cut down to `checkmask`:
    /// by a single step, by a double step, and by a capture to either side.
    fn pawn_targets(&self, checkmask: Bitboard) -> (r: (Bitboard, Bitboard, Bitboard, Bitboard))
        requires
            self.tables.wf(),
        ensures
            r.0.data == self.single_pushes() & checkmask.data,
            r.1.data == self.double_pushes() & checkmask.data,
            r.2.data == self.pawn_captures(Board::forward_east(self.color), checkmask.data),
            r.3.data == self.pawn_captures(Board::forward_west(self.color), checkmask.data),
            steps_back(r.0.data, forward(self.color), false),
            steps_back(r.1.data, forward(self.color), true),
            steps_back(r.2.data, Board::forward_east(self.color), false),
            steps_back(r.3.data, Board::forward_west(self.color), false),
    {
        let us = self.color;
        let north = match us {
            Color::White => Direction::North,
            Color::Black => Direction::South,
        };
        let north_east = match us {
            Color::White => Direction::NorthEast,
            Color::Black => Direction::SouthWest,
        };
        let north_west = match us {
            Color::White => Direction::NorthWest,
            Color::Black => Direction::SouthEast,
        };
        let mask_push = match us {
            Color::White => Bitboard::from_rank(Rank::Third),
            Color::Black => Bitboard::from_rank(Rank::Sixth),
        };
        let pawns = self.state.colors(us).bitand(self.state.pieces(PieceKind::Pawn));
        let enemy = self.state.colors(us.not());
        let empty = self.state.occupied().not();
        let mut push = pawns.shift(north).bitand(empty);
        let mut double_push = push.bitand(mask_push).shift(north).bitand(empty);
        let east = pawns.shift(north_east).bitand(enemy).bitand(checkmask);
        let west = pawns.shift(north_west).bitand(enemy).bitand(checkmask);
        proof {
            lemma_steps_shifted(pawns.data, north);
            lemma_steps_subset(shifted(pawns.data, north), empty.data, north, false);
            lemma_steps_subset(push.data, checkmask.data, north, false);
            assert forall|i: int| 0 <= i < 64 && #[trigger] bit(push.data & mask_push.data, i)
                implies bit(shifted(pawns.data, north), i) by {
                lemma_bit_and(push.data, mask_push.data, i);
                lemma_bit_and(shifted(pawns.data, north), empty.data, i);
            }
            lemma_steps_twice(pawns.data, push.data & mask_push.data, north);
            lemma_steps_subset(
                shifted(push.data & mask_push.data, north),
                empty.data,
                north, true);
            lemma_steps_subset(double_push.data, checkmask.data, north, true);
            lemma_steps_shifted(pawns.data, north_east);
            lemma_steps_subset(shifted(pawns.data, north_east), enemy.data, north_east, false);
            lemma_steps_subset(
                shifted(pawns.data, north_east) & enemy.data,
                checkmask.data,
                north_east, false);
            lemma_steps_shifted(pawns.data, north_west);
            lemma_steps_subset(shifted(pawns.data, north_west), enemy.data, north_west, false);
            lemma_steps_subset(
                shifted(pawns.data, north_west) & enemy.data,
                checkmask.data,
                north_west, false);
        }
        push.bitand_assign(checkmask);
        double_push.bitand_assign(checkmask);
        (push, double_push, east, west)
    }

    /// Appends the promotions of the pawns.
    fn push_promotions(
        &self,
        list: &mut MoveList,
        checkmask: Bitboard,
        push: Bitboard,
        east: Bitboard,
        west: Bitboard,
        Ghost(ideal): Ghost<Seq<Move>>,
    )
        requires
            push.data == self.single_pushes() & checkmask.data,
            east.data == self.pawn_captures(Board::forward_east(self.color), checkmask.data),
            west.data == self.pawn_captures(Board::forward_west(self.color), checkmask.data),
            steps_back(push.data, forward(self.color), false),
            steps_back(east.data, Board::forward_east(self.color), false),
            steps_back(west.data, Board::forward_west(self.color), false),
            old(list).moves() == capped(ideal),
        ensures
            final(list).moves() == capped(ideal + self.promotion_part(checkmask.data)),
    {
        let us = self.color;
        let north = match us {
            Color::White => Direction::North,
            Color::Black => Direction::South,
        };
        let north_east = match us {
            Color::White => Direction::NorthEast,
            Color::Black => Direction::SouthWest,
        };
        let north_west = match us {
            Color::White => Direction::NorthWest,
            Color::Black => Direction::SouthEast,
        };
        let mask_promotion = match us {
            Color::White => Bitboard::from_rank(Rank::Eighth),
            Color::Black => Bitboard::from_rank(Rank::First),
        };
        proof {
            lemma_steps_subset(push.data, mask_promotion.data, north, false);
            lemma_steps_subset(east.data, mask_promotion.data, north_east, false);
            lemma_steps_subset(west.data, mask_promotion.data, north_west, false);
        }
        let ghost first = each(
            push.data & mask_promotion.data,
            promotion_moves(span(north, false)),
            64,
        );
        let ghost second = each(
            east.data & mask_promotion.data,
            promotion_moves(span(north_east, false)),
            64,
        );
        let ghost third = each(
            west.data & mask_promotion.data,
            promotion_moves(span(north_west, false)),
            64,
        );
        push_pawn_steps(list, push.bitand(mask_promotion), north, false, true, Ghost(ideal));
        push_pawn_steps(
            list,
            east.bitand(mask_promotion),
            north_east,
            false,
            true,
            Ghost(ideal + first),
        );
        push_pawn_steps(
            list,
            west.bitand(mask_promotion),
            north_west,
            false,
            true,
            Ghost(ideal + first + second),
        );
        assert(ideal + first + second + third =~= ideal + self.promotion_part(checkmask.data));
    }

    /// Appends the pushes of the pawns that do not promote.
    fn push_pushes(
        &self,
        list: &mut MoveList,
        checkmask: Bitboard,
        push: Bitboard,
        double_push: Bitboard,
        Ghost(ideal): Ghost<Seq<Move>>,
    )
        requires
            push.data == self.single_pushes() & checkmask.data,
            double_push.data == self.double_pushes() & checkmask.data,
            steps_back(push.data, forward(self.color), false),
            steps_back(double_push.data, forward(self.color), true),
            old(list).moves() == capped(ideal),
        ensures
            final(list).moves() == capped(ideal + self.push_part(checkmask.data)),
    {
        let us = self.color;
        let north = match us {
            Color::White => Direction::North,
            Color::Black => Direction::South,
        };
        let mask_promotion = match us {
            Color::White => Bitboard::from_rank(Rank::Eighth),
            Color::Black => Bitboard::from_rank(Rank::First),
        };
        let plain = push.bitand(mask_promotion.not());
        proof {
            lemma_steps_subset(push.data, !mask_promotion.data, north, false);
        }
        let ghost first = each(plain.data, step_moves(span(north, false)), 64);
        let ghost second = each(double_push.data, step_moves(span(north, true)), 64);
        push_pawn_steps(list, plain, north, false, false, Ghost(ideal));
        push_pawn_steps(list, double_push, north, true, false, Ghost(ideal + first));
        assert(ideal + first + second =~= ideal + self.push_part(checkmask.data));
    }

    /// Appends the captures of the pawns that do not promote, and the
    /// captures in passing.
    fn push_captures(
        &self,
        list: &mut MoveList,
        checkmask: Bitboard,
        east: Bitboard,
        west: Bitboard,
        Ghost(ideal): Ghost<Seq<Move>>,
    )
        requires
            self.tables.wf(),
            east.data == self.pawn_captures(Board::forward_east(self.color), checkmask.data),
            west.data == self.pawn_captures(Board::forward_west(self.color), checkmask.data),
            steps_back(east.data, Board::forward_east(self.color), false),
            steps_back(west.data, Board::forward_west(self.color), false),
            old(list).moves() == capped(ideal),
        ensures
            final(list).moves() == capped(ideal + self.capture_part(checkmask.data)),
    {
        let us = self.color;
        let north_east = match us {
            Color::White => Direction::NorthEast,
            Color::Black => Direction::SouthWest,
        };
        let north_west = match us {
            Color::White => Direction::NorthWest,
            Color::Black => Direction::SouthEast,
        };
        let mask_promotion = match us {
            Color::White => Bitboard::from_rank(Rank::Eighth),
            Color::Black => Bitboard::from_rank(Rank::First),
        };
        let plain_east = east.bitand(mask_promotion.not());
        let plain_west = west.bitand(mask_promotion.not());
        proof {
            lemma_steps_subset(east.data, !mask_promotion.data, north_east, false);
            lemma_steps_subset(west.data, !mask_promotion.data, north_west, false);
        }
        let ghost first = each(plain_east.data, step_moves(span(north_east, false)), 64);
        let ghost second = each(plain_west.data, step_moves(span(north_west, false)), 64);
        push_pawn_steps(list, plain_east, north_east, false, false, Ghost(ideal));
        push_pawn_steps(list, plain_west, north_west, false, false, Ghost(ideal + first));
        self.push_passing_moves(list, Ghost(ideal + first + second));
        assert(ideal + first + second + self.passing_part() =~= ideal + self.capture_part(
            checkmask.data,
        ));
    }

    /// Appends the moves of the pawns: promotions and captures if `noisy`,
    /// pushes if `quiet`. In check, `checkmask` holds the squares on which
    /// a move ends the check.
    fn push_pawn_moves(
        &self,
        list: &mut MoveList,
        checkmask: Bitboard,
        quiet: bool,
        noisy: bool,
        Ghost(ideal): Ghost<Seq<Move>>,
    )
        requires
            self.tables.wf(),
            old(list).moves() == capped(ideal),
        ensures
            final(list).moves() == capped(ideal + self.pawn_part(checkmask.data, quiet, noisy)),
    {
        let (push, double_push, east, west) = self.pawn_targets(checkmask);
        let ghost first = if noisy {
            self.promotion_part(checkmask.data)
        } else {
            Seq::empty()
        };
        let ghost second = if quiet {
            self.push_part(checkmask.data)
        } else {
            Seq::empty()
        };
        if noisy {
            self.push_promotions(list, checkmask, push, east, west, Ghost(ideal));
        } else {
            assert(ideal + Seq::<Move>::empty() =~= ideal);
        }
        if quiet {
            self.push_pushes(list, checkmask, push, double_push, Ghost(ideal + first));
        } else {
            assert(ideal + first + Seq::<Move>::empty() =~= ideal + first);
        }
        if noisy {
            self.push_captures(list, checkmask, east, west, Ghost(ideal + first + second));
        } else {
            assert(ideal + first + second + Seq::<Move>::empty() =~= ideal + first + second);
        }
        assert(ideal + first + second + (if noisy {
            self.capture_part(checkmask.data)
        } else {
            Seq::empty()
        }) =~= ideal + self.pawn_part(checkmask.data, quiet, noisy));
    }

    /// Appends the moves of the knights, of the diagonal sliders and of the
    /// straight sliders to the squares of `movable`.
    fn push_piece_moves(&self, list: &mut MoveList, movable: Bitboard, Ghost(ideal): Ghost<Seq<Move>>)
        requires
            self.wf(),
            old(list).moves() == capped(ideal),
        ensures
            final(list).moves() == capped(ideal + self.piece_part(movable.data)),
    {
        let us = self.color;
        let own = self.state.colors(us);
        let occupied = self.state.occupied();
        let blockers = self.state.blockers(us);
        let knights = self.state.pieces(PieceKind::Knight).bitand(own).bitand(blockers.not());
        let ghost mut so_far = ideal;
        // Knights.
        let ghost all = knights.data;
        let ghost per = Board::knight_fan(movable.data);
        let ghost mut n: int = 0;
        let mut remaining = knights;
        proof {
            assert(ideal + each(all, per, 0) =~= ideal);
        }
        loop
            invariant_except_break
                0 <= n <= 64,
                forall|i: int|
                    0 <= i < 64 ==> #[trigger] bit(remaining.data, i) == (bit(all, i) && i >= n),
                list.moves() == capped(ideal + each(all, per, n)),
            invariant
                self.wf(),
                per == Board::knight_fan(movable.data),
            ensures
                list.moves() == capped(ideal + each(all, per, 64)),
            decreases remaining.data,
        {
            match pop_square(&mut remaining, Ghost(all), Ghost(n)) {
                Some(from) => {
                    proof {
                        lemma_each_skip(all, per, n, from.idx());
                    }
                    let ghost before = ideal + each(all, per, from.idx());
                    push_normal_moves(
                        list,
                        from,
                        knight_attacks(self.tables, from).bitand(movable),
                        Ghost(before),
                    );
                    proof {
                        n = from.idx() + 1;
                        assert(before + per(from.idx()) =~= ideal + each(all, per, n));
                    }
                },
                None => {
                    proof {
                        lemma_each_skip(all, per, n, 64);
                    }
                    break ;
                },
            }
        }
        proof {
            so_far = ideal + each(all, per, 64);
        }
        // Bishops and queens.
        let bishops = self.state.pieces(PieceKind::Bishop).bitor(
            self.state.pieces(PieceKind::Queen),
        ).bitand(own);
        let ghost after_knights = so_far;
        let ghost all = bishops.data;
        let ghost per = Board::diagonal_fan(self.state, self.color, movable.data);
        let ghost mut n: int = 0;
        let mut remaining = bishops;
        proof {
            assert(after_knights + each(all, per, 0) =~= after_knights);
        }
        loop
            invariant_except_break
                0 <= n <= 64,
                forall|i: int|
                    0 <= i < 64 ==> #[trigger] bit(remaining.data, i) == (bit(all, i) && i >= n),
                list.moves() == capped(after_knights + each(all, per, n)),
            invariant
                self.wf(),
                us == self.color,
                occupied.data == self.state.occupied_bits(),
                blockers == self.state.blockers[us.idx()],
                per == Board::diagonal_fan(self.state, self.color, movable.data),
            ensures
                list.moves() == capped(after_knights + each(all, per, 64)),
            decreases remaining.data,
        {
            match pop_square(&mut remaining, Ghost(all), Ghost(n)) {
                Some(from) => {
                    proof {
                        lemma_each_skip(all, per, n, from.idx());
                    }
                    let ghost before = after_knights + each(all, per, from.idx());
                    let mut targets = bishop_attacks(self.tables, from, occupied).bitand(movable);
                    if blockers.is_set(from) {
                        proof {
                            self.lemma_threats_need_king();
                            crate::bits::lemma_bit_nonzero(blockers.data, from.idx());
                        }
                        targets.bitand_assign(
                            Bitboard::from_line(
                                self.tables,
                                from,
                                self.state.king_square(us),
                            ),
                        );
                    }
                    push_normal_moves(list, from, targets, Ghost(before));
                    proof {
                        n = from.idx() + 1;
                        assert(before + per(from.idx()) =~= after_knights + each(all, per, n));
                    }
                },
                None => {
                    proof {
                        lemma_each_skip(all, per, n, 64);
                    }
                    break ;
                },
            }
        }
        proof {
            so_far = after_knights + each(all, per, 64);
        }
        // Rooks and queens.
        let rooks = self.state.pieces(PieceKind::Rook).bitor(
            self.state.pieces(PieceKind::Queen),
        ).bitand(own);
        let ghost after_bishops = so_far;
        let ghost all = rooks.data;
        let ghost per = Board::straight_fan(self.state, self.color, movable.data);
        let ghost mut n: int = 0;
        let mut remaining = rooks;
        proof {
            assert(after_bishops + each(all, per, 0) =~= after_bishops);
        }
        loop
            invariant_except_break
                0 <= n <= 64,
                forall|i: int|
                    0 <= i < 64 ==> #[trigger] bit(remaining.data, i) == (bit(all, i) && i >= n),
                list.moves() == capped(after_bishops + each(all, per, n)),
            invariant
                self.wf(),
                us == self.color,
                occupied.data == self.state.occupied_bits(),
                blockers == self.state.blockers[us.idx()],
                per == Board::straight_fan(self.state, self.color, movable.data),
            ensures
                list.moves() == capped(after_bishops + each(all, per, 64)),
            decreases remaining.data,
        {
            match pop_square(&mut remaining, Ghost(all), Ghost(n)) {
                Some(from) => {
                    proof {
                        lemma_each_skip(all, per, n, from.idx());
                    }
                    let ghost before = after_bishops + each(all, per, from.idx());
                    let mut targets = rook_attacks(self.tables, from, occupied).bitand(movable);
                    if blockers.is_set(from) {
                        proof {
                            self.lemma_threats_need_king();
                            crate::bits::lemma_bit_nonzero(blockers.data, from.idx());
                        }
                        targets.bitand_assign(
                            Bitboard::from_line(
                                self.tables,
                                from,
                                self.state.king_square(us),
                            ),
                        );
                    }
                    push_normal_moves(list, from, targets, Ghost(before));
                    proof {
                        n = from.idx() + 1;
                        assert(before + per(from.idx()) =~= after_bishops + each(all, per, n));
                    }
                },
                None => {
                    proof {
                        lemma_each_skip(all, per, n, 64);
                    }
                    break ;
                },
            }
        }
        assert(after_bishops + each(all, per, 64) =~= ideal + self.piece_part(movable.data));
    }

    /// The pseudo-legal moves of the side to move: the quiet ones, the noisy
    /// ones, or both.
    fn movegen(&self, quiet: bool, noisy: bool) -> (list: MoveList)
        requires
            self.wf(),
        ensures
            list.moves() == capped(self.generated(quiet, noisy)),
    {
        let mut list = MoveList::new();
        let us = self.state.colors(self.color);
        let them = self.state.colors(self.color.not());
        let occupied = us.bitor(them);
        let checkers = self.state.checkers();
        let mut movable = us.not();
        if !quiet {
            movable = them;
        }
        if !noisy {
            movable = occupied.not();
        }
        proof {
            assert(list.moves() =~= capped(Seq::<Move>::empty()));
            assert(self.color.idx() == 0 ==> occupied.data == self.state.occupied_bits());
            let a = self.state.colors[0].data;
            let b = self.state.colors[1].data;
            assert(a | b == b | a) by (bit_vector);
        }
        let has_king = self.state.pieces(PieceKind::King).bitand(us).is_some();
        if has_king {
            let king_square = self.state.king_square(self.color);
            push_normal_moves(
                &mut list,
                king_square,
                king_attacks(self.tables, king_square).bitand(movable),
                Ghost(Seq::empty()),
            );
        }
        let ghost kings = self.king_part(movable.data);
        assert(list.moves() == capped(Seq::<Move>::empty() + kings));
        assert(Seq::<Move>::empty() + kings =~= kings);
        if checkers.is_many() {
            return list;
        }
        let checkmask = if checkers.is_some() {
            proof {
                self.lemma_threats_need_king();
            }
            checkers.bitor(
                Bitboard::from_between(
                    self.tables,
                    self.state.king_square(self.color),
                    checkers.lsb(),
                ),
            )
        } else {
            Bitboard::from_raw(0xffff_ffff_ffff_ffff)
        };
        movable.bitand_assign(checkmask);
        let ghost mut so_far = kings;
        if quiet && checkers.is_empty() && has_king {
            self.push_castling_moves(&mut list, Ghost(so_far));
            proof {
                so_far = so_far + self.castling_part();
            }
        } else {
            assert(so_far + Seq::<Move>::empty() =~= so_far);
        }
        self.push_pawn_moves(&mut list, checkmask, quiet, noisy, Ghost(so_far));
        proof {
            so_far = so_far + self.pawn_part(checkmask.data, quiet, noisy);
        }
        self.push_piece_moves(&mut list, movable, Ghost(so_far));
        list
    }

    /// The pseudo-legal moves that neither take a piece nor promote a pawn,
    /// as far as the list has room for them: none of them is noisy, and
    /// where the list has room for all, no such move is left out, but a
    /// move of a king that the position does not keep track of.
    pub fn generate_quiet_moves(&self) -> (list: MoveList)
        requires
            self.wf(),
        ensures
            list.moves() == capped(self.generated(true, false)),
            list.moves().no_duplicates(),
            forall|i: int| 0 <= i < list.moves().len() ==> self.pseudo_legal(#[trigger] list.moves()[i]),
            forall|i: int| 0 <= i < list.moves().len() ==> !self.noisy(#[trigger] list.moves()[i]),
            self.generated(true, false).len() <= MAX_MOVES ==> forall|
                from: Square,
                to: Square,
                kind: MoveKind,
            |
                self.proper(from) && self.pseudo_legal(#[trigger] Move::of(from, to, kind))
                    && !self.noisy(Move::of(from, to, kind)) ==> list.moves().contains(
                    Move::of(from, to, kind),
                ),
    {
        let list = self.movegen(true, false);
        proof {
            assert forall|from: Square, to: Square, kind: MoveKind|
                self.proper(from) && self.pseudo_legal(#[trigger] Move::of(from, to, kind))
                    && !self.noisy(Move::of(from, to, kind)) implies self.generated(
                true,
                false,
            ).contains(Move::of(from, to, kind)) by {
                self.lemma_fitting_is_found(from, to, kind);
                self.lemma_generated_split(Move::of(from, to, kind));
            }
            self.lemma_generated_distinct(true, false);
            assert forall|i: int| 0 <= i < list.moves().len() implies self.pseudo_legal(
                #[trigger] list.moves()[i],
            ) && !self.noisy(list.moves()[i]) by {
                self.lemma_listed_fit(true, false, i);
                let found = self.generated(true, false);
                assert(found[i] == list.moves()[i]);
                self.lemma_generated_split(list.moves()[i]);
            }
        }
        list
    }

    /// The pseudo-legal moves that take a piece or promote a pawn, as far as
    /// the list has room for them: each of them is noisy, and where the
    /// list has room for all, no such move is left out, but a move of a
    /// king that the position does not keep track of.
    pub fn generate_noisy_moves(&self) -> (list: MoveList)
        requires
            self.wf(),
        ensures
            list.moves() == capped(self.generated(false, true)),
            list.moves().no_duplicates(),
            forall|i: int| 0 <= i < list.moves().len() ==> self.pseudo_legal(#[trigger] list.moves()[i]),
            forall|i: int| 0 <= i < list.moves().len() ==> self.noisy(#[trigger] list.moves()[i]),
            self.generated(false, true).len() <= MAX_MOVES ==> forall|
                from: Square,
                to: Square,
                kind: MoveKind,
            |
                self.proper(from) && self.pseudo_legal(#[trigger] Move::of(from, to, kind))
                    && self.noisy(Move::of(from, to, kind)) ==> list.moves().contains(
                    Move::of(from, to, kind),
                ),
    {
        let list = self.movegen(false, true);
        proof {
            assert forall|from: Square, to: Square, kind: MoveKind|
                self.proper(from) && self.pseudo_legal(#[trigger] Move::of(from, to, kind))
                    && self.noisy(Move::of(from, to, kind)) implies self.generated(
                false,
                true,
            ).contains(Move::of(from, to, kind)) by {
                self.lemma_fitting_is_found(from, to, kind);
                self.lemma_generated_split(Move::of(from, to, kind));
            }
            self.lemma_generated_distinct(false, true);
            assert forall|i: int| 0 <= i < list.moves().len() implies self.pseudo_legal(
                #[trigger] list.moves()[i],
            ) && self.noisy(list.moves()[i]) by {
                self.lemma_listed_fit(false, true, i);
                let found = self.generated(false, true);
                assert(found[i] == list.moves()[i]);
                self.lemma_generated_split(list.moves()[i]);
            }
        }
        list
    }

    /// The pseudo-legal moves, as far as the list has room for them: where
    /// it has room for all, no pseudo-legal move is left out, but a move of
    /// a king that the position does not keep track of.
    pub fn generate_moves(&self) -> (list: MoveList)
        requires
            self.wf(),
        ensures
            list.moves() == capped(self.generated(true, true)),
            list.moves().no_duplicates(),
            forall|i: int| 0 <= i < list.moves().len() ==> self.pseudo_legal(#[trigger] list.moves()[i]),
            self.generated(true, true).len() <= MAX_MOVES ==> forall|
                from: Square,
                to: Square,
                kind: MoveKind,
            |
                self.proper(from) && self.pseudo_legal(
                    #[trigger] Move::of(from, to, kind),
                ) ==> list.moves().contains(Move::of(from, to, kind)),
    {
        let list = self.movegen(true, true);
        proof {
            assert forall|from: Square, to: Square, kind: MoveKind|
                self.proper(from) && self.pseudo_legal(
                    #[trigger] Move::of(from, to, kind),
                ) implies self.generated(true, true).contains(Move::of(from, to, kind)) by {
                self.lemma_fitting_is_found(from, to, kind);
            }
            self.lemma_generated_distinct(true, true);
            assert forall|i: int| 0 <= i < list.moves().len() implies self.pseudo_legal(
                #[trigger] list.moves()[i],
            ) by {
                self.lemma_listed_fit(true, true, i);
            }
        }
        list
    }
}

} // verus!
