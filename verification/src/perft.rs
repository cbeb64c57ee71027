use vstd::prelude::*;
use crate::bits::{bit, lemma_bits_ext};
use crate::board::{lemma_pins_frame, lemma_unmake_restores, Board, State};
use crate::color::Color;
use crate::piece::PieceKind;
use crate::movegen::capped;
use crate::movelist::MAX_MOVES;
use crate::moves::Move;

verus! {

/// The greatest depth at which a count is sure to fit in 64 bits, whatever
/// the position.
pub const MAX_DEPTH: i32 = 7;

/// A bound on the number of lines of play of a given depth: a list holds up
/// to 256 moves, so each further move multiplies the count by 256 at most.
pub open spec fn limit(depth: int) -> nat
    decreases depth,
{
    if depth <= 1 {
        256
    } else {
        256 * limit(depth - 1)
    }
}

/// A bound on the number of lines of play that begin with one move.
pub open spec fn share(depth: int) -> nat {
    if depth <= 1 {
        1
    } else {
        limit(depth - 1)
    }
}

/// Two states that are sound for the same side to move and agree in the
/// pieces on the squares, the rights, the square of a capture in passing and
/// the clock are one state.
pub proof fn lemma_sound_unique(a: &State, b: &State, color: Color)
    requires
        a.sound(color),
        b.sound(color),
        a.mailbox@ == b.mailbox@,
        a.castles == b.castles,
        a.enpassant == b.enpassant,
        a.halfmove == b.halfmove,
    ensures
        a == b,
{
    assert forall|k: int| 0 <= k < 6 implies a.pieces[k] == b.pieces[k] by {
        assert forall|s: int| 0 <= s < 64 implies bit(a.pieces[k].data, s) == bit(
            b.pieces[k].data,
            s,
        ) by {
            assert(a.mailbox[s] == a.mailbox@[s]);
            assert(b.mailbox[s] == b.mailbox@[s]);
        }
        lemma_bits_ext(a.pieces[k].data, b.pieces[k].data);
    }
    assert forall|c: int| 0 <= c < 2 implies a.colors[c] == b.colors[c] by {
        assert forall|s: int| 0 <= s < 64 implies bit(a.colors[c].data, s) == bit(
            b.colors[c].data,
            s,
        ) by {
            assert(a.mailbox[s] == a.mailbox@[s]);
            assert(b.mailbox[s] == b.mailbox@[s]);
        }
        lemma_bits_ext(a.colors[c].data, b.colors[c].data);
    }
    assert(a.pieces@ =~= b.pieces@);
    assert(a.colors@ =~= b.colors@);
    assert(a.pieces =~= b.pieces);
    assert(a.colors =~= b.colors);
    assert(a.mailbox =~= b.mailbox);
    lemma_pins_frame(a, b, color);
    lemma_pins_frame(a, b, Color::White);
    lemma_pins_frame(a, b, Color::Black);
    assert(a.blockers[0] == b.blockers[0]);
    assert(a.blockers[1] == b.blockers[1]);
    assert(a.blockers@ =~= b.blockers@);
    assert(a.blockers =~= b.blockers);
    assert(a.checkers == b.checkers);
    assert(a.keys == b.keys);
}

/// Whether `next` is the state that the move `mv` of the side `color` leads
/// to from `state`: a sound state for the other side to move, with the
/// pieces, rights, square of a capture in passing and clock that the move
/// makes them.
pub open spec fn leads_to(state: State, color: Color, mv: Move, next: State) -> bool {
    let moving = state.mailbox[mv.from_spec().idx()].unwrap();
    &&& next.sound(color.other())
    &&& next.mailbox@ == State::relocated(
        state.mailbox@.update(mv.to_spec().idx(), None),
        mv,
        color,
        moving,
    )
    &&& next.castles == State::revoked(
        state.castles,
        moving.kind_spec() == PieceKind::King,
        color,
        mv.from_spec(),
        mv.to_spec(),
    )
    &&& next.enpassant == State::passed_over(mv, moving)
    &&& next.halfmove == (if state.mailbox[mv.to_spec().idx()].is_some() || moving.kind_spec()
        == PieceKind::Pawn {
        0
    } else {
        state.halfmove + 1
    })
}

/// The state that the move `mv` of the side `color` leads to from `state`.
pub open spec fn next_state(state: State, color: Color, mv: Move) -> State {
    choose|next: State| leads_to(state, color, mv, next)
}

impl<'a> Board<'a> {
    /// Whether a move may be made: it is pseudo-legal and legal.
    pub open spec fn playable(&self, mv: Move) -> bool {
        self.pseudo_legal(mv) && self.legal(mv)
    }

    /// The position that `mv` leads to, history left aside.
    pub open spec fn after(&self, mv: Move) -> Board<'a> {
        Board {
            state: next_state(self.state, self.color, mv),
            color: self.color.other(),
            stack: self.stack,
            tables: self.tables,
        }
    }

    /// What making a move leads to is the position that the move leads to.
    pub proof fn lemma_made_after(&self, mv: Move, made: &Board<'a>)
        requires
            self.made(mv, made),
        ensures
            made.state == self.after(mv).state,
            made.color == self.after(mv).color,
    {
        assert(leads_to(self.state, self.color, mv, made.state));
        lemma_sound_unique(
            &made.state,
            &next_state(self.state, self.color, mv),
            self.color.other(),
        );
    }

    /// The number of lines of play of `depth` moves that begin with one of
    /// the first `n` of `moves`: each playable move counts for one at a
    /// depth of one or less, and else for the lines of the remaining depth
    /// from the position that it leads to.
    pub open spec fn nodes_upto(&self, moves: Seq<Move>, depth: int, n: int) -> nat
        decreases depth, 0int, n,
    {
        if n <= 0 {
            0
        } else {
            self.nodes_upto(moves, depth, n - 1) + (if self.playable(moves[n - 1]) {
                if depth > 1 {
                    self.after(moves[n - 1]).nodes(depth - 1)
                } else {
                    1
                }
            } else {
                0
            })
        }
    }

    /// The number of lines of play of `depth` moves from the position, as
    /// far as the move lists have room for the moves.
    pub open spec fn nodes(&self, depth: int) -> nat
        decreases depth, 1int, 0int,
    {
        let moves = capped(self.generated(true, true));
        self.nodes_upto(moves, depth, moves.len() as int)
    }

    /// Whether a move may be made depends on the state and the side to move,
    /// not on the history.
    pub proof fn lemma_playable_frame(&self, other: &Board<'a>, mv: Move)
        requires
            self.state == other.state,
            self.color == other.color,
        ensures
            self.pseudo_legal(mv) == other.pseudo_legal(mv),
            self.legal(mv) == other.legal(mv),
            self.playable(mv) == other.playable(mv),
    {
        reveal(Board::pseudo_legal);
        reveal(Board::legal);
    }

    /// The count depends on the state and the side to move, not on the
    /// history.
    pub proof fn lemma_nodes_frame(&self, other: &Board<'a>, depth: int)
        requires
            self.state == other.state,
            self.color == other.color,
        ensures
            self.nodes(depth) == other.nodes(depth),
        decreases depth, 1int, 0int,
    {
        let moves = capped(self.generated(true, true));
        self.lemma_nodes_upto_frame(other, moves, depth, moves.len() as int);
    }

    /// The count over the first moves of a list depends on the state and
    /// the side to move, not on the history.
    pub proof fn lemma_nodes_upto_frame(
        &self,
        other: &Board<'a>,
        moves: Seq<Move>,
        depth: int,
        n: int,
    )
        requires
            self.state == other.state,
            self.color == other.color,
        ensures
            self.nodes_upto(moves, depth, n) == other.nodes_upto(moves, depth, n),
        decreases depth, 0int, n,
    {
        if n > 0 {
            self.lemma_nodes_upto_frame(other, moves, depth, n - 1);
            self.lemma_playable_frame(other, moves[n - 1]);
            if self.playable(moves[n - 1]) && depth > 1 {
                let mv = moves[n - 1];
                self.after(mv).lemma_nodes_frame(&other.after(mv), depth - 1);
            }
        }
    }

    /// The count over a list of up to 256 moves stays within the bound.
    pub proof fn lemma_nodes_bound(&self, moves: Seq<Move>, depth: int, n: int)
        requires
            0 <= n <= moves.len() <= MAX_MOVES,
        ensures
            self.nodes_upto(moves, depth, n) <= n * share(depth),
            self.nodes(depth) <= limit(depth),
    {
        self.lemma_upto_bound(moves, depth, n);
        let all = capped(self.generated(true, true));
        self.lemma_upto_bound(all, depth, all.len() as int);
        let bound = share(depth);
        assert(all.len() * bound <= 256 * bound) by (nonlinear_arith)
            requires
                all.len() <= 256,
                bound >= 0,
        ;
    }

    proof fn lemma_upto_bound(&self, moves: Seq<Move>, depth: int, n: int)
        requires
            0 <= n <= moves.len() <= MAX_MOVES,
        ensures
            self.nodes_upto(moves, depth, n) <= n * share(depth),
        decreases depth, 0int, n,
    {
        let bound = share(depth);
        if n > 0 {
            self.lemma_upto_bound(moves, depth, n - 1);
            if self.playable(moves[n - 1]) && depth > 1 {
                let next = self.after(moves[n - 1]);
                let all = capped(next.generated(true, true));
                next.lemma_upto_bound(all, depth - 1, all.len() as int);
                let inner = share(depth - 1);
                assert(all.len() * inner <= 256 * inner) by (nonlinear_arith)
                    requires
                        all.len() <= 256,
                        inner >= 0,
                ;
                assert(next.nodes(depth - 1) <= limit(depth - 1));
            }
            assert((n - 1) * bound + bound == n * bound) by (nonlinear_arith);
        } else {
            assert(0 * bound == 0) by (nonlinear_arith);
        }
    }
}

/// The bound for the deepest count fits in 64 bits.
pub proof fn lemma_limit_fits(depth: int)
    requires
        depth <= MAX_DEPTH,
    ensures
        limit(depth) <= 0x100_0000_0000_0000,
{
    reveal_with_fuel(limit, 8);
}

impl<'a> Board<'a> {
    /// The count over the first moves of a list grows with the number of
    /// moves.
    pub proof fn lemma_nodes_grow(&self, moves: Seq<Move>, depth: int, n: int, m: int)
        requires
            n <= m,
        ensures
            self.nodes_upto(moves, depth, n) <= self.nodes_upto(moves, depth, m),
        decreases m - n,
    {
        if n < m {
            self.lemma_nodes_grow(moves, depth, n, m - 1);
        }
    }

    /// The number of lines of play of `depth` moves that begin with the
    /// move `mv`: one at a depth of one or less, and else the lines of the
    /// remaining depth from the position that the move leads to.
    pub open spec fn lines_after(&self, mv: Move, depth: int) -> nat {
        if depth > 1 {
            self.after(mv).nodes(depth - 1)
        } else {
            1
        }
    }

    /// The playable moves among the first `n` of `moves`, in their order,
    /// each with the number of lines of play of `depth` moves that begin
    /// with it.
    pub open spec fn divided_upto(&self, moves: Seq<Move>, depth: int, n: int) -> Seq<(Move, nat)>
        decreases n,
    {
        if n <= 0 {
            Seq::empty()
        } else {
            let rest = self.divided_upto(moves, depth, n - 1);
            if self.playable(moves[n - 1]) {
                rest.push((moves[n - 1], self.lines_after(moves[n - 1], depth)))
            } else {
                rest
            }
        }
    }

    /// The playable moves of the position in the order in which they are
    /// found, each with the number of lines of play of `depth` moves that
    /// begin with it.
    pub open spec fn divided(&self, depth: int) -> Seq<(Move, nat)> {
        let moves = capped(self.generated(true, true));
        self.divided_upto(moves, depth, moves.len() as int)
    }

    /// The counts of the moves add up to the count of the position.
    pub proof fn lemma_divided_total(&self, depth: int)
        ensures
            total(self.divided(depth)) == self.nodes(depth),
    {
        let moves = capped(self.generated(true, true));
        self.lemma_divided_upto_total(moves, depth, moves.len() as int);
    }

    /// The counts of the playable moves among the first of a list add up to
    /// the count over these moves.
    pub proof fn lemma_divided_upto_total(&self, moves: Seq<Move>, depth: int, n: int)
        ensures
            total(self.divided_upto(moves, depth, n)) == self.nodes_upto(moves, depth, n),
        decreases n,
    {
        if n > 0 {
            self.lemma_divided_upto_total(moves, depth, n - 1);
            let rest = self.divided_upto(moves, depth, n - 1);
            if self.playable(moves[n - 1]) {
                let part = (moves[n - 1], self.lines_after(moves[n - 1], depth));
                assert(rest.push(part).drop_last() == rest);
            }
        }
    }
}

/// The sum of the counts of a list of moves with their counts.
pub open spec fn total(parts: Seq<(Move, nat)>) -> nat
    decreases parts.len(),
{
    if parts.len() == 0 {
        0
    } else {
        total(parts.drop_last()) + parts.last().1
    }
}

/// A list of moves with their counts, the counts taken as natural numbers.
pub open spec fn as_parts(list: Seq<(Move, u64)>) -> Seq<(Move, nat)> {
    Seq::new(list.len(), |i: int| (list[i].0, list[i].1 as nat))
}

/// The sum of the counts grows with the list.
pub proof fn lemma_total_grows(parts: Seq<(Move, nat)>, n: int)
    requires
        0 <= n <= parts.len(),
    ensures
        total(parts.take(n)) <= total(parts),
    decreases parts.len(),
{
    if n < parts.len() {
        lemma_total_grows(parts.drop_last(), n);
        assert(parts.drop_last().take(n) == parts.take(n));
    } else {
        assert(parts.take(n) == parts);
    }
}

/// Counts the lines of play of `depth` moves from the position: the moves
/// are found, those that are not legal are left out, and each of the others
/// counts for one at a depth of one or less, and else for the lines of the
/// remaining depth from the position that it leads to. The board is the
/// same afterwards as before. The caller guarantees that the count fits in
/// 64 bits, which it does at any depth up to `MAX_DEPTH`, and that the
/// halfmove clock has room for the moves.
pub fn perft(board: &mut Board, depth: i32) -> (count: u64)
    requires
        old(board).wf(),
        old(board).nodes(depth as int) <= u64::MAX,
        old(board).state.halfmove + depth <= 255,
    ensures
        count == old(board).nodes(depth as int),
        final(board).wf(),
        final(board).state == old(board).state,
        final(board).color == old(board).color,
        final(board).stack@ == old(board).stack@,
        final(board).tables == old(board).tables,
    decreases depth,
{
    let moves = board.generate_moves();
    let n = moves.len();
    let ghost all = moves.moves();
    let ghost start = *board;
    let mut count: u64 = 0;
    let mut i: usize = 0;
    while i < n
        invariant
            i <= n,
            n == all.len(),
            all == moves.moves(),
            all == capped(start.generated(true, true)),
            start.wf(),
            start.nodes_upto(all, depth as int, n as int) <= u64::MAX,
            start.state.halfmove + depth <= 255,
            board.wf(),
            board.state == start.state,
            board.color == start.color,
            board.stack@ == start.stack@,
            board.tables == start.tables,
            count == start.nodes_upto(all, depth as int, i as int),
        decreases n - i,
    {
        let mv = moves.get(i).mv;
        let ghost before = *board;
        proof {
            start.lemma_nodes_grow(all, depth as int, i as int + 1, n as int);
            start.lemma_listed_fit(true, true, i as int);
            board.lemma_playable_frame(&start, mv);
            board.lemma_castling_room(mv);
        }
        if board.is_legal(mv) {
            if depth > 1 {
                board.make(mv);
                proof {
                    before.lemma_made_after(mv, board);
                    assert(before.after(mv).state == start.after(mv).state);
                    board.lemma_nodes_frame(&start.after(mv), depth as int - 1);
                }
                let ghost made = *board;
                let nodes = perft(board, depth - 1);
                board.unmake();
                proof {
                    assert(made.unmade(board));
                    assert(before.made(mv, &made));
                    lemma_unmake_restores(&before, mv, &made, board);
                }
                count = count + nodes;
            } else {
                count = count + 1;
            }
        }
        i += 1;
    }
    count
}

/// Counts the lines of play of `depth` moves from the position, if the
/// depth is one at which the count is sure to fit in 64 bits and the
/// halfmove clock has room for the moves; `None`, and no count, otherwise.
/// The board is the same afterwards as before.
pub fn try_perft(board: &mut Board, depth: i32) -> (r: Option<u64>)
    requires
        old(board).wf(),
    ensures
        r.is_some() == (depth <= MAX_DEPTH && old(board).state.halfmove + depth <= 255),
        r matches Some(count) ==> count == old(board).nodes(depth as int),
        final(board).wf(),
        final(board).state == old(board).state,
        final(board).color == old(board).color,
        final(board).stack@ == old(board).stack@,
        final(board).tables == old(board).tables,
{
    if depth > MAX_DEPTH || board.state.halfmove() as i32 + depth > 255 {
        return None;
    }
    proof {
        board.lemma_nodes_bound(Seq::empty(), depth as int, 0);
        lemma_limit_fits(depth as int);
    }
    Some(perft(board, depth))
}

/// Counts the lines of play of `depth` moves from the position, move by
/// move: the result holds the legal moves in the order in which they are
/// found, each with the number of lines that begin with it, which is one at
/// a depth of one or less. The counts add up to the count of the position.
/// The board is the same afterwards as before. The caller guarantees a
/// depth at which each count is sure to fit in 64 bits, and that the
/// halfmove clock has room for the moves.
pub fn perft_divide(board: &mut Board, depth: i32) -> (r: Vec<(Move, u64)>)
    requires
        old(board).wf(),
        depth <= MAX_DEPTH,
        old(board).state.halfmove + depth <= 255,
    ensures
        as_parts(r@) == old(board).divided(depth as int),
        total(as_parts(r@)) == old(board).nodes(depth as int),
        final(board).wf(),
        final(board).state == old(board).state,
        final(board).color == old(board).color,
        final(board).stack@ == old(board).stack@,
        final(board).tables == old(board).tables,
{
    let moves = board.generate_moves();
    let n = moves.len();
    let ghost all = moves.moves();
    let ghost start = *board;
    let mut parts: Vec<(Move, u64)> = Vec::new();
    let mut i: usize = 0;
    while i < n
        invariant
            i <= n,
            n == all.len(),
            all == moves.moves(),
            all == capped(start.generated(true, true)),
            start.wf(),
            depth <= MAX_DEPTH,
            start.state.halfmove + depth <= 255,
            board.wf(),
            board.state == start.state,
            board.color == start.color,
            board.stack@ == start.stack@,
            board.tables == start.tables,
            as_parts(parts@) == start.divided_upto(all, depth as int, i as int),
        decreases n - i,
    {
        let mv = moves.get(i).mv;
        let ghost before = *board;
        let ghost found = parts@;
        proof {
            start.lemma_listed_fit(true, true, i as int);
            board.lemma_playable_frame(&start, mv);
            board.lemma_castling_room(mv);
        }
        if board.is_legal(mv) {
            let mut nodes: u64 = 1;
            if depth > 1 {
                board.make(mv);
                proof {
                    before.lemma_made_after(mv, board);
                    assert(before.after(mv).state == start.after(mv).state);
                    board.lemma_nodes_frame(&start.after(mv), depth as int - 1);
                    board.lemma_nodes_bound(Seq::empty(), depth as int - 1, 0);
                    lemma_limit_fits(depth as int - 1);
                }
                let ghost made = *board;
                nodes = perft(board, depth - 1);
                board.unmake();
                proof {
                    assert(made.unmade(board));
                    assert(before.made(mv, &made));
                    lemma_unmake_restores(&before, mv, &made, board);
                }
            }
            parts.push((mv, nodes));
            proof {
                assert(as_parts(parts@) == as_parts(found).push(
                    (mv, start.lines_after(mv, depth as int)),
                ));
            }
        }
        i += 1;
    }
    proof {
        start.lemma_divided_total(depth as int);
    }
    parts
}

/// The sum of the counts of a list of moves with their counts, if it fits
/// in 64 bits; `None` otherwise.
pub fn sum_counts(parts: &Vec<(Move, u64)>) -> (r: Option<u64>)
    ensures
        r.is_some() == (total(as_parts(parts@)) <= u64::MAX),
        r matches Some(sum) ==> sum == total(as_parts(parts@)),
{
    let ghost all = as_parts(parts@);
    let mut sum: u64 = 0;
    let mut i: usize = 0;
    while i < parts.len()
        invariant
            i <= parts.len(),
            all == as_parts(parts@),
            sum == total(all.take(i as int)),
        decreases parts.len() - i,
    {
        let nodes = parts[i].1;
        proof {
            assert(all.take(i + 1).drop_last() == all.take(i as int));
            lemma_total_grows(all, i + 1);
        }
        if nodes > u64::MAX - sum {
            return None;
        }
        sum = sum + nodes;
        i += 1;
    }
    proof {
        assert(all.take(i as int) == all);
    }
    Some(sum)
}

} // verus!
