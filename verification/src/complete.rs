use vstd::prelude::*;
use crate::bits::{
    bit, lemma_bit_and, lemma_bit_nonzero, lemma_bit_single, lemma_bit_xor, lemma_lowest,
    lemma_nonzero_bit, single,
};
use crate::board::{Board, State};
use crate::castle::CastleKind;
use crate::color::Color;
use crate::mask::{between_has, line_has};
use crate::moves::{Move, MoveKind};
use crate::piece::{lemma_piece_parts, Piece, PieceKind};
use crate::safety::{
    lemma_attacked, lemma_blocked, lemma_blocker, lemma_occupied, lemma_strikes_kept, safe,
    slides, threatened,
};
use crate::sight::{lemma_attackers, lemma_between_turn, lemma_blockers, pins, strikes};
use crate::tables::{between_bits, lemma_between_has, lemma_line_has, line_bits};

verus! {

/// A side whose one king stands on a square that a piece of the other side
/// attacks is not safe.
pub proof fn lemma_unsafe(state: &State, color: Color, king: int, s: int)
    requires
        state.board_ok(),
        0 <= king < 64,
        0 <= s < 64,
        forall|x: int|
            0 <= x < 64 ==> (#[trigger] state.mailbox@[x] == Some(
                Piece::make(PieceKind::King, color),
            )) == (x == king),
        state.mailbox[s] matches Some(piece) && piece.color_spec() == color.other() && strikes(
            piece,
            s,
            king,
            state.occupied_bits(),
        ),
    ensures
        !safe(state, color),
{
    let kings = state.king_bits(color);
    assert forall|x: int| 0 <= x < 64 implies bit(kings, x) == (x == king) by {
        lemma_bit_and(state.pieces[5].data, state.colors[color.idx()].data, x);
        assert(state.mailbox@[x] == state.mailbox[x]);
        assert(bit(state.pieces[5].data, x) == (state.mailbox[x] matches Some(p)
            && p.kind_spec().idx() == 5));
        assert(bit(state.colors[color.idx()].data, x) == (state.mailbox[x] matches Some(p)
            && p.color_spec().idx() == color.idx()));
        if state.mailbox[x] is Some {
            lemma_piece_parts(state.mailbox[x].unwrap());
        }
    }
    lemma_bit_nonzero(kings, king);
    lemma_lowest(kings);
    lemma_attackers(state, king, state.occupied_bits(), s);
    lemma_bit_and(
        state.attackers_of(king, state.occupied_bits()),
        state.colors[color.other().idx()].data,
        s,
    );
    assert(bit(state.colors[color.other().idx()].data, s) == (state.mailbox[s] matches Some(p)
        && p.color_spec().idx() == color.other().idx()));
    lemma_bit_nonzero(state.checkers_of(color), s);
}

impl<'a> Board<'a> {
    /// Whether a castling move starts from a position in which it can
    /// arise: the rook of the side to move stands in its corner.
    pub open spec fn castling_regular(&self, mv: Move) -> bool {
        mv.kind_spec() == MoveKind::Castling ==> self.state.mailbox@[CastleKind::of(
            self.color,
            mv.to_spec().idx() > mv.from_spec().idx(),
        ).rook_from_spec().idx()] == Some(Piece::make(PieceKind::Rook, self.color))
    }

    /// A step of the king to a square on which it is safe passes the test
    /// of legality.
    pub proof fn lemma_king_step_legal(&self, mv: Move, after: &Board<'a>)
        requires
            self.wf(),
            self.one_king(),
            self.made(mv, after),
            self.pseudo_legal(mv),
            safe(&after.state, self.color),
            self.state.mailbox[mv.from_spec().idx()] == Some(
                Piece::make(PieceKind::King, self.color),
            ),
            mv.kind_spec() != MoveKind::Castling,
        ensures
            self.legal(mv),
    {
        reveal(Board::pseudo_legal);
        reveal(Board::legal);
        let us = self.color;
        let from = mv.from_spec().idx();
        let to = mv.to_spec().idx();
        let cells = self.state.mailbox@;
        let next = after.state.mailbox@;
        let occ = self.state.occupied_bits();
        let gone = occ ^ single(from);
        let then = after.state.occupied_bits();
        crate::square::lemma_square_of_idx(mv.from_spec());
        crate::square::lemma_square_of_idx(mv.to_spec());
        lemma_piece_parts(Piece::make(PieceKind::King, us));
        crate::attack::lemma_step_masks(from, to);
        assert(mv.kind_spec() == MoveKind::Normal);
        lemma_occupied(&self.state);
        lemma_occupied(&after.state);
        lemma_attacked(&self.state, to, us, gone);
        assert forall|x: int| 0 <= x < 64 implies (#[trigger] next[x] == Some(
            Piece::make(PieceKind::King, us),
        )) == (x == to) by {
            self.lemma_plain_cells(mv, x);
            assert(cells[x] == self.state.mailbox@[x]);
        }
        if threatened(cells, us, to, gone) {
            let s = choose|s: int|
                0 <= s < 64 && (#[trigger] cells[s] matches Some(piece) && piece.color_spec()
                    == us.other() && strikes(piece, s, to, gone));
            let piece = cells[s].unwrap();
            self.lemma_plain_cells(mv, s);
            assert(next[s] == Some(piece));
            assert forall|x: int|
                0 <= x < 64 && between_has(s, to, x) && bit(then, x) implies #[trigger] bit(
                gone,
                x,
            ) by {
                lemma_bit_xor(occ, single(from), x);
                lemma_bit_single(from, x);
                self.lemma_plain_cells(mv, x);
            }
            lemma_strikes_kept(piece, s, to, then, gone);
            assert(after.state.mailbox[s] == Some(piece));
            lemma_unsafe(&after.state, us, to, s);
        }
    }
}

impl<'a> Board<'a> {
    /// A castling move that takes the king over no attacked square to a
    /// square on which it is safe passes the test of legality.
    #[verifier::rlimit(30)]
    pub proof fn lemma_castling_legal(&self, mv: Move, after: &Board<'a>)
        requires
            self.wf(),
            self.one_king(),
            self.castling_regular(mv),
            self.made(mv, after),
            self.pseudo_legal(mv),
            safe(&after.state, self.color),
            mv.kind_spec() == MoveKind::Castling,
            !self.state.attacked(
                CastleKind::of(
                    self.color,
                    mv.to_spec().idx() > mv.from_spec().idx(),
                ).rook_to_spec().idx(),
                self.color,
                self.state.occupied_bits(),
            ),
        ensures
            self.legal(mv),
    {
        reveal(Board::legal);
        let us = self.color;
        let from = mv.from_spec().idx();
        let to = mv.to_spec().idx();
        let cells = self.state.mailbox@;
        let next = after.state.mailbox@;
        let occ = self.state.occupied_bits();
        let then = after.state.occupied_bits();
        let castle = crate::legal::castle_to(mv.to_spec()).unwrap();
        let rook_to = castle.rook_to_spec().idx();
        let rook_from = castle.rook_from_spec().idx();
        self.lemma_castling_cells(mv, 0);
        self.lemma_castling_room(mv);
        lemma_piece_parts(Piece::make(PieceKind::King, us));
        lemma_piece_parts(Piece::make(PieceKind::Rook, us));
        lemma_occupied(&self.state);
        lemma_occupied(&after.state);
        lemma_attacked(&self.state, to, us, occ);
        assert forall|x: int| 0 <= x < 64 implies (#[trigger] next[x] == Some(
            Piece::make(PieceKind::King, us),
        )) == (x == to) by {
            self.lemma_castling_cells(mv, x);
            assert(cells[x] == self.state.mailbox@[x]);
        }
        if threatened(cells, us, to, occ) {
            let s = choose|s: int|
                0 <= s < 64 && (#[trigger] cells[s] matches Some(piece) && piece.color_spec()
                    == us.other() && strikes(piece, s, to, occ));
            let piece = cells[s].unwrap();
            self.lemma_castling_cells(mv, s);
            self.lemma_castling_cells(mv, to);
            self.lemma_castling_cells(mv, rook_to);
            self.lemma_gap(mv, to);
            self.lemma_gap(mv, rook_to);
            assert(next[s] == Some(piece));
            if between_bits(s, to) & then != 0 {
                let x = lemma_blocker(s, to, then);
                self.lemma_castling_cells(mv, x);
                if x == rook_to {
                    assert(between_has(s, to, from));
                    assert(bit(occ, from));
                    lemma_blocked(s, to, from, occ);
                } else {
                    lemma_blocked(s, to, x, occ);
                }
            }
            assert(after.state.mailbox[s] == Some(piece));
            lemma_unsafe(&after.state, us, to, s);
        }
    }

    /// Before a castling move that fits, the squares on which king and rook
    /// land are empty.
    proof fn lemma_gap(&self, mv: Move, x: int)
        requires
            self.wf(),
            self.pseudo_legal(mv),
            mv.kind_spec() == MoveKind::Castling,
            ({
                let castle = CastleKind::of(
                    self.color,
                    mv.to_spec().idx() > mv.from_spec().idx(),
                );
                x == castle.king_to_spec().idx() || x == castle.rook_to_spec().idx()
            }),
        ensures
            self.state.mailbox@[x].is_none(),
    {
        reveal(Board::pseudo_legal);
        crate::bitboard::lemma_many(self.state.checkers.data);
        let from = mv.from_spec();
        let castle = crate::legal::castle_to(mv.to_spec()).unwrap();
        let gap = between_bits(from.idx(), castle.rook_from_spec().idx());
        lemma_between_has(from.idx(), castle.rook_from_spec().idx(), x);
        lemma_bit_and(gap, self.state.occupied_bits(), x);
        crate::bits::lemma_bit_zero(x);
        lemma_occupied(&self.state);
    }

    /// A capture in passing after which the king is safe passes the test of
    /// legality.
    pub proof fn lemma_passing_legal(&self, mv: Move, after: &Board<'a>)
        requires
            self.wf(),
            self.one_king(),
            self.made(mv, after),
            self.pseudo_legal(mv),
            safe(&after.state, self.color),
            mv.kind_spec() == MoveKind::Enpassant,
            self.state.mailbox[mv.from_spec().idx()] == Some(
                Piece::make(PieceKind::Pawn, self.color),
            ),
            self.passing_regular(mv.to_spec()),
        ensures
            self.legal(mv),
    {
        let us = self.color;
        let from = mv.from_spec().idx();
        let to = mv.to_spec().idx();
        let captured = self.passed(to);
        let king = self.state.king_at(us);
        let cells = self.state.mailbox@;
        let next = after.state.mailbox@;
        let then = after.state.occupied_bits();
        crate::square::lemma_square_of_idx(mv.from_spec());
        crate::square::lemma_square_of_idx(mv.to_spec());
        crate::square::lemma_square_of_idx(mv.to_spec().behind());
        lemma_piece_parts(Piece::make(PieceKind::Pawn, us));
        lemma_piece_parts(Piece::make(PieceKind::Pawn, us.other()));
        lemma_piece_parts(Piece::make(PieceKind::King, us));
        lemma_occupied(&self.state);
        lemma_occupied(&after.state);
        lemma_lowest(self.state.king_bits(us));
        assert(from != to && captured != to && captured != from);
        assert forall|x: int| 0 <= x < 64 implies (#[trigger] next[x] == Some(
            Piece::make(PieceKind::King, us),
        )) == (x == king) by {
            self.lemma_passing_cells(mv, x);
            assert(cells[x] == self.state.mailbox@[x]);
        }
        assert forall|x: int| 0 <= x < 64 implies #[trigger] bit(then, x) == (x == to || (x
            != from && x != captured && cells[x].is_some())) by {
            self.lemma_passing_cells(mv, x);
        }
        self.lemma_passing_seen(from, to, then);
        if !self.passing_tested(mv, then) {
            let s = self.lemma_passing_striker(king, then);
            self.lemma_passing_cells(mv, s);
            assert(after.state.mailbox[s] == self.state.mailbox[s]);
            lemma_unsafe(&after.state, us, king, s);
        }
        assert(self.legal(mv)) by {
            reveal(Board::legal);
            reveal(Board::pseudo_legal);
            crate::bitboard::lemma_many(self.state.checkers.data);
        }
    }

    /// A slider that the test of a capture in passing finds is a slider of
    /// the other side that attacks the king.
    proof fn lemma_passing_striker(&self, king: int, then: u64) -> (s: int)
        requires
            self.state.board_ok(),
            0 <= king < 64,
            !({
                &&& crate::attack::bishop_reach(king, then) & self.enemy_bits()
                    & self.state.diagonal_bits() == 0
                &&& crate::attack::rook_reach(king, then) & self.enemy_bits()
                    & self.state.straight_bits() == 0
            }),
        ensures
            0 <= s < 64,
            self.state.mailbox[s] matches Some(piece) && piece.color_spec() == self.color.other()
                && slides(piece.kind_spec()) && strikes(piece, s, king, then),
    {
        let them = self.enemy_bits();
        let diagonal = crate::attack::bishop_reach(king, then) & them
            & self.state.diagonal_bits();
        let straight = crate::attack::rook_reach(king, then) & them & self.state.straight_bits();
        let word = if diagonal != 0 {
            diagonal
        } else {
            straight
        };
        lemma_nonzero_bit(word);
        let s = choose|s: int| 0 <= s < 64 && bit(word, s);
        lemma_bit_and(crate::attack::bishop_reach(king, then) & them, self.state.diagonal_bits(), s);
        lemma_bit_and(crate::attack::bishop_reach(king, then), them, s);
        lemma_bit_and(crate::attack::rook_reach(king, then) & them, self.state.straight_bits(), s);
        lemma_bit_and(crate::attack::rook_reach(king, then), them, s);
        crate::bits::lemma_bit_or(self.state.pieces[2].data, self.state.pieces[4].data, s);
        crate::bits::lemma_bit_or(self.state.pieces[3].data, self.state.pieces[4].data, s);
        crate::sight::lemma_bishop_sees(king, then, s);
        crate::sight::lemma_rook_sees(king, then, s);
        lemma_between_turn(s, king);
        assert(bit(self.state.pieces[2].data, s) == (self.state.mailbox[s] matches Some(p)
            && p.kind_spec().idx() == 2));
        assert(bit(self.state.pieces[3].data, s) == (self.state.mailbox[s] matches Some(p)
            && p.kind_spec().idx() == 3));
        assert(bit(self.state.pieces[4].data, s) == (self.state.mailbox[s] matches Some(p)
            && p.kind_spec().idx() == 4));
        assert(bit(self.state.colors[self.color.other().idx()].data, s) == (
        self.state.mailbox[s] matches Some(p) && p.color_spec().idx() == self.color.other().idx()));
        s
    }
}

/// Three squares between which lie two others on one line: a square
/// between `k` and `q`, or `q` itself, lies on the line through `k` and any
/// other square between `k` and `q`.
proof fn lemma_same_line(k: int, q: int, f: int, t: int)
    requires
        0 <= k < 64,
        0 <= q < 64,
        0 <= f < 64,
        0 <= t < 64,
        between_has(k, q, f),
        t == q || between_has(k, q, t),
        t != f,
    ensures
        line_has(f, t, k),
{
}

impl<'a> Board<'a> {
    /// A move of a pawn, no capture in passing, after which the king is safe
    /// passes the test of legality.
    #[verifier::rlimit(30)]
    pub proof fn lemma_pawn_legal(&self, mv: Move, after: &Board<'a>)
        requires
            self.wf(),
            self.one_king(),
            self.made(mv, after),
            self.pseudo_legal(mv),
            safe(&after.state, self.color),
            self.state.mailbox[mv.from_spec().idx()] == Some(
                Piece::make(PieceKind::Pawn, self.color),
            ),
            mv.kind_spec() != MoveKind::Castling,
            mv.kind_spec() != MoveKind::Enpassant,
        ensures
            self.legal(mv),
    {
        let us = self.color;
        let from = mv.from_spec().idx();
        let to = mv.to_spec().idx();
        let king = self.state.king_at(us);
        let cells = self.state.mailbox@;
        let next = after.state.mailbox@;
        let occ = self.state.occupied_bits();
        let then = after.state.occupied_bits();
        let blockers = self.state.blockers[us.idx()].data;
        let line = line_bits(from, to);
        crate::square::lemma_square_of_idx(mv.from_spec());
        crate::square::lemma_square_of_idx(mv.to_spec());
        lemma_piece_parts(Piece::make(PieceKind::Pawn, us));
        lemma_piece_parts(Piece::make(PieceKind::King, us));
        lemma_occupied(&self.state);
        lemma_occupied(&after.state);
        lemma_lowest(self.state.king_bits(us));
        self.lemma_own_king();
        self.lemma_cell(king);
        self.lemma_cell(to);
        assert(!bit(self.own_bits(), to) && from != to) by {
            reveal(Board::pseudo_legal);
            self.lemma_cell(from);
        }
        if bit(blockers, from) && line & self.state.pieces[5].data & self.own_bits() == 0 {
            if bit(line, king) {
                lemma_bit_and(line & self.state.pieces[5].data, self.own_bits(), king);
                lemma_bit_and(line, self.state.pieces[5].data, king);
                lemma_bit_nonzero(line & self.state.pieces[5].data & self.own_bits(), king);
            }
            lemma_line_has(from, to, king);
            lemma_blockers(self, us, from);
            let q = choose|q: int| 0 <= q < 64 && #[trigger] pins(&self.state, us, q, from);
            let gap = between_bits(king, q);
            lemma_bit_single(from, from);
            lemma_bit_and(gap, occ, from);
            lemma_between_has(king, q, from);
            assert(between_has(king, q, from));
            assert forall|x: int| 0 <= x < 64 implies #[trigger] bit(then, x) == (x == to || (x
                != from && cells[x].is_some())) by {
                self.lemma_plain_cells(mv, x);
            }
            if to == q {
                lemma_same_line(king, q, from, to);
            }
            if gap & then != 0 {
                let x = lemma_blocker(king, q, then);
                if x == to {
                    lemma_same_line(king, q, from, to);
                } else {
                    assert(bit(occ, x));
                    lemma_between_has(king, q, x);
                    lemma_bit_and(gap, occ, x);
                    lemma_bit_single(from, x);
                }
            }
            lemma_between_turn(q, king);
            assert forall|x: int| 0 <= x < 64 implies (#[trigger] next[x] == Some(
                Piece::make(PieceKind::King, us),
            )) == (x == king) by {
                self.lemma_plain_cells(mv, x);
                assert(cells[x] == self.state.mailbox@[x]);
                lemma_piece_parts(next[to].unwrap());
            }
            self.lemma_plain_cells(mv, q);
            assert(after.state.mailbox[q] == self.state.mailbox[q]);
            lemma_unsafe(&after.state, us, king, q);
        }
        assert(self.legal(mv)) by {
            reveal(Board::legal);
        }
    }

    /// A pseudo-legal move after which the mover's king is safe, and which,
    /// if it castles, takes the king over no attacked square, passes the test
    /// of legality.
    pub proof fn lemma_safe_is_legal(&self, mv: Move, after: &Board<'a>)
        requires
            self.wf(),
            self.regular(mv),
            self.castling_regular(mv),
            self.pseudo_legal(mv),
            self.made(mv, after),
            safe(&after.state, self.color),
            mv.kind_spec() == MoveKind::Castling ==> !self.state.attacked(
                CastleKind::of(
                    self.color,
                    mv.to_spec().idx() > mv.from_spec().idx(),
                ).rook_to_spec().idx(),
                self.color,
                self.state.occupied_bits(),
            ),
        ensures
            self.legal(mv),
    {
        let piece = self.state.mailbox[mv.from_spec().idx()].unwrap();
        self.lemma_fitting_mover(mv);
        lemma_piece_parts(piece);
        if mv.kind_spec() == MoveKind::Castling {
            self.lemma_castling_legal(mv, after);
        } else if piece.kind_spec() == PieceKind::King {
            self.lemma_king_step_legal(mv, after);
        } else if mv.kind_spec() == MoveKind::Enpassant {
            assert(piece.kind_spec() == PieceKind::Pawn) by {
                reveal(Board::pseudo_legal);
                crate::bitboard::lemma_many(self.state.checkers.data);
            }
            self.lemma_passing_legal(mv, after);
        } else if piece.kind_spec() == PieceKind::Pawn {
            self.lemma_pawn_legal(mv, after);
        } else {
            reveal(Board::legal);
        }
    }
}

} // verus!
