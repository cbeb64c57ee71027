use vstd::prelude::*;
use crate::attack::{king_hits, lemma_step_masks};
use crate::bitboard::many;
use crate::bits::{
    bit, lemma_bit_and, lemma_bit_nonzero, lemma_bit_single, lemma_bits_ext, single,
};
use crate::board::Board;
use crate::legal::{forward, pawn_span, piece_reach, push_rank};
use crate::mask::{between_has, line_has};
use crate::moves::{Move, MoveKind};
use crate::piece::{Piece, PieceKind};
use crate::safety::{
    lemma_blocked, lemma_blocker, lemma_occupied, lemma_safe, safe, slides, threatened,
};
use crate::sight::{
    clear_between, in_diagonal, in_line, lemma_between_turn, lemma_bishop_sees, lemma_blockers,
    lemma_rook_sees, pins, strikes,
};
use crate::tables::{between_bits, lemma_between_has};

verus! {

/// A word with a bit set and no two bits set has no other bit set.
pub proof fn lemma_only_bit(x: u64, a: int, b: int)
    requires
        0 <= a < 64,
        0 <= b < 64,
        !many(x),
        bit(x, a),
        bit(x, b),
    ensures
        a == b,
{
    if a < b {
        assert(0 <= a < b < 64 && bit(x, a) && bit(x, b));
    } else if b < a {
        assert(0 <= b < a < 64 && bit(x, b) && bit(x, a));
    }
}

/// A pawn, knight or king attacks from so near, or so far off any line,
/// that no square lies between it and what it attacks.
pub proof fn lemma_step_is_close(piece: Piece, s: int, t: int, occupied: u64, x: int)
    requires
        0 <= s < 64,
        0 <= t < 64,
        0 <= x < 64,
        !slides(piece.kind_spec()),
        strikes(piece, s, t, occupied),
    ensures
        !between_has(t, s, x),
        !between_has(s, t, x),
{
}

/// Four squares on one line: if `f` lies between `s` and `k`, and `t` lies
/// on the line through `f` and `k` but neither between `s` and `k` nor on
/// `s` or `k`, then `s` or `k` lies between `f` and `t`.
pub proof fn lemma_beyond(s: int, k: int, f: int, t: int)
    requires
        0 <= s < 64,
        0 <= k < 64,
        0 <= f < 64,
        0 <= t < 64,
        between_has(s, k, f),
        line_has(f, t, k),
        !between_has(s, k, t),
        t != s,
        t != k,
    ensures
        between_has(f, t, s) || between_has(f, t, k),
{
}

/// Whether two squares are neighbours.
pub open spec fn adjacent(a: int, b: int) -> bool {
    king_hits(a, b)
}

/// No square lies between two neighbours.
pub proof fn lemma_adjacent(a: int, b: int, x: int)
    requires
        0 <= a < 64,
        0 <= b < 64,
        0 <= x < 64,
        adjacent(a, b),
    ensures
        !between_has(a, b, x),
{
}

impl<'a> Board<'a> {
    /// A piece of the side to move that stands alone between its king and a
    /// slider of the other side, on a line that the slider moves along, is
    /// pinned.
    pub proof fn lemma_pinned(&self, s: int, from: int)
        requires
            self.wf(),
            self.state.has_king(self.color),
            0 <= s < 64,
            0 <= from < 64,
            self.state.mailbox[s] matches Some(piece) && piece.color_spec() == self.color.other()
                && match piece.kind_spec() {
                PieceKind::Bishop => in_diagonal(s, self.state.king_at(self.color)),
                PieceKind::Rook => in_line(s, self.state.king_at(self.color)),
                PieceKind::Queen => in_diagonal(s, self.state.king_at(self.color)) || in_line(
                    s,
                    self.state.king_at(self.color),
                ),
                _ => false,
            },
            self.state.mailbox[from] matches Some(piece) && piece.color_spec() == self.color,
            between_has(s, self.state.king_at(self.color), from),
            forall|y: int|
                0 <= y < 64 && between_has(s, self.state.king_at(self.color), y) && #[trigger] bit(
                    self.state.occupied_bits(),
                    y,
                ) ==> y == from,
        ensures
            bit(self.state.blockers[self.color.idx()].data, from),
    {
        let us = self.color;
        let king = self.state.king_at(us);
        let occ = self.state.occupied_bits();
        let way = between_bits(king, s) & occ;
        lemma_occupied(&self.state);
        assert forall|y: int| 0 <= y < 64 implies bit(way, y) == bit(single(from), y) by {
            lemma_bit_and(between_bits(king, s), occ, y);
            lemma_bit_single(from, y);
            lemma_between_has(king, s, y);
            assert(self.state.mailbox@[y] == self.state.mailbox[y]);
        }
        lemma_bits_ext(way, single(from));
        lemma_blockers(self, us, from);
        assert(0 <= s < 64 && pins(&self.state, us, s, from));
    }

    /// Where a pawn can go lies next to where it stands, or one square
    /// further, beyond an empty square.
    pub proof fn lemma_pawn_walk(&self, from: int, to: int)
        requires
            0 <= from < 64,
            0 <= to < 64,
            bit(
                pawn_span(self.color, from, self.state.occupied_bits(), self.enemy_bits()),
                to,
            ),
        ensures
            adjacent(from, to) || exists|mid: int|
                0 <= mid < 64 && !bit(self.state.occupied_bits(), mid) && #[trigger] adjacent(
                    from,
                    mid,
                ) && forall|x: int| 0 <= x < 64 && between_has(from, to, x) ==> x == mid,
    {
        let us = self.color;
        let occ = self.state.occupied_bits();
        let north = forward(us);
        let push = crate::bitboard::shifted(single(from), north) & !occ;
        let double_push = crate::bitboard::shifted(push & push_rank(us), north) & !occ;
        let capture = crate::attack::pawn_mask(us, from) & self.enemy_bits();
        crate::bits::lemma_bit_or(push | double_push, capture, to);
        crate::bits::lemma_bit_or(push, double_push, to);
        lemma_bit_and(crate::bitboard::shifted(single(from), north), !occ, to);
        crate::bitboard::lemma_shifted_bits(single(from), north, to);
        lemma_bit_and(crate::attack::pawn_mask(us, from), self.enemy_bits(), to);
        lemma_step_masks(from, to);
        let back = to - crate::movegen::stride(north);
        if 0 <= back < 64 {
            lemma_bit_single(from, back);
        }
        if !adjacent(from, to) {
            lemma_bit_and(crate::bitboard::shifted(push & push_rank(us), north), !occ, to);
            crate::bitboard::lemma_shifted_bits(push & push_rank(us), north, to);
            let mid = back;
            lemma_bit_and(push, push_rank(us), mid);
            lemma_bit_and(crate::bitboard::shifted(single(from), north), !occ, mid);
            crate::bitboard::lemma_shifted_bits(single(from), north, mid);
            crate::bits::lemma_bit_not(occ, mid);
            let first = mid - crate::movegen::stride(north);
            if 0 <= first < 64 {
                lemma_bit_single(from, first);
            }
            assert(adjacent(from, mid));
            assert forall|x: int| 0 <= x < 64 && between_has(from, to, x) implies x == mid by {}
        }
    }

    /// A move of a knight, bishop, rook or queen to a square that the piece
    /// attacks, or of a pawn within its span, passes over no occupied square,
    /// and a knight's move joins two squares that share no line.
    pub proof fn lemma_walk_is_clear(&self, from: int, to: int, x: int)
        requires
            self.wf(),
            0 <= from < 64,
            0 <= to < 64,
            0 <= x < 64,
            self.state.mailbox[from] is Some,
            ({
                let kind = self.state.mailbox[from].unwrap().kind_spec();
                &&& kind != PieceKind::King
                &&& if kind == PieceKind::Pawn {
                    bit(
                        pawn_span(
                            self.color,
                            from,
                            self.state.occupied_bits(),
                            self.enemy_bits(),
                        ),
                        to,
                    )
                } else {
                    bit(piece_reach(kind, from, self.state.occupied_bits()), to)
                }
            }),
            between_has(from, to, x),
        ensures
            !bit(self.state.occupied_bits(), x),
            self.state.mailbox[from].unwrap().kind_spec() != PieceKind::Knight,
    {
        let kind = self.state.mailbox[from].unwrap().kind_spec();
        let occ = self.state.occupied_bits();
        if kind == PieceKind::Pawn {
            self.lemma_pawn_walk(from, to);
            if adjacent(from, to) {
                lemma_adjacent(from, to, x);
            }
        } else {
            lemma_step_masks(from, to);
            lemma_bishop_sees(from, occ, to);
            lemma_rook_sees(from, occ, to);
            crate::bits::lemma_bit_or(
                crate::attack::bishop_reach(from, occ),
                crate::attack::rook_reach(from, occ),
                to,
            );
            crate::bits::lemma_bit_zero(to);
            if bit(occ, x) {
                lemma_blocked(from, to, x, occ);
            }
        }
    }
}

impl<'a> Board<'a> {
    /// Whether a move of a piece that is no king, and that neither castles
    /// nor captures in passing, meets what the tests for such a move ask: its
    /// destination holds no piece of the mover's side; the king is not in
    /// double check; in single check the destination is the checker's square
    /// or lies between the checker and the king; the piece can walk there;
    /// and if it is pinned, it stays in line with the king.
    pub open spec fn walks(&self, from: int, to: int) -> bool {
        let us = self.color;
        let king = self.state.king_at(us);
        let occ = self.state.occupied_bits();
        let checkers = self.state.checkers.data;
        let kind = self.state.mailbox[from].unwrap().kind_spec();
        &&& !bit(self.own_bits(), to)
        &&& !many(checkers)
        &&& (checkers != 0 ==> bit(
            between_bits(king, crate::bits::lowest(checkers)) | checkers,
            to,
        ))
        &&& if kind == PieceKind::Pawn {
            bit(pawn_span(us, from, occ, self.enemy_bits()), to)
        } else {
            bit(piece_reach(kind, from, occ), to)
        }
        &&& (bit(self.state.blockers[us.idx()].data, from) ==> bit(
            crate::tables::line_bits(from, to),
            king,
        ))
    }

    /// A move that is pseudo-legal and legal, of a piece that is no king
    /// and that neither castles nor captures in passing, meets what the
    /// tests for such a move ask.
    pub proof fn lemma_walks(&self, mv: Move)
        requires
            self.wf(),
            self.one_king(),
            self.pseudo_legal(mv),
            self.legal(mv),
            self.state.mailbox[mv.from_spec().idx()] is Some,
            self.state.mailbox[mv.from_spec().idx()].unwrap().kind_spec() != PieceKind::King,
            mv.kind_spec() != MoveKind::Castling,
            mv.kind_spec() != MoveKind::Enpassant,
        ensures
            self.walks(mv.from_spec().idx(), mv.to_spec().idx()),
    {
        reveal(Board::pseudo_legal);
        reveal(Board::legal);
        let us = self.color;
        let from = mv.from_spec().idx();
        let to = mv.to_spec().idx();
        let king = self.state.king_at(us);
        crate::square::lemma_square_of_idx(mv.from_spec());
        crate::square::lemma_square_of_idx(mv.to_spec());
        let line = crate::tables::line_bits(from, to);
        let kings = line & self.state.pieces[5].data & self.own_bits();
        if kings != 0 {
            crate::bits::lemma_nonzero_bit(kings);
            let y = choose|y: int| 0 <= y < 64 && bit(kings, y);
            lemma_bit_and(line & self.state.pieces[5].data, self.own_bits(), y);
            lemma_bit_and(line, self.state.pieces[5].data, y);
            self.lemma_cell(y);
            crate::piece::lemma_piece_parts(self.state.mailbox[y].unwrap());
            assert(self.state.mailbox@[y] == Some(Piece::make(PieceKind::King, us)));
            assert(y == king);
        }
    }

    /// After a move that walks, no pawn, knight or king of the other side
    /// attacks the king.
    proof fn lemma_no_stepper(&self, from: int, to: int, s: int)
        requires
            self.wf(),
            self.state.has_king(self.color),
            0 <= from < 64,
            0 <= to < 64,
            0 <= s < 64,
            self.state.mailbox[from] is Some,
            self.walks(from, to),
            s != to,
            self.state.mailbox[s] matches Some(piece) && piece.color_spec() == self.color.other()
                && !slides(piece.kind_spec()),
        ensures
            !strikes(
                self.state.mailbox[s].unwrap(),
                s,
                self.state.king_at(self.color),
                self.state.occupied_bits(),
            ),
    {
        let us = self.color;
        let king = self.state.king_at(us);
        let checkers = self.state.checkers.data;
        let piece = self.state.mailbox[s].unwrap();
        if strikes(piece, s, king, self.state.occupied_bits()) {
            self.lemma_striker_checks(s);
            lemma_bit_nonzero(checkers, s);
            crate::bits::lemma_lowest(checkers);
            let c = crate::bits::lowest(checkers);
            lemma_only_bit(checkers, s, c);
            crate::bits::lemma_bit_or(between_bits(king, s), checkers, to);
            if bit(checkers, to) {
                lemma_only_bit(checkers, s, to);
            } else {
                lemma_between_has(king, s, to);
                crate::bits::lemma_lowest(self.state.king_bits(us));
                lemma_step_is_close(piece, s, king, self.state.occupied_bits(), to);
            }
        }
    }

    /// After a move that walks, no slider of the other side attacks the
    /// king.
    proof fn lemma_no_slider(&self, from: int, to: int, s: int, then: u64)
        requires
            self.wf(),
            self.state.has_king(self.color),
            0 <= from < 64,
            0 <= to < 64,
            0 <= s < 64,
            from != to,
            self.state.mailbox[from] matches Some(piece) && piece.color_spec() == self.color
                && piece.kind_spec() != PieceKind::King,
            self.walks(from, to),
            s != to,
            to != self.state.king_at(self.color),
            forall|x: int|
                0 <= x < 64 ==> #[trigger] bit(then, x) == (x == to || (x != from
                    && self.state.mailbox@[x].is_some())),
            self.state.mailbox[s] matches Some(piece) && piece.color_spec() == self.color.other()
                && slides(piece.kind_spec()),
        ensures
            !strikes(self.state.mailbox[s].unwrap(), s, self.state.king_at(self.color), then),
    {
        let us = self.color;
        let king = self.state.king_at(us);
        let occ = self.state.occupied_bits();
        let checkers = self.state.checkers.data;
        let piece = self.state.mailbox[s].unwrap();
        crate::bits::lemma_lowest(self.state.king_bits(us));
        lemma_occupied(&self.state);
        lemma_between_turn(s, king);
        if !strikes(piece, s, king, then) {
        } else if clear_between(s, king, occ) {
            // The slider gives check; the move takes it or steps in its way.
            self.lemma_striker_checks(s);
            lemma_bit_nonzero(checkers, s);
            crate::bits::lemma_lowest(checkers);
            lemma_only_bit(checkers, s, crate::bits::lowest(checkers));
            crate::bits::lemma_bit_or(between_bits(king, s), checkers, to);
            if bit(checkers, to) {
                lemma_only_bit(checkers, s, to);
            } else {
                lemma_between_has(king, s, to);
                lemma_between_has(s, king, to);
                lemma_blocked(s, king, to, then);
            }
        } else {
            // The slider was blocked, so the mover alone stood in its way.
            let x = lemma_blocker(s, king, occ);
            if x != from {
                assert(bit(then, x));
                lemma_blocked(s, king, x, then);
            }
            assert forall|y: int|
                0 <= y < 64 && between_has(s, king, y) && #[trigger] bit(occ, y) implies y
                == from by {
                if y != from {
                    assert(bit(then, y));
                    lemma_blocked(s, king, y, then);
                }
            }
            if between_has(s, king, to) {
                lemma_blocked(s, king, to, then);
            }
            assert(between_has(s, king, from));
            self.lemma_pinned(s, from);
            crate::tables::lemma_line_has(from, to, king);
            lemma_beyond(s, king, from, to);
            assert(self.state.mailbox@[s].is_some());
            assert(bit(occ, s));
            self.lemma_own_king();
            self.lemma_cell(king);
            assert(bit(occ, king));
            if between_has(from, to, s) {
                self.lemma_walk_is_clear(from, to, s);
            } else {
                self.lemma_walk_is_clear(from, to, king);
            }
        }
    }

    /// A move that is pseudo-legal and legal, of a piece that is no king
    /// and that neither castles nor captures in passing, leaves the king on
    /// a square that no piece of the other side attacks.
    pub proof fn lemma_walk_safe(&self, mv: Move, after: &Board<'a>)
        requires
            self.wf(),
            self.one_king(),
            self.made(mv, after),
            self.pseudo_legal(mv),
            self.legal(mv),
            self.state.mailbox[mv.from_spec().idx()] matches Some(piece) && piece.color_spec()
                == self.color && piece.kind_spec() != PieceKind::King,
            mv.kind_spec() != MoveKind::Castling,
            mv.kind_spec() != MoveKind::Enpassant,
        ensures
            safe(&after.state, self.color),
    {
        let us = self.color;
        let from = mv.from_spec().idx();
        let to = mv.to_spec().idx();
        let king = self.state.king_at(us);
        let cells = self.state.mailbox@;
        let next = after.state.mailbox@;
        let then = after.state.occupied_bits();
        crate::square::lemma_square_of_idx(mv.from_spec());
        crate::square::lemma_square_of_idx(mv.to_spec());
        crate::bits::lemma_lowest(self.state.king_bits(us));
        self.lemma_walks(mv);
        self.lemma_cell(to);
        self.lemma_cell(from);
        lemma_occupied(&after.state);
        assert(cells[king] == Some(Piece::make(PieceKind::King, us)));
        crate::piece::lemma_piece_parts(Piece::make(PieceKind::King, us));
        assert forall|s: int| 0 <= s < 64 implies (#[trigger] next[s] == Some(
            Piece::make(PieceKind::King, us),
        )) == (s == king) by {
            self.lemma_plain_cells(mv, s);
            assert(cells[s] == self.state.mailbox@[s]);
            crate::piece::lemma_piece_parts(next[to].unwrap());
        }
        assert forall|x: int| 0 <= x < 64 implies #[trigger] bit(then, x) == (x == to || (x
            != from && cells[x].is_some())) by {
            self.lemma_plain_cells(mv, x);
        }
        if threatened(next, us, king, then) {
            let s = choose|s: int|
                0 <= s < 64 && (#[trigger] next[s] matches Some(piece) && piece.color_spec()
                    == us.other() && strikes(piece, s, king, then));
            let piece = next[s].unwrap();
            self.lemma_plain_cells(mv, s);
            crate::piece::lemma_piece_parts(next[to].unwrap());
            assert(s != to);
            assert(self.state.mailbox[s] == Some(piece));
            if slides(piece.kind_spec()) {
                self.lemma_no_slider(from, to, s, then);
            } else {
                self.lemma_no_stepper(from, to, s);
            }
        }
        lemma_safe(&after.state, us, king);
    }

    /// Whether a move is one for which the tests of a move are made: the
    /// side to move has one king, and a capture in passing arises from a
    /// position in which it can.
    pub open spec fn regular(&self, mv: Move) -> bool {
        &&& self.one_king()
        &&& (mv.kind_spec() == MoveKind::Enpassant ==> self.passing_regular(mv.to_spec()))
    }

    /// A move that is pseudo-legal and legal never leaves the mover's king
    /// on a square that a piece of the other side attacks.
    pub proof fn lemma_legal_is_safe(&self, mv: Move, after: &Board<'a>)
        requires
            self.wf(),
            self.regular(mv),
            self.pseudo_legal(mv),
            self.legal(mv),
            self.made(mv, after),
        ensures
            safe(&after.state, self.color),
    {
        let piece = self.state.mailbox[mv.from_spec().idx()].unwrap();
        self.lemma_fitting_mover(mv);
        crate::piece::lemma_piece_parts(piece);
        if mv.kind_spec() == MoveKind::Castling {
            self.lemma_castling_safe(mv, after);
        } else if piece.kind_spec() == PieceKind::King {
            self.lemma_king_step_safe(mv, after);
        } else if mv.kind_spec() == MoveKind::Enpassant {
            assert(piece.kind_spec() == PieceKind::Pawn) by {
                reveal(Board::pseudo_legal);
                crate::bitboard::lemma_many(self.state.checkers.data);
            }
            self.lemma_passing_safe(mv, after);
        } else {
            self.lemma_walk_safe(mv, after);
        }
    }
}

} // verus!
