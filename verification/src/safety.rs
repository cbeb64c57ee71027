use vstd::prelude::*;
use crate::attack::{
    bishop_reach, king_mask, knight_mask, lemma_step_masks, pawn_mask, rook_reach,
};
use crate::bits::{
    bit, lemma_bit_and, lemma_bit_nonzero, lemma_bit_or, lemma_bit_single, lemma_bit_xor,
    lemma_lowest, lemma_nonzero_bit, single,
};
use crate::board::{Board, State};
use crate::color::Color;
use crate::mask::between_has;
use crate::moves::{Move, MoveKind};
use crate::piece::{lemma_piece_parts, Piece, PieceKind};
use crate::sight::{
    lemma_attackers, lemma_between_turn, lemma_bishop_sees, lemma_rook_sees, strikes,
};
use crate::square::Square;
use crate::tables::{between_bits, lemma_between_has};

verus! {

/// Whether no piece of the other side attacks the king of `color`.
pub open spec fn safe(state: &State, color: Color) -> bool {
    state.checkers_of(color) == 0
}

/// Whether the squares of `occupied` are those that hold a piece.
pub open spec fn occupied_by(cells: Seq<Option<Piece>>, occupied: u64) -> bool {
    forall|s: int| 0 <= s < 64 ==> #[trigger] bit(occupied, s) == cells[s].is_some()
}

/// Whether a piece of the side that opposes `color`, standing where `cells`
/// say, attacks the square numbered `t` when the squares of `occupied` are
/// occupied.
pub open spec fn threatened(cells: Seq<Option<Piece>>, color: Color, t: int, occupied: u64) -> bool {
    exists|s: int|
        0 <= s < 64 && (#[trigger] cells[s] matches Some(piece) && piece.color_spec()
            == color.other() && strikes(piece, s, t, occupied))
}

/// The test for an attack on a square finds an attack exactly if a piece of
/// the other side attacks the square.
pub proof fn lemma_attacked(state: &State, t: int, color: Color, occupied: u64)
    requires
        state.board_ok(),
        0 <= t < 64,
    ensures
        state.attacked(t, color, occupied) == threatened(state.mailbox@, color, t, occupied),
{
    let them = state.colors[color.other().idx()].data;
    let pawns = pawn_mask(color, t) & state.pieces[0].data & them;
    let kings = king_mask(t) & state.pieces[5].data & them;
    let knights = knight_mask(t) & state.pieces[1].data & them;
    let diagonal = bishop_reach(t, occupied) & state.diagonal_bits() & them;
    let straight = rook_reach(t, occupied) & state.straight_bits() & them;
    assert forall|s: int| 0 <= s < 64 implies (bit(pawns, s) || bit(kings, s) || bit(knights, s)
        || bit(diagonal, s) || bit(straight, s)) == (state.mailbox[s] matches Some(piece)
        && piece.color_spec() == color.other() && strikes(piece, s, t, occupied)) by {
        lemma_cells(state, t, color, occupied, s);
    }
    if state.attacked(t, color, occupied) {
        let word = if pawns != 0 {
            pawns
        } else if kings != 0 {
            kings
        } else if knights != 0 {
            knights
        } else if diagonal != 0 {
            diagonal
        } else {
            straight
        };
        lemma_nonzero_bit(word);
        let s = choose|s: int| 0 <= s < 64 && bit(word, s);
        assert(bit(pawns, s) || bit(kings, s) || bit(knights, s) || bit(diagonal, s) || bit(
            straight,
            s,
        ));
        assert(state.mailbox@[s] == state.mailbox[s]);
    }
    if threatened(state.mailbox@, color, t, occupied) {
        let s = choose|s: int|
            0 <= s < 64 && (#[trigger] state.mailbox@[s] matches Some(piece) && piece.color_spec()
                == color.other() && strikes(piece, s, t, occupied));
        assert(state.mailbox@[s] == state.mailbox[s]);
        assert(bit(pawns, s) || bit(kings, s) || bit(knights, s) || bit(diagonal, s) || bit(
            straight,
            s,
        ));
        if bit(pawns, s) {
            lemma_bit_nonzero(pawns, s);
        }
        if bit(kings, s) {
            lemma_bit_nonzero(kings, s);
        }
        if bit(knights, s) {
            lemma_bit_nonzero(knights, s);
        }
        if bit(diagonal, s) {
            lemma_bit_nonzero(diagonal, s);
        }
        if bit(straight, s) {
            lemma_bit_nonzero(straight, s);
        }
    }
}

/// Square by square, the words of the test for an attack hold the pieces of
/// the other side that attack the square.
proof fn lemma_cells(state: &State, t: int, color: Color, occupied: u64, s: int)
    requires
        state.board_ok(),
        0 <= t < 64,
        0 <= s < 64,
    ensures
        ({
            let them = state.colors[color.other().idx()].data;
            let pawns = pawn_mask(color, t) & state.pieces[0].data & them;
            let kings = king_mask(t) & state.pieces[5].data & them;
            let knights = knight_mask(t) & state.pieces[1].data & them;
            let diagonal = bishop_reach(t, occupied) & state.diagonal_bits() & them;
            let straight = rook_reach(t, occupied) & state.straight_bits() & them;
            (bit(pawns, s) || bit(kings, s) || bit(knights, s) || bit(diagonal, s) || bit(
                straight,
                s,
            )) == (state.mailbox[s] matches Some(piece) && piece.color_spec() == color.other()
                && strikes(piece, s, t, occupied))
        }),
{
    let them = state.colors[color.other().idx()].data;
    lemma_bit_and(pawn_mask(color, t) & state.pieces[0].data, them, s);
    lemma_bit_and(pawn_mask(color, t), state.pieces[0].data, s);
    lemma_bit_and(king_mask(t) & state.pieces[5].data, them, s);
    lemma_bit_and(king_mask(t), state.pieces[5].data, s);
    lemma_bit_and(knight_mask(t) & state.pieces[1].data, them, s);
    lemma_bit_and(knight_mask(t), state.pieces[1].data, s);
    lemma_bit_and(bishop_reach(t, occupied) & state.diagonal_bits(), them, s);
    lemma_bit_and(bishop_reach(t, occupied), state.diagonal_bits(), s);
    lemma_bit_and(rook_reach(t, occupied) & state.straight_bits(), them, s);
    lemma_bit_and(rook_reach(t, occupied), state.straight_bits(), s);
    lemma_bit_or(state.pieces[2].data, state.pieces[4].data, s);
    lemma_bit_or(state.pieces[3].data, state.pieces[4].data, s);
    lemma_step_masks(t, s);
    lemma_step_masks(s, t);
    lemma_bishop_sees(t, occupied, s);
    lemma_rook_sees(t, occupied, s);
    lemma_between_turn(s, t);
    assert(bit(state.pieces[0].data, s) == (state.mailbox[s] matches Some(p)
        && p.kind_spec().idx() == 0));
    assert(bit(state.pieces[1].data, s) == (state.mailbox[s] matches Some(p)
        && p.kind_spec().idx() == 1));
    assert(bit(state.pieces[2].data, s) == (state.mailbox[s] matches Some(p)
        && p.kind_spec().idx() == 2));
    assert(bit(state.pieces[3].data, s) == (state.mailbox[s] matches Some(p)
        && p.kind_spec().idx() == 3));
    assert(bit(state.pieces[4].data, s) == (state.mailbox[s] matches Some(p)
        && p.kind_spec().idx() == 4));
    assert(bit(state.pieces[5].data, s) == (state.mailbox[s] matches Some(p)
        && p.kind_spec().idx() == 5));
    assert(bit(state.colors[color.other().idx()].data, s) == (state.mailbox[s] matches Some(p)
        && p.color_spec().idx() == color.other().idx()));
}

/// The occupied squares of a consistent state are those that hold a piece.
pub proof fn lemma_occupied(state: &State)
    requires
        state.board_ok(),
    ensures
        occupied_by(state.mailbox@, state.occupied_bits()),
{
    assert forall|s: int| 0 <= s < 64 implies #[trigger] bit(state.occupied_bits(), s)
        == state.mailbox@[s].is_some() by {
        lemma_bit_or(state.colors[0].data, state.colors[1].data, s);
        assert(bit(state.colors[0].data, s) == (state.mailbox[s] matches Some(p)
            && p.color_spec().idx() == 0));
        assert(bit(state.colors[1].data, s) == (state.mailbox[s] matches Some(p)
            && p.color_spec().idx() == 1));
    }
}

/// A side whose one king stands on a square that no piece of the other side
/// attacks is safe.
pub proof fn lemma_safe(state: &State, color: Color, king: int)
    requires
        state.board_ok(),
        0 <= king < 64,
        forall|s: int|
            0 <= s < 64 ==> (#[trigger] state.mailbox@[s] == Some(
                Piece::make(PieceKind::King, color),
            )) == (s == king),
        !threatened(state.mailbox@, color, king, state.occupied_bits()),
    ensures
        state.has_king(color),
        state.king_at(color) == king,
        safe(state, color),
{
    let kings = state.king_bits(color);
    assert forall|s: int| 0 <= s < 64 implies bit(kings, s) == (s == king) by {
        lemma_bit_and(state.pieces[5].data, state.colors[color.idx()].data, s);
        assert(state.mailbox@[s] == state.mailbox[s]);
        assert(bit(state.pieces[5].data, s) == (state.mailbox[s] matches Some(p)
            && p.kind_spec().idx() == 5));
        assert(bit(state.colors[color.idx()].data, s) == (state.mailbox[s] matches Some(p)
            && p.color_spec().idx() == color.idx()));
        if state.mailbox[s] is Some {
            lemma_piece_parts(state.mailbox[s].unwrap());
        }
    }
    lemma_bit_nonzero(kings, king);
    lemma_lowest(kings);
    let word = state.checkers_of(color);
    if word != 0 {
        lemma_nonzero_bit(word);
        let s = choose|s: int| 0 <= s < 64 && bit(word, s);
        lemma_bit_and(
            state.attackers_of(king, state.occupied_bits()),
            state.colors[color.other().idx()].data,
            s,
        );
        lemma_attackers(state, king, state.occupied_bits(), s);
        assert(state.mailbox@[s] == state.mailbox[s]);
        assert(bit(state.colors[color.other().idx()].data, s) == (
        state.mailbox[s] matches Some(p) && p.color_spec().idx() == color.other().idx()));
    }
}

/// Whether, of the squares between two squares, those that are occupied in
/// one occupancy are occupied in another.
pub open spec fn blocks_kept(a: int, b: int, first: u64, second: u64) -> bool {
    forall|x: int|
        0 <= x < 64 && between_has(a, b, x) && bit(first, x) ==> #[trigger] bit(second, x)
}

/// An attack that is blocked stays blocked if the squares that block it
/// stay occupied.
pub proof fn lemma_strikes_kept(piece: Piece, s: int, t: int, first: u64, second: u64)
    requires
        0 <= s < 64,
        0 <= t < 64,
        blocks_kept(s, t, first, second),
        strikes(piece, s, t, second),
    ensures
        strikes(piece, s, t, first),
{
    let gap = between_bits(s, t);
    if gap & first != 0 {
        lemma_nonzero_bit(gap & first);
        let x = choose|x: int| 0 <= x < 64 && bit(gap & first, x);
        lemma_bit_and(gap, first, x);
        lemma_between_has(s, t, x);
        assert(bit(second, x));
        lemma_bit_and(gap, second, x);
        lemma_bit_nonzero(gap & second, x);
    }
}

impl<'a> Board<'a> {
    /// Whether the side to move has one king, which stands on the square
    /// that the position keeps track of.
    pub open spec fn one_king(&self) -> bool {
        &&& self.state.has_king(self.color)
        &&& forall|s: int|
            0 <= s < 64 ==> (#[trigger] self.state.mailbox@[s] == Some(
                Piece::make(PieceKind::King, self.color),
            )) == (s == self.state.king_at(self.color))
    }

    /// Where the pieces stand after a move that is no castling and no
    /// capture in passing: the mover, or what it promotes to, stands on the
    /// destination, the origin is empty, and nothing else has changed.
    pub proof fn lemma_plain_cells(&self, mv: Move, s: int)
        requires
            self.wf(),
            self.state.mailbox[mv.from_spec().idx()] is Some,
            mv.kind_spec() != MoveKind::Castling,
            mv.kind_spec() != MoveKind::Enpassant,
            0 <= s < 64,
        ensures
            self.placement_after(mv).len() == 64,
            self.placement_after(mv)[s] == (if s == mv.to_spec().idx() {
                Some(
                    match mv.kind_spec().promotion() {
                        Some(kind) => Piece::make(kind, self.color),
                        None => self.state.mailbox[mv.from_spec().idx()].unwrap(),
                    },
                )
            } else if s == mv.from_spec().idx() {
                None
            } else {
                self.state.mailbox@[s]
            }),
    {
        crate::square::lemma_square_of_idx(mv.from_spec());
        crate::square::lemma_square_of_idx(mv.to_spec());
    }

    /// A step of the king that is pseudo-legal and legal leaves the king on
    /// a square that no piece of the other side attacks.
    pub proof fn lemma_king_step_safe(&self, mv: Move, after: &Board<'a>)
        requires
            self.wf(),
            self.one_king(),
            self.made(mv, after),
            self.pseudo_legal(mv),
            self.legal(mv),
            self.state.mailbox[mv.from_spec().idx()] == Some(
                Piece::make(PieceKind::King, self.color),
            ),
            mv.kind_spec() != MoveKind::Castling,
        ensures
            safe(&after.state, self.color),
    {
        reveal(Board::pseudo_legal);
        reveal(Board::legal);
        let us = self.color;
        let from = mv.from_spec().idx();
        let to = mv.to_spec().idx();
        let cells = self.state.mailbox@;
        let next = after.state.mailbox@;
        let occ = self.state.occupied_bits();
        let gone = occ ^ single(from);
        let then = after.state.occupied_bits();
        crate::square::lemma_square_of_idx(mv.from_spec());
        crate::square::lemma_square_of_idx(mv.to_spec());
        lemma_piece_parts(Piece::make(PieceKind::King, us));
        lemma_step_masks(from, to);
        assert(mv.kind_spec() == MoveKind::Normal);
        lemma_occupied(&self.state);
        lemma_occupied(&after.state);
        lemma_attacked(&self.state, to, us, gone);
        assert forall|s: int| 0 <= s < 64 implies (#[trigger] next[s] == Some(
            Piece::make(PieceKind::King, us),
        )) == (s == to) by {
            self.lemma_plain_cells(mv, s);
            assert(cells[s] == self.state.mailbox@[s]);
        }
        if threatened(next, us, to, then) {
            let s = choose|s: int|
                0 <= s < 64 && (#[trigger] next[s] matches Some(piece) && piece.color_spec()
                    == us.other() && strikes(piece, s, to, then));
            let piece = next[s].unwrap();
            self.lemma_plain_cells(mv, s);
            assert(cells[s] == Some(piece));
            assert forall|x: int|
                0 <= x < 64 && between_has(s, to, x) && bit(gone, x) implies #[trigger] bit(
                then,
                x,
            ) by {
                lemma_bit_xor(occ, single(from), x);
                lemma_bit_single(from, x);
                self.lemma_plain_cells(mv, x);
            }
            lemma_strikes_kept(piece, s, to, gone, then);
            assert(threatened(cells, us, to, gone));
        }
        lemma_safe(&after.state, us, to);
    }
}

/// An attack that is blocked stays blocked if a square between attacker and
/// target is occupied afterwards, whenever one was before.
pub proof fn lemma_strikes_blocked(piece: Piece, s: int, t: int, first: u64, second: u64)
    requires
        0 <= s < 64,
        0 <= t < 64,
        between_bits(s, t) & first != 0 ==> between_bits(s, t) & second != 0,
        strikes(piece, s, t, second),
    ensures
        strikes(piece, s, t, first),
{
}

/// A square between two squares that is occupied blocks the way.
pub proof fn lemma_blocked(a: int, b: int, x: int, occupied: u64)
    requires
        0 <= x < 64,
        between_has(a, b, x),
        bit(occupied, x),
    ensures
        between_bits(a, b) & occupied != 0,
{
    lemma_between_has(a, b, x);
    lemma_bit_and(between_bits(a, b), occupied, x);
    lemma_bit_nonzero(between_bits(a, b) & occupied, x);
}

/// If the way between two squares is blocked, a square between them is
/// occupied.
pub proof fn lemma_blocker(a: int, b: int, occupied: u64) -> (x: int)
    requires
        between_bits(a, b) & occupied != 0,
    ensures
        0 <= x < 64,
        between_has(a, b, x),
        bit(occupied, x),
{
    lemma_nonzero_bit(between_bits(a, b) & occupied);
    let x = choose|x: int| 0 <= x < 64 && bit(between_bits(a, b) & occupied, x);
    lemma_bit_and(between_bits(a, b), occupied, x);
    lemma_between_has(a, b, x);
    x
}

impl<'a> Board<'a> {
    /// Where the pieces stand after a castling move that fits.
    pub proof fn lemma_castling_cells(&self, mv: Move, s: int)
        requires
            self.wf(),
            self.pseudo_legal(mv),
            mv.kind_spec() == MoveKind::Castling,
            0 <= s < 64,
        ensures
            ({
                let castle = crate::legal::castle_to(mv.to_spec()).unwrap();
                &&& crate::legal::castle_to(mv.to_spec()).is_some()
                &&& castle == crate::castle::CastleKind::of(
                    self.color,
                    mv.to_spec().idx() > mv.from_spec().idx(),
                )
                &&& mv.from_spec() == castle.king_from_spec()
                &&& self.state.mailbox[mv.from_spec().idx()] == Some(
                    Piece::make(PieceKind::King, self.color),
                )
                &&& self.placement_after(mv).len() == 64
                &&& self.placement_after(mv)[s] == (if s == castle.king_to_spec().idx() {
                    Some(Piece::make(PieceKind::King, self.color))
                } else if s == castle.rook_to_spec().idx() {
                    Some(Piece::make(PieceKind::Rook, self.color))
                } else if s == castle.king_from_spec().idx() || s
                    == castle.rook_from_spec().idx() {
                    None
                } else {
                    self.state.mailbox@[s]
                })
            }),
    {
        reveal(Board::pseudo_legal);
        crate::bitboard::lemma_many(self.state.checkers.data);
    }

    /// A castling move that is pseudo-legal and legal leaves the king on a
    /// square that no piece of the other side attacks.
    #[verifier::rlimit(30)]
    pub proof fn lemma_castling_safe(&self, mv: Move, after: &Board<'a>)
        requires
            self.wf(),
            self.one_king(),
            self.made(mv, after),
            self.pseudo_legal(mv),
            self.legal(mv),
            mv.kind_spec() == MoveKind::Castling,
        ensures
            safe(&after.state, self.color),
    {
        reveal(Board::legal);
        let us = self.color;
        let from = mv.from_spec().idx();
        let to = mv.to_spec().idx();
        let cells = self.state.mailbox@;
        let next = after.state.mailbox@;
        let occ = self.state.occupied_bits();
        let then = after.state.occupied_bits();
        let castle = crate::legal::castle_to(mv.to_spec()).unwrap();
        let rook_to = castle.rook_to_spec().idx();
        let rook_from = castle.rook_from_spec().idx();
        self.lemma_castling_cells(mv, 0);
        lemma_piece_parts(Piece::make(PieceKind::King, us));
        lemma_piece_parts(Piece::make(PieceKind::Rook, us));
        lemma_occupied(&self.state);
        lemma_occupied(&after.state);
        lemma_attacked(&self.state, to, us, occ);
        assert forall|s: int| 0 <= s < 64 implies (#[trigger] next[s] == Some(
            Piece::make(PieceKind::King, us),
        )) == (s == to) by {
            self.lemma_castling_cells(mv, s);
            assert(cells[s] == self.state.mailbox@[s]);
        }
        if threatened(next, us, to, then) {
            let s = choose|s: int|
                0 <= s < 64 && (#[trigger] next[s] matches Some(piece) && piece.color_spec()
                    == us.other() && strikes(piece, s, to, then));
            let piece = next[s].unwrap();
            self.lemma_castling_cells(mv, s);
            assert(cells[s] == Some(piece));
            if between_bits(s, to) & occ != 0 {
                let x = lemma_blocker(s, to, occ);
                self.lemma_castling_cells(mv, x);
                self.lemma_castling_cells(mv, rook_to);
                if x == from {
                    assert(between_has(s, to, rook_to));
                    lemma_blocked(s, to, rook_to, then);
                } else {
                    assert(x != rook_from);
                    lemma_blocked(s, to, x, then);
                }
            }
            lemma_strikes_blocked(piece, s, to, occ, then);
            assert(threatened(cells, us, to, occ));
        }
        lemma_safe(&after.state, us, to);
    }
}

/// Whether a kind of piece is one that slides: bishop, rook or queen.
pub open spec fn slides(kind: PieceKind) -> bool {
    kind == PieceKind::Bishop || kind == PieceKind::Rook || kind == PieceKind::Queen
}

impl<'a> Board<'a> {
    /// The square of the pawn that a capture in passing to `to` takes, as
    /// the mover sees it: one step back from `to`.
    pub open spec fn passed(&self, to: int) -> int {
        to - crate::movegen::stride(crate::legal::forward(self.color))
    }

    /// Whether the position is one in which a capture in passing to `to`
    /// can arise: `to` is empty, a pawn of the other side stands one step
    /// behind it, which is the square that making the move empties, and a
    /// piece that gives check is that pawn or a slider.
    pub open spec fn passing_regular(&self, to: Square) -> bool {
        let captured = self.passed(to.idx());
        &&& 0 <= captured < 64
        &&& to.behind().idx() == captured
        &&& self.state.mailbox@[to.idx()].is_none()
        &&& self.state.mailbox@[captured] == Some(
            Piece::make(PieceKind::Pawn, self.color.other()),
        )
        &&& forall|s: int|
            0 <= s < 64 && #[trigger] bit(self.state.checkers.data, s) ==> s == captured || (
            self.state.mailbox@[s] matches Some(piece) && slides(piece.kind_spec()))
    }

    /// Where the pieces stand after a capture in passing.
    pub proof fn lemma_passing_cells(&self, mv: Move, s: int)
        requires
            self.wf(),
            self.state.mailbox[mv.from_spec().idx()] is Some,
            mv.kind_spec() == MoveKind::Enpassant,
            mv.from_spec() != mv.to_spec(),
            mv.to_spec().behind() != mv.to_spec(),
            0 <= s < 64,
        ensures
            self.placement_after(mv).len() == 64,
            self.placement_after(mv)[s] == (if s == mv.to_spec().behind().idx() {
                None
            } else if s == mv.to_spec().idx() {
                self.state.mailbox@[mv.from_spec().idx()]
            } else if s == mv.from_spec().idx() {
                None
            } else {
                self.state.mailbox@[s]
            }),
    {
        crate::square::lemma_square_of_idx(mv.from_spec());
        crate::square::lemma_square_of_idx(mv.to_spec());
        crate::square::lemma_square_of_idx(mv.to_spec().behind());
    }

    /// What the test of a capture in passing takes for occupied is what is
    /// occupied once the move is made.
    pub proof fn lemma_passing_seen(&self, from: int, to: int, then: u64)
        requires
            0 <= from < 64,
            0 <= to < 64,
            0 <= self.passed(to) < 64,
            from != to,
            from != self.passed(to),
            occupied_by(self.state.mailbox@, self.state.occupied_bits()),
            self.state.mailbox@[from].is_some(),
            self.state.mailbox@[self.passed(to)].is_some(),
            forall|x: int|
                0 <= x < 64 ==> #[trigger] bit(then, x) == (x == to || (x != from && x
                    != self.passed(to) && self.state.mailbox@[x].is_some())),
        ensures
            self.passing_occupied(from, to) == then,
    {
        let occ = self.state.occupied_bits();
        let captured = self.passed(to);
        let seen = self.passing_occupied(from, to);
        let behind = match self.color {
            Color::White => crate::direction::Direction::South,
            Color::Black => crate::direction::Direction::North,
        };
        let moved = (occ & !single(from)) | single(to);
        assert forall|x: int| 0 <= x < 64 implies bit(seen, x) == bit(then, x) by {
            lemma_bit_xor(moved, crate::bitboard::shifted(single(to), behind), x);
            crate::bitboard::lemma_shifted_bits(single(to), behind, x);
            lemma_bit_or(occ & !single(from), single(to), x);
            lemma_bit_and(occ, !single(from), x);
            crate::bits::lemma_bit_not(single(from), x);
            lemma_bit_single(from, x);
            lemma_bit_single(to, x);
            let f = x % 8 - behind.df();
            let r = x / 8 - behind.dr();
            if 0 <= f < 8 && 0 <= r < 8 {
                lemma_bit_single(to, r * 8 + f);
            }
            assert(bit(crate::bitboard::shifted(single(to), behind), x) == (x == captured));
        }
        crate::bits::lemma_bits_ext(seen, then);
    }

    /// After a capture in passing, a slider of the other side that
    /// attacks the king is one that the test of the move has found.
    proof fn lemma_passing_sliders(&self, king: int, then: u64, s: int)
        requires
            self.state.board_ok(),
            0 <= king < 64,
            0 <= s < 64,
            self.state.mailbox[s] matches Some(piece) && piece.color_spec() == self.color.other()
                && slides(piece.kind_spec()) && strikes(piece, s, king, then),
        ensures
            bishop_reach(king, then) & self.enemy_bits() & self.state.diagonal_bits() != 0
                || rook_reach(king, then) & self.enemy_bits() & self.state.straight_bits() != 0,
    {
        let them = self.enemy_bits();
        lemma_cells(&self.state, king, self.color, then, s);
        let diagonal = bishop_reach(king, then) & them & self.state.diagonal_bits();
        let straight = rook_reach(king, then) & them & self.state.straight_bits();
        lemma_bit_and(bishop_reach(king, then) & them, self.state.diagonal_bits(), s);
        lemma_bit_and(bishop_reach(king, then), them, s);
        lemma_bit_and(rook_reach(king, then) & them, self.state.straight_bits(), s);
        lemma_bit_and(rook_reach(king, then), them, s);
        lemma_bit_and(bishop_reach(king, then) & self.state.diagonal_bits(), them, s);
        lemma_bit_and(bishop_reach(king, then), self.state.diagonal_bits(), s);
        lemma_bit_and(rook_reach(king, then) & self.state.straight_bits(), them, s);
        lemma_bit_and(rook_reach(king, then), self.state.straight_bits(), s);
        lemma_bit_and(pawn_mask(self.color, king) & self.state.pieces[0].data, them, s);
        lemma_bit_and(king_mask(king) & self.state.pieces[5].data, them, s);
        lemma_bit_and(knight_mask(king) & self.state.pieces[1].data, them, s);
        lemma_bit_and(pawn_mask(self.color, king), self.state.pieces[0].data, s);
        lemma_bit_and(king_mask(king), self.state.pieces[5].data, s);
        lemma_bit_and(knight_mask(king), self.state.pieces[1].data, s);
        assert(bit(self.state.pieces[0].data, s) == (self.state.mailbox[s] matches Some(p)
            && p.kind_spec().idx() == 0));
        assert(bit(self.state.pieces[1].data, s) == (self.state.mailbox[s] matches Some(p)
            && p.kind_spec().idx() == 1));
        assert(bit(self.state.pieces[5].data, s) == (self.state.mailbox[s] matches Some(p)
            && p.kind_spec().idx() == 5));
        if bit(diagonal, s) {
            lemma_bit_nonzero(diagonal, s);
        }
        if bit(straight, s) {
            lemma_bit_nonzero(straight, s);
        }
    }

    /// A piece of the other side that attacks the king of the side to move
    /// is among the pieces that give check.
    pub proof fn lemma_striker_checks(&self, s: int)
        requires
            self.wf(),
            self.state.has_king(self.color),
            0 <= s < 64,
            self.state.mailbox[s] matches Some(piece) && piece.color_spec() == self.color.other()
                && strikes(
                piece,
                s,
                self.state.king_at(self.color),
                self.state.occupied_bits(),
            ),
        ensures
            bit(self.state.checkers.data, s),
    {
        let king = self.state.king_at(self.color);
        let occ = self.state.occupied_bits();
        lemma_lowest(self.state.king_bits(self.color));
        lemma_attackers(&self.state, king, occ, s);
        lemma_bit_and(self.state.attackers_of(king, occ), self.enemy_bits(), s);
        assert(bit(self.state.colors[self.color.other().idx()].data, s) == (
        self.state.mailbox[s] matches Some(p) && p.color_spec().idx() == self.color.other().idx()));
    }

    /// A capture in passing that is pseudo-legal and legal, in a position
    /// in which it can arise, leaves the king on a square that no piece of
    /// the other side attacks.
    pub proof fn lemma_passing_safe(&self, mv: Move, after: &Board<'a>)
        requires
            self.wf(),
            self.one_king(),
            self.made(mv, after),
            self.pseudo_legal(mv),
            self.legal(mv),
            mv.kind_spec() == MoveKind::Enpassant,
            self.state.mailbox[mv.from_spec().idx()] == Some(
                Piece::make(PieceKind::Pawn, self.color),
            ),
            self.passing_regular(mv.to_spec()),
        ensures
            safe(&after.state, self.color),
    {
        let us = self.color;
        let from = mv.from_spec().idx();
        let to = mv.to_spec().idx();
        let captured = self.passed(to);
        let king = self.state.king_at(us);
        let cells = self.state.mailbox@;
        let next = after.state.mailbox@;
        let occ = self.state.occupied_bits();
        let then = after.state.occupied_bits();
        crate::square::lemma_square_of_idx(mv.from_spec());
        crate::square::lemma_square_of_idx(mv.to_spec());
        crate::square::lemma_square_of_idx(mv.to_spec().behind());
        lemma_piece_parts(Piece::make(PieceKind::Pawn, us));
        lemma_piece_parts(Piece::make(PieceKind::Pawn, us.other()));
        lemma_piece_parts(Piece::make(PieceKind::King, us));
        lemma_occupied(&self.state);
        lemma_occupied(&after.state);
        lemma_lowest(self.state.king_bits(us));
        assert(from != to);
        assert(captured != to && captured != from);
        assert forall|s: int| 0 <= s < 64 implies (#[trigger] next[s] == Some(
            Piece::make(PieceKind::King, us),
        )) == (s == king) by {
            self.lemma_passing_cells(mv, s);
            assert(cells[s] == self.state.mailbox@[s]);
        }
        assert forall|x: int| 0 <= x < 64 implies #[trigger] bit(then, x) == (x == to || (x
            != from && x != captured && cells[x].is_some())) by {
            self.lemma_passing_cells(mv, x);
        }
        self.lemma_passing_seen(from, to, then);
        assert(self.passing_tested(mv, then)) by {
            reveal(Board::legal);
            reveal(Board::pseudo_legal);
            crate::bitboard::lemma_many(self.state.checkers.data);
        }
        if threatened(next, us, king, then) {
            let s = choose|s: int|
                0 <= s < 64 && (#[trigger] next[s] matches Some(piece) && piece.color_spec()
                    == us.other() && strikes(piece, s, king, then));
            let piece = next[s].unwrap();
            self.lemma_passing_cells(mv, s);
            assert(cells[s] == Some(piece));
            assert(self.state.mailbox[s] == Some(piece));
            if slides(piece.kind_spec()) {
                self.lemma_passing_sliders(king, then, s);
            } else {
                self.lemma_striker_checks(s);
            }
        }
        lemma_safe(&after.state, us, king);
    }

    /// Whether the test of a capture in passing has found no slider of the
    /// other side that attacks the king, with `then` for what is occupied.
    pub open spec fn passing_tested(&self, mv: Move, then: u64) -> bool {
        let king = self.state.king_at(self.color);
        &&& bishop_reach(king, then) & self.enemy_bits() & self.state.diagonal_bits() == 0
        &&& rook_reach(king, then) & self.enemy_bits() & self.state.straight_bits() == 0
    }
}

} // verus!
