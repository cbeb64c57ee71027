use vstd::prelude::*;
use crate::attack::{
    bishop_attacks, bishop_reach, king_attacks, king_mask, knight_attacks, knight_mask,
    pawn_attacks, pawn_mask, rook_attacks, rook_reach,
};
use crate::bitboard::{many, Bitboard};
use crate::bits::{bit, lemma_lowest, lowest, popcount};
use crate::castle::{Castle, CastleKind};
use crate::color::Color;
use crate::moves::{Move, MoveKind};
use crate::piece::{Piece, PieceKind};
use crate::square::Square;
use crate::tables::{between_bits, Tables};
use crate::zobrist::{castling_key, color_key, enpassant_key, piece_key};

verus! {

/// Why a position string was turned down.
#[derive(Debug, Clone, Copy, PartialEq, Eq, Structural)]
pub enum FenParseError {
    MissingBoard,
    MissingColor,
    MissingCastle,
    InvalidBoard,
    InvalidColor,
    InvalidCastle,
}

/// The hash of a position.
#[derive(Debug, Clone, Copy, PartialEq, Eq, Structural)]
pub struct Key {
    pub main: u64,
}

/// Everything about a position but the side to move: where the pieces
/// stand, the castling rights, the square of a possible capture in passing,
/// the halfmove clock, and what is derived from these: the pieces that give
/// check, the pinned pieces of either side, and the hash.
#[derive(Debug, Clone, Copy, PartialEq, Eq)]
pub struct State {
    pub pieces: [Bitboard; 6],
    pub colors: [Bitboard; 2],
    pub mailbox: [Option<Piece>; 64],
    pub castles: Castle,
    pub enpassant: Option<Square>,
    pub halfmove: u8,
    pub checkers: Bitboard,
    pub blockers: [Bitboard; 2],
    pub keys: Key,
}

/// The key of what stands on a square: the piece's key, or nothing.
pub open spec fn cell_key(cell: Option<Piece>, square: int) -> u64 {
    match cell {
        Some(piece) => piece_key(piece, square),
        None => 0,
    }
}

/// The keys of the pieces on the first `n` squares, folded together.
pub open spec fn placement_key(cells: Seq<Option<Piece>>, n: int) -> u64
    decreases n,
{
    if n <= 0 {
        0
    } else {
        placement_key(cells, n - 1) ^ cell_key(cells[n - 1], n - 1)
    }
}

/// The key of the square of a capture in passing: the key of its file, or
/// nothing.
pub open spec fn passing_key(enpassant: Option<Square>) -> u64 {
    match enpassant {
        Some(square) => enpassant_key(square.file_idx()),
        None => 0,
    }
}

/// The key of the side to move: the side key if black is to move, else
/// nothing.
pub open spec fn side_key(color: Color) -> u64 {
    match color {
        Color::White => 0,
        Color::Black => color_key(),
    }
}

/// The hash of a position: the keys of its pieces, of its castling rights, of
/// the file of a capture in passing and of the side to move, folded together.
pub open spec fn position_key(
    cells: Seq<Option<Piece>>,
    castles: Castle,
    enpassant: Option<Square>,
    color: Color,
) -> u64 {
    placement_key(cells, 64) ^ castling_key(castles.data as int) ^ passing_key(enpassant)
        ^ side_key(color)
}

proof fn bv_xor(p: u64, a: u64, b: u64)
    by (bit_vector)
    ensures
        p ^ 0 == p,
        (p ^ a) ^ b == (p ^ b) ^ a,
        (p ^ a) ^ a == p,
        p ^ a ^ b == p ^ (a ^ b),
        a ^ b == b ^ a,
        a ^ b == 0 <==> a == b,
{
}

proof fn bv_rest(k: u64, p: u64, x: u64)
    by (bit_vector)
    ensures
        (k ^ x) ^ (p ^ x) == k ^ p,
        (k ^ x) ^ ((p ^ x) ^ 0) == k ^ p,
        (k ^ x) ^ ((p ^ 0) ^ x) == k ^ p,
{
}

proof fn bv_keys(k: u64, p: u64, c: u64, e: u64, s: u64, x: u64)
    by (bit_vector)
    ensures
        (k == p ^ c ^ e ^ s) == (k ^ p == c ^ e ^ s),
        k ^ p == c ^ e ^ s ==> (k ^ x) ^ p == c ^ (e ^ x) ^ s,
        e ^ e == 0,
        0 ^ x == x,
{
}

proof fn bv_dress(k: u64, p: u64, c: u64, e: u64, s: u64)
    by (bit_vector)
    ensures
        k ^ p == 0 ==> ((k ^ c) ^ e ^ s) ^ p == c ^ e ^ s,
        k ^ p == 0 ==> (k ^ c) ^ p == c ^ 0 ^ 0,
        k ^ p == 0 ==> ((k ^ c) ^ e) ^ p == c ^ e ^ 0,
        k ^ p == 0 ==> ((k ^ c) ^ s) ^ p == c ^ 0 ^ s,
        k ^ p == 0 ==> (((k ^ c) ^ e) ^ s) ^ p == c ^ e ^ s,
{
}

proof fn bv_swap(k: u64, p: u64, c: u64, e: u64, s: u64, x: u64)
    by (bit_vector)
    ensures
        k ^ p == c ^ e ^ s ==> ((k ^ c) ^ x) ^ p == x ^ e ^ s,
{
}

proof fn bv_turn(k: u64, p: u64, c: u64, e: u64, x: u64)
    by (bit_vector)
    ensures
        k ^ p == c ^ e ^ 0 ==> (k ^ x) ^ p == c ^ e ^ x,
        k ^ p == c ^ e ^ x ==> (k ^ x) ^ p == c ^ e ^ 0,
{
}

/// The folded key of an empty board is zero.
pub proof fn lemma_placement_empty(cells: Seq<Option<Piece>>, n: int)
    requires
        0 <= n <= cells.len(),
        forall|s: int| 0 <= s < n ==> cells[s].is_none(),
    ensures
        placement_key(cells, n) == 0,
    decreases n,
{
    if n > 0 {
        lemma_placement_empty(cells, n - 1);
        bv_xor(0, 0, 0);
    }
}

/// Changing what stands on one square changes the folded key by the key of
/// what stood there and the key of what stands there now.
pub proof fn lemma_placement_update(
    cells: Seq<Option<Piece>>,
    square: int,
    cell: Option<Piece>,
    n: int,
)
    requires
        cells.len() == 64,
        0 <= square < 64,
        0 <= n <= 64,
    ensures
        placement_key(cells.update(square, cell), n) == (if square < n {
            placement_key(cells, n) ^ cell_key(cells[square], square) ^ cell_key(cell, square)
        } else {
            placement_key(cells, n)
        }),
    decreases n,
{
    if n > 0 {
        lemma_placement_update(cells, square, cell, n - 1);
        let after = cells.update(square, cell);
        let p = placement_key(cells, n - 1);
        let old_key = cell_key(cells[square], square);
        let new_key = cell_key(cell, square);
        if square == n - 1 {
            bv_xor(p, old_key, new_key);
            bv_xor(p ^ old_key, old_key, new_key);
        } else if square < n - 1 {
            let last = cell_key(cells[n - 1], n - 1);
            bv_xor(p, old_key, last);
            bv_xor(p ^ old_key, new_key, last);
        }
    }
}

impl State {
    /// Whether the bitboards and the mailbox tell the same story: a square
    /// is in the set of a kind, or of a color, exactly if the mailbox has a
    /// piece of that kind, or color, there.
    pub open spec fn board_ok(&self) -> bool {
        &&& forall|k: int, s: int|
            0 <= k < 6 && 0 <= s < 64 ==> #[trigger] bit(self.pieces[k].data, s) == (
            self.mailbox[s] matches Some(p) && p.kind_spec().idx() == k)
        &&& forall|c: int, s: int|
            0 <= c < 2 && 0 <= s < 64 ==> #[trigger] bit(self.colors[c].data, s) == (
            self.mailbox[s] matches Some(p) && p.color_spec().idx() == c)
    }

    /// Whether the state is consistent: the bitboards agree with the
    /// mailbox, and the castling mask names only castling moves.
    pub open spec fn wf(&self) -> bool {
        &&& self.board_ok()
        &&& self.castles.wf()
    }

    /// The occupied squares, as a word.
    pub open spec fn occupied_bits(&self) -> u64 {
        self.colors[0].data | self.colors[1].data
    }

    /// The squares of the kings of `color`, as a word.
    pub open spec fn king_bits(&self, color: Color) -> u64 {
        self.pieces[5].data & self.colors[color.idx()].data
    }

    /// The square of the king of `color`; of the lowest, should there be
    /// more than one.
    pub open spec fn king_at(&self, color: Color) -> int {
        lowest(self.king_bits(color))
    }

    /// The squares of the diagonal sliders: bishops and queens.
    pub open spec fn diagonal_bits(&self) -> u64 {
        self.pieces[2].data | self.pieces[4].data
    }

    /// The squares of the straight sliders: rooks and queens.
    pub open spec fn straight_bits(&self) -> u64 {
        self.pieces[3].data | self.pieces[4].data
    }

    /// The pieces of either color that attack the square numbered `square`
    /// when the squares of `occupied` are occupied. A piece attacks the
    /// square if a piece of its kind would attack the piece's own square from
    /// there; for a pawn, a pawn of the other color.
    pub open spec fn attackers_of(&self, square: int, occupied: u64) -> u64 {
        (pawn_mask(Color::White, square) & self.colors[1].data & self.pieces[0].data) | (pawn_mask(
            Color::Black,
            square,
        ) & self.colors[0].data & self.pieces[0].data) | (king_mask(square) & self.pieces[5].data)
            | (knight_mask(square) & self.pieces[1].data) | (bishop_reach(square, occupied)
            & self.diagonal_bits()) | (rook_reach(square, occupied) & self.straight_bits())
    }

    /// Whether a piece of the side that opposes `color` attacks the square
    /// numbered `square` when the squares of `occupied` are occupied.
    pub open spec fn attacked(&self, square: int, color: Color, occupied: u64) -> bool {
        let them = self.colors[color.other().idx()].data;
        ||| pawn_mask(color, square) & self.pieces[0].data & them != 0
        ||| king_mask(square) & self.pieces[5].data & them != 0
        ||| knight_mask(square) & self.pieces[1].data & them != 0
        ||| bishop_reach(square, occupied) & self.diagonal_bits() & them != 0
        ||| rook_reach(square, occupied) & self.straight_bits() & them != 0
    }

    /// Whether `color` has a king on the board.
    pub open spec fn has_king(&self, color: Color) -> bool {
        self.king_bits(color) != 0
    }

    /// The pieces that give check to the king of `color`: the pieces of the
    /// other side that attack its square. None if `color` has no king.
    pub open spec fn checkers_of(&self, color: Color) -> u64 {
        if self.has_king(color) {
            self.attackers_of(self.king_at(color), self.occupied_bits())
                & self.colors[color.other().idx()].data
        } else {
            0
        }
    }

    /// The sliders of the other side that would attack the king of `color`
    /// if nothing stood in their way.
    pub open spec fn snipers_of(&self, color: Color) -> u64 {
        let king = self.king_at(color);
        ((bishop_reach(king, 0) & self.diagonal_bits()) | (rook_reach(king, 0)
            & self.straight_bits())) & self.colors[color.other().idx()].data
    }

    /// The piece of `color` that the sniper on the square numbered `sniper`
    /// pins: the one piece between the sniper and the king, if there is
    /// exactly one and it is of `color`.
    pub open spec fn pin_of(&self, color: Color, sniper: int) -> u64 {
        let ray = between_bits(self.king_at(color), sniper) & self.occupied_bits();
        if popcount(ray) == 1 {
            ray & self.colors[color.idx()].data
        } else {
            0
        }
    }

    /// The pieces of `color` that the snipers on the first `n` squares pin.
    pub open spec fn pins_upto(&self, color: Color, n: int) -> u64
        decreases n,
    {
        if n <= 0 {
            0
        } else {
            self.pins_upto(color, n - 1) | (if bit(self.snipers_of(color), n - 1) {
                self.pin_of(color, n - 1)
            } else {
                0
            })
        }
    }

    /// The pieces of `color` that are pinned against their king. None if
    /// `color` has no king.
    pub open spec fn blockers_of(&self, color: Color) -> u64 {
        if self.has_king(color) {
            self.pins_upto(color, 64)
        } else {
            0
        }
    }

    /// Whether the state is a sound position with `color` to move: it is
    /// consistent, and the checkers, the pinned pieces and the hash are what
    /// the pieces, rights and side to move make them.
    pub open spec fn sound(&self, color: Color) -> bool {
        &&& self.wf()
        &&& self.checkers.data == self.checkers_of(color)
        &&& self.blockers[0].data == self.blockers_of(Color::White)
        &&& self.blockers[1].data == self.blockers_of(Color::Black)
        &&& self.keys.main == position_key(self.mailbox@, self.castles, self.enpassant, color)
    }

    /// The hash without the keys of the pieces: what is left stands for the
    /// castling rights, the capture in passing and the side to move.
    pub open spec fn rest_key(&self) -> u64 {
        self.keys.main ^ placement_key(self.mailbox@, 64)
    }

    /// Whether two states agree in all but the pieces and the hash.
    pub open spec fn same_rest(&self, other: &State) -> bool {
        &&& self.castles == other.castles
        &&& self.enpassant == other.enpassant
        &&& self.halfmove == other.halfmove
        &&& self.checkers == other.checkers
        &&& self.blockers == other.blockers
    }

    /// The state of an empty board with every castling right, no capture in
    /// passing, a clock at zero and a hash of zero.
    pub fn new() -> (r: State)
        ensures
            r.wf(),
            forall|s: int| 0 <= s < 64 ==> r.mailbox[s].is_none(),
            forall|k: int| 0 <= k < 6 ==> r.pieces[k].data == 0,
            forall|c: int| 0 <= c < 2 ==> r.colors[c].data == 0 && r.blockers[c].data == 0,
            r.castles.data == 0,
            r.enpassant.is_none(),
            r.halfmove == 0,
            r.checkers.data == 0,
            r.keys.main == 0,
    {
        let r = State {
            pieces: [Bitboard::new();6],
            colors: [Bitboard::new();2],
            mailbox: [None;64],
            castles: Castle::new(),
            enpassant: None,
            halfmove: 0,
            checkers: Bitboard::new(),
            blockers: [Bitboard::new();2],
            keys: Key { main: 0 },
        };
        proof {
            assert forall|k: int, s: int| 0 <= k < 6 && 0 <= s < 64 implies #[trigger] bit(
                r.pieces[k].data,
                s,
            ) == (r.mailbox[s] matches Some(p) && p.kind_spec().idx() == k) by {
                crate::bits::lemma_bit_zero(s);
            }
            assert forall|c: int, s: int| 0 <= c < 2 && 0 <= s < 64 implies #[trigger] bit(
                r.colors[c].data,
                s,
            ) == (r.mailbox[s] matches Some(p) && p.color_spec().idx() == c) by {
                crate::bits::lemma_bit_zero(s);
            }
        }
        r
    }

    /// The squares of the pieces of `kind`.
    #[inline(always)]
    pub fn pieces(&self, kind: PieceKind) -> (r: Bitboard)
        ensures
            r == self.pieces[kind.idx()],
    {
        self.pieces[kind.index()]
    }

    /// The squares of the pieces of `color`.
    #[inline(always)]
    pub fn colors(&self, color: Color) -> (r: Bitboard)
        ensures
            r == self.colors[color.idx()],
    {
        self.colors[color.index()]
    }

    /// The piece on `square`, if there is one.
    #[inline(always)]
    pub fn at(&self, square: Square) -> (r: Option<Piece>)
        ensures
            r == self.mailbox[square.idx()],
    {
        self.mailbox[square.index()]
    }

    /// The occupied squares.
    #[inline(always)]
    pub fn occupied(&self) -> (r: Bitboard)
        ensures
            r.data == self.occupied_bits(),
    {
        self.colors[0].bitor(self.colors[1])
    }

    /// The castling rights.
    #[inline(always)]
    pub fn castles(&self) -> (r: Castle)
        ensures
            r == self.castles,
    {
        self.castles
    }

    /// The square on which a pawn can be taken in passing, if there is one.
    #[inline(always)]
    pub fn enpassant(&self) -> (r: Option<Square>)
        ensures
            r == self.enpassant,
    {
        self.enpassant
    }

    /// The number of moves since a pawn moved or a piece was taken.
    #[inline(always)]
    pub fn halfmove(&self) -> (r: u8)
        ensures
            r == self.halfmove,
    {
        self.halfmove
    }

    /// The pieces that give check to the side to move.
    #[inline(always)]
    pub fn checkers(&self) -> (r: Bitboard)
        ensures
            r == self.checkers,
    {
        self.checkers
    }

    /// The pieces of `color` that are pinned against their king.
    #[inline(always)]
    pub fn blockers(&self, color: Color) -> (r: Bitboard)
        ensures
            r == self.blockers[color.idx()],
    {
        self.blockers[color.index()]
    }

    /// The hash of the position.
    #[inline(always)]
    pub fn key(&self) -> (r: Key)
        ensures
            r == self.keys,
    {
        self.keys
    }

    /// The square of the king of `color`, which the caller guarantees to be
    /// on the board.
    #[inline(always)]
    pub fn king_square(&self, color: Color) -> (r: Square)
        requires
            self.king_bits(color) != 0,
        ensures
            r.idx() == self.king_at(color),
    {
        self.pieces(PieceKind::King).bitand(self.colors(color)).lsb()
    }

    /// The pieces of either color that attack `square` when the squares of
    /// `occupied` are occupied.
    pub fn attackers(&self, tables: &Tables, square: Square, occupied: Bitboard) -> (r: Bitboard)
        requires
            tables.wf(),
        ensures
            r.data == self.attackers_of(square.idx(), occupied.data),
    {
        let pawns = self.pieces(PieceKind::Pawn);
        let bishops = self.pieces(PieceKind::Bishop).bitor(self.pieces(PieceKind::Queen));
        let rooks = self.pieces(PieceKind::Rook).bitor(self.pieces(PieceKind::Queen));
        let mut attackers = Bitboard::new();
        attackers.bitor_assign(
            pawn_attacks(tables, square, Color::White).bitand(self.colors(Color::Black)).bitand(
                pawns,
            ),
        );
        attackers.bitor_assign(
            pawn_attacks(tables, square, Color::Black).bitand(self.colors(Color::White)).bitand(
                pawns,
            ),
        );
        attackers.bitor_assign(king_attacks(tables, square).bitand(self.pieces(PieceKind::King)));
        attackers.bitor_assign(
            knight_attacks(tables, square).bitand(self.pieces(PieceKind::Knight)),
        );
        attackers.bitor_assign(bishop_attacks(tables, square, occupied).bitand(bishops));
        attackers.bitor_assign(rook_attacks(tables, square, occupied).bitand(rooks));
        proof {
            let a = pawn_mask(Color::White, square.idx()) & self.colors[1].data
                & self.pieces[0].data;
            assert(0u64 | a == a) by (bit_vector);
        }
        attackers
    }

    /// Puts `piece` on `square`, which the caller guarantees to be empty, and
    /// folds the piece's key into the hash.
    pub fn place(&mut self, tables: &Tables, square: Square, piece: Piece)
        requires
            tables.wf(),
            old(self).board_ok(),
            old(self).mailbox[square.idx()].is_none(),
        ensures
            final(self).board_ok(),
            final(self).mailbox@ == old(self).mailbox@.update(square.idx(), Some(piece)),
            final(self).keys.main == old(self).keys.main ^ piece_key(piece, square.idx()),
            final(self).rest_key() == old(self).rest_key(),
            final(self).same_rest(old(self)),
    {
        proof {
            lemma_placement_update(old(self).mailbox@, square.idx(), Some(piece), 64);
            let p = placement_key(old(self).mailbox@, 64);
            let k = piece_key(piece, square.idx());
            bv_xor(p, 0, k);
            bv_rest(old(self).keys.main, p, k);
        }
        let kind = piece.kind().index();
        let color = piece.color().index();
        let mut of_kind = self.pieces[kind];
        of_kind.set(square);
        self.pieces[kind] = of_kind;
        let mut of_color = self.colors[color];
        of_color.set(square);
        self.colors[color] = of_color;
        self.mailbox[square.index()] = Some(piece);
        self.keys.main ^= tables.zobrist.piece[piece.index()][square.index()];
    }

    /// Takes the piece on `square` off the board, if there is one, and folds
    /// its key out of the hash.
    pub fn remove(&mut self, tables: &Tables, square: Square)
        requires
            tables.wf(),
            old(self).board_ok(),
        ensures
            final(self).board_ok(),
            final(self).mailbox@ == old(self).mailbox@.update(square.idx(), None),
            final(self).keys.main == old(self).keys.main ^ cell_key(
                old(self).mailbox[square.idx()],
                square.idx(),
            ),
            final(self).rest_key() == old(self).rest_key(),
            final(self).same_rest(old(self)),
    {
        proof {
            lemma_placement_update(old(self).mailbox@, square.idx(), None, 64);
            let p = placement_key(old(self).mailbox@, 64);
            let k = cell_key(old(self).mailbox[square.idx()], square.idx());
            bv_xor(p, k, 0);
            bv_rest(old(self).keys.main, p, k);
        }
        match self.mailbox[square.index()] {
            Some(piece) => {
                let kind = piece.kind().index();
                let color = piece.color().index();
                let mut of_kind = self.pieces[kind];
                of_kind.clear(square);
                self.pieces[kind] = of_kind;
                let mut of_color = self.colors[color];
                of_color.clear(square);
                self.colors[color] = of_color;
                self.mailbox[square.index()] = None;
                self.keys.main ^= tables.zobrist.piece[piece.index()][square.index()];
            },
            None => {
                proof {
                    bv_xor(self.keys.main, 0, 0);
                    assert(self.mailbox@ =~= old(self).mailbox@.update(square.idx(), None));
                }
            },
        }
    }

    /// Whether the hash holds, besides the keys of the pieces, the keys of
    /// the castling rights, of the capture in passing and of `color` to move.
    pub open spec fn rest_ok(&self, color: Color) -> bool {
        self.rest_key() == castling_key(self.castles.data as int) ^ passing_key(self.enpassant)
            ^ side_key(color)
    }

    /// Whether two states have the same pieces on the same squares.
    pub open spec fn same_pieces(&self, other: &State) -> bool {
        &&& self.pieces == other.pieces
        &&& self.colors == other.colors
        &&& self.mailbox == other.mailbox
    }

    /// The hash is the position's exactly if what it holds besides the keys
    /// of the pieces is right.
    pub proof fn lemma_rest_ok(&self, color: Color)
        ensures
            self.rest_ok(color) == (self.keys.main == position_key(
                self.mailbox@,
                self.castles,
                self.enpassant,
                color,
            )),
    {
        bv_keys(
            self.keys.main,
            placement_key(self.mailbox@, 64),
            castling_key(self.castles.data as int),
            passing_key(self.enpassant),
            side_key(color),
            0,
        );
    }

    /// Forgets the square of a capture in passing, and folds its key out of
    /// the hash.
    fn forget_enpassant(&mut self, tables: &Tables)
        requires
            tables.wf(),
        ensures
            final(self).enpassant.is_none(),
            final(self).same_pieces(old(self)),
            final(self).castles == old(self).castles,
            final(self).halfmove == old(self).halfmove,
            forall|c: Color| old(self).rest_ok(c) ==> final(self).rest_ok(c),
    {
        match self.enpassant {
            Some(enpassant) => {
                proof {
                    let x = enpassant_key(enpassant.file_idx());
                    assert forall|c: Color| old(self).rest_ok(c) implies (old(self).keys.main ^ x)
                        ^ placement_key(old(self).mailbox@, 64) == castling_key(
                        old(self).castles.data as int,
                    ) ^ 0 ^ side_key(c) by {
                        bv_keys(
                            old(self).keys.main,
                            placement_key(old(self).mailbox@, 64),
                            castling_key(old(self).castles.data as int),
                            x,
                            side_key(c),
                            x,
                        );
                    }
                }
                self.keys.main ^= tables.zobrist.enpassant[enpassant.file().index()];
                self.enpassant = None;
            },
            None => {},
        }
    }

    /// Names the square of a capture in passing, where none was named, and
    /// folds its key into the hash.
    fn offer_enpassant(&mut self, tables: &Tables, square: Square)
        requires
            tables.wf(),
            old(self).enpassant.is_none(),
        ensures
            final(self).enpassant == Some(square),
            final(self).same_pieces(old(self)),
            final(self).castles == old(self).castles,
            final(self).halfmove == old(self).halfmove,
            forall|c: Color| old(self).rest_ok(c) ==> final(self).rest_ok(c),
    {
        proof {
            let x = enpassant_key(square.file_idx());
            assert forall|c: Color| old(self).rest_ok(c) implies (old(self).keys.main ^ x)
                ^ placement_key(old(self).mailbox@, 64) == castling_key(
                old(self).castles.data as int,
            ) ^ x ^ side_key(c) by {
                bv_keys(
                    old(self).keys.main,
                    placement_key(old(self).mailbox@, 64),
                    castling_key(old(self).castles.data as int),
                    0,
                    side_key(c),
                    x,
                );
            }
        }
        self.keys.main ^= tables.zobrist.enpassant[square.file().index()];
        self.enpassant = Some(square);
    }

    /// The castling rights after a move from `from` to `to` by the side
    /// `us`, by its king if `king_moves`.
    pub open spec fn revoked(castles: Castle, king_moves: bool, us: Color, from: Square, to: Square) -> Castle {
        let first = if king_moves {
            castles.without(CastleKind::of(us, true)).without(CastleKind::of(us, false))
        } else {
            castles
        };
        let second = match CastleKind::of_corner(from) {
            Some(castle) => first.without(castle),
            None => first,
        };
        match CastleKind::of_corner(to) {
            Some(castle) => second.without(castle),
            None => second,
        }
    }

    /// Takes away the castling rights that a move costs, and swaps the key of
    /// the rights in the hash.
    fn revoke(&mut self, tables: &Tables, king_moves: bool, us: Color, from: Square, to: Square)
        requires
            tables.wf(),
            old(self).castles.wf(),
        ensures
            final(self).castles == State::revoked(old(self).castles, king_moves, us, from, to),
            final(self).castles.wf(),
            final(self).same_pieces(old(self)),
            final(self).enpassant == old(self).enpassant,
            final(self).halfmove == old(self).halfmove,
            forall|c: Color| old(self).rest_ok(c) ==> final(self).rest_ok(c),
    {
        let ghost old_key = castling_key(self.castles.data as int);
        self.keys.main ^= tables.zobrist.castling[self.castles.index()];
        if king_moves {
            self.castles.update(CastleKind::new(us, true));
            self.castles.update(CastleKind::new(us, false));
        }
        match CastleKind::from_corner(from) {
            Some(castle) => {
                self.castles.update(castle);
            },
            None => {},
        }
        match CastleKind::from_corner(to) {
            Some(castle) => {
                self.castles.update(castle);
            },
            None => {},
        }
        self.keys.main ^= tables.zobrist.castling[self.castles.index()];
        proof {
            let new_key = castling_key(self.castles.data as int);
            assert forall|c: Color| old(self).rest_ok(c) implies ((old(self).keys.main ^ old_key)
                ^ new_key) ^ placement_key(old(self).mailbox@, 64) == new_key ^ passing_key(
                old(self).enpassant,
            ) ^ side_key(c) by {
                bv_swap(
                    old(self).keys.main,
                    placement_key(old(self).mailbox@, 64),
                    old_key,
                    passing_key(old(self).enpassant),
                    side_key(c),
                    new_key,
                );
            }
        }
    }

    /// Folds the key of the side to move into the hash, or out of it, as the
    /// turn passes from `us` to the other side.
    fn turn(&mut self, tables: &Tables, us: Color)
        requires
            tables.wf(),
        ensures
            final(self).same_pieces(old(self)),
            final(self).castles == old(self).castles,
            final(self).enpassant == old(self).enpassant,
            final(self).halfmove == old(self).halfmove,
            old(self).rest_ok(us) ==> final(self).rest_ok(us.other()),
    {
        proof {
            bv_turn(
                self.keys.main,
                placement_key(self.mailbox@, 64),
                castling_key(self.castles.data as int),
                passing_key(self.enpassant),
                color_key(),
            );
        }
        self.keys.main ^= tables.zobrist.color;
    }

    /// The square that a pawn has passed over, if the move is a pawn's
    /// double step.
    pub open spec fn passed_over(mv: Move, moving: Piece) -> Option<Square> {
        if moving.kind_spec() == PieceKind::Pawn && vstd::math::abs(
            mv.from_spec().rank_idx() - mv.to_spec().rank_idx(),
        ) == 2 {
            Some(mv.to_spec().behind())
        } else {
            None
        }
    }

    /// Where the pieces stand once the mover `moving` of the side `us` has
    /// gone to a destination that was cleared for it.
    pub open spec fn relocated(cells: Seq<Option<Piece>>, mv: Move, us: Color, moving: Piece) -> Seq<
        Option<Piece>,
    > {
        let from = mv.from_spec();
        let to = mv.to_spec();
        let landed = match mv.kind_spec().promotion() {
            Some(kind) => Piece::make(kind, us),
            None => moving,
        };
        let moved = cells.update(from.idx(), None).update(to.idx(), Some(landed));
        if mv.kind_spec() == MoveKind::Castling {
            let castle = CastleKind::of(us, to.idx() > from.idx());
            moved.update(castle.rook_from_spec().idx(), None).update(
                castle.rook_to_spec().idx(),
                Some(Piece::make(PieceKind::Rook, us)),
            )
        } else if mv.kind_spec() == MoveKind::Enpassant {
            moved.update(to.behind().idx(), None)
        } else {
            moved
        }
    }

    /// Whether a castling move finds room for its rook: the square that the
    /// rook lands on is empty, and is neither end of the king's move.
    pub open spec fn room(cells: Seq<Option<Piece>>, mv: Move, us: Color) -> bool {
        mv.kind_spec() == MoveKind::Castling ==> {
            let castle = CastleKind::of(us, mv.to_spec().idx() > mv.from_spec().idx());
            &&& cells[castle.rook_to_spec().idx()].is_none()
            &&& castle.rook_to_spec() != mv.to_spec()
            &&& castle.rook_to_spec() != mv.from_spec()
        }
    }

    /// What a move does before its piece goes: the square of a capture in
    /// passing is forgotten, the clock goes on or back to zero, a piece on
    /// the destination is taken, a pawn's double step names the square it
    /// passed over, and the rights that the move costs are lost.
    fn prepare(&mut self, tables: &Tables, mv: Move, us: Color, moving: Piece)
        requires
            tables.wf(),
            old(self).wf(),
            old(self).halfmove < 255,
        ensures
            final(self).wf(),
            final(self).mailbox@ == old(self).mailbox@.update(mv.to_spec().idx(), None),
            final(self).castles == State::revoked(
                old(self).castles,
                moving.kind_spec() == PieceKind::King,
                us,
                mv.from_spec(),
                mv.to_spec(),
            ),
            final(self).enpassant == State::passed_over(mv, moving),
            final(self).halfmove == (if old(self).mailbox[mv.to_spec().idx()].is_some()
                || moving.kind_spec() == PieceKind::Pawn {
                0
            } else {
                old(self).halfmove + 1
            }),
            forall|c: Color| old(self).rest_ok(c) ==> final(self).rest_ok(c),
    {
        let from = mv.from();
        let to = mv.to();
        self.forget_enpassant(tables);
        self.halfmove += 1;
        if self.at(to).is_some() {
            self.halfmove = 0;
            self.remove(tables, to);
        } else {
            assert(self.mailbox@ =~= old(self).mailbox@.update(to.idx(), None));
        }
        if moving.kind() == PieceKind::Pawn {
            self.halfmove = 0;
            if from.rank().distance(to.rank()) == 2 {
                self.offer_enpassant(tables, to.enpassant());
            }
        }
        self.revoke(tables, moving.kind() == PieceKind::King, us, from, to);
    }

    /// Takes the mover to a destination that is empty, as the piece it
    /// promotes to if it does; on castling the rook goes too, and on a
    /// capture in passing the pawn behind the destination is taken.
    fn relocate(&mut self, tables: &Tables, mv: Move, us: Color, moving: Piece)
        requires
            tables.wf(),
            old(self).board_ok(),
            old(self).mailbox[mv.to_spec().idx()].is_none(),
            mv.kind_spec() == MoveKind::Castling ==> {
                let castle = CastleKind::of(us, mv.to_spec().idx() > mv.from_spec().idx());
                &&& old(self).mailbox[castle.rook_to_spec().idx()].is_none()
                &&& castle.rook_to_spec() != mv.to_spec()
            },
        ensures
            final(self).board_ok(),
            final(self).mailbox@ == State::relocated(old(self).mailbox@, mv, us, moving),
            final(self).same_rest(old(self)),
            final(self).rest_key() == old(self).rest_key(),
    {
        let from = mv.from();
        let to = mv.to();
        self.remove(tables, from);
        self.place(
            tables,
            to,
            match mv.promotion_kind() {
                Some(promotion_kind) => Piece::new(promotion_kind, us),
                None => moving,
            },
        );
        if mv.is_castling() {
            let castle = CastleKind::new(us, to.value() > from.value());
            self.remove(tables, castle.rook_from());
            self.place(tables, castle.rook_to(), Piece::new(PieceKind::Rook, us));
        }
        if mv.is_enpassant() {
            self.remove(tables, to.enpassant());
        }
    }

    /// Gives a state that has every right, no capture in passing and white
    /// to move its rights, its square of a capture in passing, its clock and
    /// its side to move, and folds their keys into the hash.
    pub(crate) fn dress(
        &mut self,
        tables: &Tables,
        castles: Castle,
        enpassant: Option<Square>,
        halfmove: u8,
        color: Color,
    )
        requires
            tables.wf(),
            castles.wf(),
            old(self).rest_key() == 0,
        ensures
            final(self).same_pieces(old(self)),
            final(self).castles == castles,
            final(self).enpassant == enpassant,
            final(self).halfmove == halfmove,
            final(self).rest_ok(color),
    {
        let ghost p = placement_key(self.mailbox@, 64);
        let ghost k0 = self.keys.main;
        self.castles = castles;
        self.keys.main ^= tables.zobrist.castling[castles.index()];
        self.enpassant = enpassant;
        match enpassant {
            Some(square) => {
                self.keys.main ^= tables.zobrist.enpassant[square.file().index()];
            },
            None => {},
        }
        match color {
            Color::White => {},
            Color::Black => {
                self.keys.main ^= tables.zobrist.color;
            },
        }
        self.halfmove = halfmove;
        proof {
            bv_dress(
                k0,
                p,
                castling_key(castles.data as int),
                passing_key(enpassant),
                side_key(color),
            );
        }
    }

    /// Whether a piece of the side that opposes `color` attacks `square`
    /// when the squares of `occupied` are occupied.
    pub fn is_attacked(&self, tables: &Tables, square: Square, color: Color, occupied: Bitboard) -> (r:
        bool)
        requires
            tables.wf(),
        ensures
            r == self.attacked(square.idx(), color, occupied.data),
    {
        let them = self.colors(color.not());
        let bishops = self.pieces(PieceKind::Bishop).bitor(self.pieces(PieceKind::Queen));
        let rooks = self.pieces(PieceKind::Rook).bitor(self.pieces(PieceKind::Queen));
        pawn_attacks(tables, square, color).bitand(self.pieces(PieceKind::Pawn)).bitand(
            them,
        ).is_some() || king_attacks(tables, square).bitand(self.pieces(PieceKind::King)).bitand(
            them,
        ).is_some() || knight_attacks(tables, square).bitand(
            self.pieces(PieceKind::Knight),
        ).bitand(them).is_some() || bishop_attacks(tables, square, occupied).bitand(
            bishops,
        ).bitand(them).is_some() || rook_attacks(tables, square, occupied).bitand(rooks).bitand(
            them,
        ).is_some()
    }
}

/// A position: its state, the side to move, and the states that the moves
/// made so far have led through, oldest first.
#[derive(Debug, Clone)]
pub struct Board<'a> {
    pub state: State,
    pub color: Color,
    pub stack: Vec<State>,
    pub tables: &'a Tables,
}

/// Snipers on squares that hold none pin nothing.
proof fn lemma_pins_skip(state: &State, color: Color, n: int, m: int)
    requires
        0 <= n <= m <= 64,
        forall|i: int| n <= i < m ==> !bit(state.snipers_of(color), i),
    ensures
        state.pins_upto(color, m) == state.pins_upto(color, n),
    decreases m - n,
{
    if n < m {
        lemma_pins_skip(state, color, n, m - 1);
        let p = state.pins_upto(color, m - 1);
        assert(p | 0 == p) by (bit_vector);
    }
}

proof fn lemma_pins_frame_upto(a: &State, b: &State, color: Color, n: int)
    requires
        a.pieces == b.pieces,
        a.colors == b.colors,
    ensures
        a.pins_upto(color, n) == b.pins_upto(color, n),
    decreases n,
{
    if n > 0 {
        lemma_pins_frame_upto(a, b, color, n - 1);
    }
}

/// The checkers and the pinned pieces depend on where the pieces stand and
/// on nothing else.
pub proof fn lemma_pins_frame(a: &State, b: &State, color: Color)
    requires
        a.pieces == b.pieces,
        a.colors == b.colors,
    ensures
        a.blockers_of(color) == b.blockers_of(color),
        a.checkers_of(color) == b.checkers_of(color),
{
    lemma_pins_frame_upto(a, b, color, 64);
}

impl<'a> Board<'a> {
    /// The side that moved `back` moves ago.
    pub open spec fn mover(&self, back: int) -> Color {
        if back % 2 == 0 {
            self.color
        } else {
            self.color.other()
        }
    }

    /// Whether the board is sound: the tables are, the state is a sound
    /// position with the side to move, and so is each earlier state with the
    /// side that was to move in it.
    pub open spec fn wf(&self) -> bool {
        &&& self.tables.wf()
        &&& self.state.sound(self.color)
        &&& forall|i: int|
            0 <= i < self.stack.len() ==> (#[trigger] self.stack[i]).sound(
                self.mover(self.stack.len() - i),
            )
    }

    /// The empty board with white to move, every castling right, no capture
    /// in passing, a clock at zero and no history.
    pub fn new(tables: &'a Tables) -> (r: Board<'a>)
        requires
            tables.wf(),
        ensures
            r.wf(),
            r.tables == tables,
            r.color == Color::White,
            r.stack.len() == 0,
            forall|s: int| 0 <= s < 64 ==> r.state.mailbox[s].is_none(),
            r.state.castles.data == 0,
            r.state.enpassant.is_none(),
            r.state.halfmove == 0,
    {
        let mut state = State::new();
        proof {
            lemma_placement_empty(state.mailbox@, 64);
            bv_xor(0, 0, 0);
        }
        state.dress(tables, Castle::new(), None, 0, Color::White);
        let mut board = Board { state, color: Color::White, stack: Vec::new(), tables };
        proof {
            board.state.lemma_rest_ok(Color::White);
        }
        board.update_threats();
        board
    }

    /// Takes the last move back: the state before it returns, and the side
    /// that made it is to move again. The caller guarantees that a move was
    /// made.
    pub fn unmake(&mut self)
        requires
            old(self).stack.len() > 0,
        ensures
            final(self).state == old(self).stack[old(self).stack.len() - 1],
            final(self).stack@ == old(self).stack@.drop_last(),
            final(self).color == old(self).color.other(),
            final(self).tables == old(self).tables,
            old(self).wf() ==> final(self).wf(),
    {
        let last = self.stack.pop();
        self.state = last.unwrap();
        self.color = self.color.not();
        proof {
            if old(self).wf() {
                let n = old(self).stack.len() as int;
                assert(old(self).stack[n - 1].sound(old(self).mover(1)));
                assert forall|i: int| 0 <= i < self.stack.len() implies (
                #[trigger] self.stack[i]).sound(self.mover(self.stack.len() - i)) by {
                    assert(self.stack[i] == old(self).stack[i]);
                    assert(old(self).stack[i].sound(old(self).mover(n - i)));
                }
            }
        }
    }

    /// Finds the pieces that give check to the side to move and the pinned
    /// pieces of both sides anew, from where the pieces stand.
    pub fn update_threats(&mut self)
        requires
            old(self).tables.wf(),
            old(self).state.wf(),
        ensures
            final(self).state.checkers.data == final(self).state.checkers_of(old(self).color),
            final(self).state.blockers[0].data == final(self).state.blockers_of(Color::White),
            final(self).state.blockers[1].data == final(self).state.blockers_of(Color::Black),
            final(self).state.pieces == old(self).state.pieces,
            final(self).state.colors == old(self).state.colors,
            final(self).state.mailbox == old(self).state.mailbox,
            final(self).state.castles == old(self).state.castles,
            final(self).state.enpassant == old(self).state.enpassant,
            final(self).state.halfmove == old(self).state.halfmove,
            final(self).state.keys == old(self).state.keys,
            final(self).color == old(self).color,
            final(self).stack == old(self).stack,
            final(self).tables == old(self).tables,
    {
        let kings = self.state.pieces(PieceKind::King);
        let occupied = self.state.occupied();
        if kings.bitand(self.state.colors(self.color)).is_some() {
            let king_square = self.state.king_square(self.color);
            self.state.checkers = self.state.attackers(self.tables, king_square, occupied).bitand(
                self.state.colors(self.color.not()),
            );
        } else {
            self.state.checkers = Bitboard::new();
        }
        let white = self.pinned(Color::White);
        let black = self.pinned(Color::Black);
        let ghost before = self.state;
        self.state.blockers = [white, black];
        proof {
            lemma_pins_frame(&before, &self.state, Color::White);
            lemma_pins_frame(&before, &self.state, Color::Black);
        }
    }

    /// The pieces of `color` that are pinned against their king.
    fn pinned(&self, color: Color) -> (r: Bitboard)
        requires
            self.tables.wf(),
        ensures
            r.data == self.state.blockers_of(color),
    {
        let mut blockers = Bitboard::new();
        let own = self.state.colors(color);
        if self.state.pieces(PieceKind::King).bitand(own).is_empty() {
            return blockers;
        }
        let king_square = self.state.king_square(color);
        let bishops = self.state.pieces(PieceKind::Bishop).bitor(
            self.state.pieces(PieceKind::Queen),
        );
        let rooks = self.state.pieces(PieceKind::Rook).bitor(self.state.pieces(PieceKind::Queen));
        let mut snipers = Bitboard::new();
        snipers.bitor_assign(bishop_attacks(self.tables, king_square, Bitboard::new()).bitand(bishops));
        snipers.bitor_assign(rook_attacks(self.tables, king_square, Bitboard::new()).bitand(rooks));
        snipers.bitand_assign(self.state.colors(color.not()));
        proof {
            let a = bishop_reach(king_square.idx(), 0) & self.state.diagonal_bits();
            assert(0u64 | a == a) by (bit_vector);
        }
        let occupied = self.state.occupied();
        let ghost all = snipers.data;
        let ghost mut n: int = 0;
        loop
            invariant
                self.tables.wf(),
                self.state.has_king(color),
                king_square.idx() == self.state.king_at(color),
                all == self.state.snipers_of(color),
                occupied.data == self.state.occupied_bits(),
                own == self.state.colors[color.idx()],
                0 <= n <= 64,
                blockers.data == self.state.pins_upto(color, n),
                forall|i: int|
                    0 <= i < 64 ==> #[trigger] bit(snipers.data, i) == (bit(all, i) && i >= n),
            ensures
                blockers.data == self.state.pins_upto(color, 64),
            decreases snipers.data,
        {
            let ghost before = snipers.data;
            match snipers.next() {
                Some(square) => {
                    proof {
                        lemma_lowest(before);
                        crate::square::lemma_square_idx_of(lowest(before));
                        crate::square::lemma_square_of_idx(square);
                        assert(bit(before, square.idx()));
                        assert(square.idx() >= n);
                        assert forall|i: int| n <= i < square.idx() implies !bit(all, i) by {
                            assert(!bit(before, i));
                        }
                        lemma_pins_skip(&self.state, color, n, square.idx());
                    }
                    let ray = Bitboard::from_between(self.tables, king_square, square).bitand(
                        occupied,
                    );
                    if ray.is_only() {
                        blockers.bitor_assign(ray.bitand(own));
                    } else {
                        proof {
                            let p = blockers.data;
                            assert(p | 0 == p) by (bit_vector);
                        }
                    }
                    proof {
                        n = square.idx() + 1;
                        assert forall|i: int| 0 <= i < 64 implies #[trigger] bit(
                            snipers.data,
                            i,
                        ) == (bit(all, i) && i >= n) by {
                            crate::square::lemma_square_idx_of(i);
                            assert(bit(snipers.data, i) == (bit(before, i) && Some(Square::of(i))
                                != Some(square)));
                            if i < square.idx() {
                                assert(!bit(before, i));
                            }
                        }
                    }
                },
                None => {
                    proof {
                        assert forall|i: int| n <= i < 64 implies !bit(all, i) by {
                            crate::bits::lemma_bit_zero(i);
                        }
                        lemma_pins_skip(&self.state, color, n, 64);
                    }
                    break ;
                },
            }
        }
        blockers
    }
}

impl<'a> Board<'a> {
    /// Where the pieces stand after the move: the piece on the destination,
    /// if there is one, is gone and the mover stands there, as the piece it
    /// promotes to if it does; on castling the rook has gone from its corner
    /// to the king's other side; on a capture in passing the pawn behind the
    /// destination is gone.
    pub open spec fn placement_after(&self, mv: Move) -> Seq<Option<Piece>>
        recommends
            self.state.mailbox[mv.from_spec().idx()].is_some(),
    {
        State::relocated(
            self.state.mailbox@.update(mv.to_spec().idx(), None),
            mv,
            self.color,
            self.state.mailbox[mv.from_spec().idx()].unwrap(),
        )
    }

    /// The castling rights after the move: a king's move costs the side to
    /// move both of its rights, and a move from or to a rook's corner costs
    /// the right that belongs to the corner.
    pub open spec fn castles_after(&self, mv: Move) -> Castle
        recommends
            self.state.mailbox[mv.from_spec().idx()].is_some(),
    {
        let moving = self.state.mailbox[mv.from_spec().idx()].unwrap();
        State::revoked(
            self.state.castles,
            moving.kind_spec() == PieceKind::King,
            self.color,
            mv.from_spec(),
            mv.to_spec(),
        )
    }

    /// The square of a capture in passing after the move: the square that a
    /// pawn has passed over on a double step, and none after any other move.
    pub open spec fn enpassant_after(&self, mv: Move) -> Option<Square>
        recommends
            self.state.mailbox[mv.from_spec().idx()].is_some(),
    {
        State::passed_over(mv, self.state.mailbox[mv.from_spec().idx()].unwrap())
    }

    /// The halfmove clock after the move: zero after a capture or a pawn's
    /// move, one more than before after any other.
    pub open spec fn halfmove_after(&self, mv: Move) -> int
        recommends
            self.state.mailbox[mv.from_spec().idx()].is_some(),
    {
        let moving = self.state.mailbox[mv.from_spec().idx()].unwrap();
        if self.state.mailbox[mv.to_spec().idx()].is_some() || moving.kind_spec()
            == PieceKind::Pawn {
            0
        } else {
            self.state.halfmove + 1
        }
    }

    /// Whether `after` is what making `mv` on this board leads to: the other
    /// side is to move, the state before the move lies on top of the stack,
    /// pieces, rights, capture in passing and clock are what the move makes
    /// them, and the board is sound, which settles the bitboards, the
    /// checkers, the pinned pieces and the hash.
    pub open spec fn made(&self, mv: Move, after: &Board<'a>) -> bool {
        &&& after.wf()
        &&& after.tables == self.tables
        &&& after.color == self.color.other()
        &&& after.stack@ == self.stack@.push(self.state)
        &&& after.state.mailbox@ == self.placement_after(mv)
        &&& after.state.castles == self.castles_after(mv)
        &&& after.state.enpassant == self.enpassant_after(mv)
        &&& after.state.halfmove == self.halfmove_after(mv)
    }

    /// Whether `after` is what taking the last move back on this board leads
    /// to: the state on top of the stack is the state again, the stack is
    /// shorter by it, and the other side is to move.
    pub open spec fn unmade(&self, after: &Board<'a>) -> bool {
        &&& self.stack.len() > 0
        &&& after.state == self.stack[self.stack.len() - 1]
        &&& after.stack@ == self.stack@.drop_last()
        &&& after.color == self.color.other()
        &&& after.tables == self.tables
    }

    /// Makes a move that is pseudo-legal and legal in the position. The
    /// caller guarantees both, and that the halfmove clock has room for one
    /// more move.
    #[verifier::rlimit(30)]
    pub fn make(&mut self, mv: Move)
        requires
            old(self).wf(),
            old(self).pseudo_legal(mv),
            old(self).legal(mv),
            old(self).state.halfmove < 255,
        ensures
            old(self).made(mv, final(self)),
            old(self).regular(mv) ==> crate::safety::safe(&final(self).state, old(self).color),
    {
        let ghost before = *self;
        let tables = self.tables;
        let us = self.color;
        proof {
            before.state.lemma_rest_ok(us);
            before.lemma_castling_room(mv);
        }
        self.stack.push(self.state);
        let moving = self.state.at(mv.from()).unwrap();
        self.state.prepare(tables, mv, us, moving);
        self.state.relocate(tables, mv, us, moving);
        self.color = us.not();
        self.state.turn(tables, us);
        proof {
            self.state.lemma_rest_ok(self.color);
        }
        self.update_threats();
        proof {
            before.lemma_stack_pushed(self);
            if before.regular(mv) {
                before.lemma_legal_is_safe(mv, self);
            }
        }
    }

    /// Once a move is made, the state before it lies on the stack as a
    /// sound position of the side that made the move, and what lay on the
    /// stack before is as sound as it was.
    proof fn lemma_stack_pushed(&self, after: &Board<'a>)
        requires
            self.wf(),
            after.color == self.color.other(),
            after.stack@ == self.stack@.push(self.state),
        ensures
            forall|i: int|
                0 <= i < after.stack.len() ==> (#[trigger] after.stack[i]).sound(
                    after.mover(after.stack.len() - i),
                ),
    {
        assert forall|i: int| 0 <= i < after.stack.len() implies (#[trigger] after.stack[i]).sound(
            after.mover(after.stack.len() - i),
        ) by {
            let n = self.stack.len() as int;
            if i < n {
                assert(after.stack[i] == self.stack[i]);
                assert(self.stack[i].sound(self.mover(n - i)));
            }
        }
    }

    /// A move that the position allows starts from a piece; and before a
    /// castling move that it allows, the square that the rook lands on is
    /// empty and differs from the one that the king lands on.
    pub proof fn lemma_castling_room(&self, mv: Move)
        requires
            self.wf(),
            self.pseudo_legal(mv),
        ensures
            self.state.mailbox[mv.from_spec().idx()].is_some(),
            State::room(self.state.mailbox@, mv, self.color),
    {
        reveal(Board::pseudo_legal);
        if mv.kind_spec() == MoveKind::Castling {
            let from = mv.from_spec();
            let to = mv.to_spec();
            if many(self.state.checkers.data) {
            } else {
                let castle = crate::legal::castle_to(to).unwrap();
                let gap = between_bits(from.idx(), castle.rook_from_spec().idx());
                let target = castle.rook_to_spec().idx();
                crate::tables::lemma_between_has(from.idx(), castle.rook_from_spec().idx(), target);
                crate::bits::lemma_bit_and(gap, self.state.occupied_bits(), target);
                crate::bits::lemma_bit_zero(target);
                crate::bits::lemma_bit_or(
                    self.state.colors[0].data,
                    self.state.colors[1].data,
                    target,
                );
            }
        }
    }
}

/// Taking back a move that was made restores the position bit for bit: the
/// state with its hash, the side to move and the stack of earlier states.
pub proof fn lemma_unmake_restores<'a>(
    before: &Board<'a>,
    mv: Move,
    between: &Board<'a>,
    after: &Board<'a>,
)
    requires
        before.made(mv, between),
        between.unmade(after),
    ensures
        after.state == before.state,
        after.color == before.color,
        after.stack@ == before.stack@,
        after.tables == before.tables,
{
    assert(before.stack@.push(before.state).drop_last() =~= before.stack@);
}

} // verus!
