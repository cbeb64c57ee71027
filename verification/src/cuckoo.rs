use vstd::prelude::*;
use crate::attack::{
    bishop_attacks, bishop_reach, king_attacks, king_mask, knight_attacks, knight_mask,
    rook_attacks, rook_reach,
};
use crate::bitboard::Bitboard;
use crate::bits::bit;
use crate::moves::{lemma_move_none, lemma_move_parts, Move, MoveKind};
use crate::piece::{Piece, PieceKind};
use crate::square::{lemma_square_idx_of, Square};
use crate::tables::Tables;
use crate::zobrist::{color_key, piece_key};

verus! {

/// Number of slots of the table.
pub const SLOTS: usize = 8192;

/// The most entries that one insertion may push out of their slots before
/// the table is given up.
pub const MAX_KICKS: usize = 8192;

/// Number of candidates for the table: ten pieces that are no pawns, from
/// each square to each square.
pub const CANDIDATES: usize = 40960;

/// A table that finds, for the change that a reversible move makes to the
/// hash of a position, the move. Each entry lies in one of the two slots
/// that its hash names; an empty slot holds the null move.
pub struct Cuckoo {
    pub hash: Vec<u64>,
    pub mv: Vec<Move>,
}

/// The table as two sequences, slot by slot.
pub struct Nest {
    pub hash: Seq<u64>,
    pub mv: Seq<Move>,
}

/// The first slot of a hash: its low thirteen bits.
pub open spec fn slot_1(hash: u64) -> int {
    (hash & 0x1fff) as int
}

/// The second slot of a hash: thirteen bits from the sixteenth on.
pub open spec fn slot_2(hash: u64) -> int {
    ((hash >> 16) & 0x1fff) as int
}

/// The slot that an entry goes to when it is pushed out of `index`: the
/// second slot of its hash if it lay in the first, else the first.
pub open spec fn other_slot(index: int, hash: u64) -> int {
    if index == slot_1(hash) {
        slot_2(hash)
    } else {
        slot_1(hash)
    }
}

/// The squares that a piece of `kind`, not a pawn, attacks from the square
/// numbered `from` on an empty board.
pub open spec fn empty_reach(kind: PieceKind, from: int) -> u64 {
    match kind {
        PieceKind::Pawn => 0,
        PieceKind::Knight => knight_mask(from),
        PieceKind::Bishop => bishop_reach(from, 0),
        PieceKind::Rook => rook_reach(from, 0),
        PieceKind::Queen => bishop_reach(from, 0) | rook_reach(from, 0),
        PieceKind::King => king_mask(from),
    }
}

/// Whether a piece of `kind` can go from one square to another and back on
/// an empty board: it is no pawn, and attacks each square from the other.
pub open spec fn reversible(kind: PieceKind, from: int, to: int) -> bool {
    &&& kind != PieceKind::Pawn
    &&& bit(empty_reach(kind, from), to)
    &&& bit(empty_reach(kind, to), from)
}

/// The piece of the `n`-th candidate.
pub open spec fn candidate_piece(n: int) -> Piece {
    Piece::of(2 + n / 4096)
}

/// The origin of the `n`-th candidate.
pub open spec fn candidate_from(n: int) -> int {
    (n / 64) % 64
}

/// The destination of the `n`-th candidate.
pub open spec fn candidate_to(n: int) -> int {
    n % 64
}

/// Whether the `n`-th candidate enters the table: its origin lies below
/// its destination, and its piece can go from one to the other and back.
pub open spec fn candidate_fits(n: int) -> bool {
    &&& candidate_from(n) < candidate_to(n)
    &&& reversible(candidate_piece(n).kind_spec(), candidate_from(n), candidate_to(n))
}

/// The hash of the `n`-th candidate: what its move changes in the hash of a
/// position.
pub open spec fn candidate_hash(n: int) -> u64 {
    piece_key(candidate_piece(n), candidate_from(n)) ^ piece_key(
        candidate_piece(n),
        candidate_to(n),
    ) ^ color_key()
}

/// The move of the `n`-th candidate.
pub open spec fn candidate_move(n: int) -> Move {
    Move::of(Square::of(candidate_from(n)), Square::of(candidate_to(n)), MoveKind::Normal)
}

/// The table after an entry has been put into `index` and the entries that
/// this pushed out, one after the other, have found their other slots;
/// `None` if more than `fuel` entries had to move.
pub open spec fn settle(nest: Nest, hash: u64, mv: Move, index: int, fuel: nat) -> Option<Nest>
    decreases fuel,
{
    if fuel == 0 {
        None
    } else {
        let pushed_hash = nest.hash[index];
        let pushed = nest.mv[index];
        let next = Nest { hash: nest.hash.update(index, hash), mv: nest.mv.update(index, mv) };
        if pushed.raw() == 0 {
            Some(next)
        } else {
            settle(next, pushed_hash, pushed, other_slot(index, pushed_hash), (fuel - 1) as nat)
        }
    }
}

/// The table after the first `n` candidates: empty at first, then each
/// candidate that fits is put into the first slot of its hash.
pub open spec fn filled(n: int) -> Option<Nest>
    decreases n,
{
    if n <= 0 {
        Some(
            Nest {
                hash: Seq::new(SLOTS as nat, |i: int| 0u64),
                mv: Seq::new(SLOTS as nat, |i: int| Move::none()),
            },
        )
    } else {
        match filled(n - 1) {
            Some(nest) => if candidate_fits(n - 1) {
                settle(
                    nest,
                    candidate_hash(n - 1),
                    candidate_move(n - 1),
                    slot_1(candidate_hash(n - 1)),
                    MAX_KICKS as nat,
                )
            } else {
                Some(nest)
            },
            None => None,
        }
    }
}

/// Whether the table holds an entry in one of the two slots of its hash.
pub open spec fn holds(nest: Nest, hash: u64, mv: Move) -> bool {
    ||| nest.hash[slot_1(hash)] == hash && nest.mv[slot_1(hash)] == mv
    ||| nest.hash[slot_2(hash)] == hash && nest.mv[slot_2(hash)] == mv
}

/// Whether the table has its 8192 slots, and every entry in it lies in one
/// of the two slots of its hash.
pub open spec fn tidy(nest: Nest) -> bool {
    &&& nest.hash.len() == SLOTS
    &&& nest.mv.len() == SLOTS
    &&& forall|i: int|
        0 <= i < SLOTS && (#[trigger] nest.mv[i]).raw() != 0 ==> i == slot_1(nest.hash[i]) || i
            == slot_2(nest.hash[i])
}

proof fn bv_slots(hash: u64)
    by (bit_vector)
    ensures
        hash & 0x1fff < 8192,
        (hash >> 16) & 0x1fff < 8192,
{
}

/// The two slots of a hash lie in the table.
pub proof fn lemma_slots(hash: u64)
    ensures
        0 <= slot_1(hash) < SLOTS,
        0 <= slot_2(hash) < SLOTS,
        forall|i: int| 0 <= #[trigger] other_slot(i, hash) < SLOTS,
{
    bv_slots(hash);
}

/// Putting an entry into a tidy table moves entries about and loses none:
/// the result is tidy, it holds the new entry, and it holds every entry that
/// the table held.
pub proof fn lemma_settle(nest: Nest, hash: u64, mv: Move, index: int, fuel: nat)
    requires
        tidy(nest),
        mv.raw() != 0,
        index == slot_1(hash) || index == slot_2(hash),
        settle(nest, hash, mv, index, fuel).is_some(),
    ensures
        tidy(settle(nest, hash, mv, index, fuel).unwrap()),
        holds(settle(nest, hash, mv, index, fuel).unwrap(), hash, mv),
        forall|h: u64, m: Move|
            m.raw() != 0 && #[trigger] holds(nest, h, m) ==> holds(
                settle(nest, hash, mv, index, fuel).unwrap(),
                h,
                m,
            ),
    decreases fuel,
{
    lemma_slots(hash);
    let pushed_hash = nest.hash[index];
    let pushed = nest.mv[index];
    let next = Nest { hash: nest.hash.update(index, hash), mv: nest.mv.update(index, mv) };
    let last = settle(nest, hash, mv, index, fuel).unwrap();
    assert(tidy(next)) by {
        assert forall|i: int| 0 <= i < SLOTS && (#[trigger] next.mv[i]).raw() != 0 implies i
            == slot_1(next.hash[i]) || i == slot_2(next.hash[i]) by {
            if i != index {
                assert(next.mv[i] == nest.mv[i]);
            }
        }
    }
    assert(holds(next, hash, mv));
    if pushed.raw() == 0 {
        assert forall|h: u64, m: Move| m.raw() != 0 && #[trigger] holds(nest, h, m) implies holds(
            next,
            h,
            m,
        ) by {
            lemma_slots(h);
        }
    } else {
        let away = other_slot(index, pushed_hash);
        lemma_slots(pushed_hash);
        assert(index == slot_1(pushed_hash) || index == slot_2(pushed_hash));
        lemma_settle(next, pushed_hash, pushed, away, (fuel - 1) as nat);
        assert forall|h: u64, m: Move| m.raw() != 0 && #[trigger] holds(nest, h, m) implies holds(
            last,
            h,
            m,
        ) by {
            lemma_slots(h);
            if h == pushed_hash && m == pushed {
            } else {
                assert(holds(next, h, m));
            }
        }
    }
}

/// Every candidate that has entered the table can be found in it by its
/// hash.
pub proof fn lemma_filled(n: int)
    requires
        0 <= n <= CANDIDATES,
        filled(n).is_some(),
    ensures
        tidy(filled(n).unwrap()),
        forall|k: int|
            0 <= k < n && #[trigger] candidate_fits(k) ==> holds(
                filled(n).unwrap(),
                candidate_hash(k),
                candidate_move(k),
            ),
    decreases n,
{
    if n > 0 {
        let before = filled(n - 1).unwrap();
        lemma_filled(n - 1);
        if candidate_fits(n - 1) {
            let hash = candidate_hash(n - 1);
            let mv = candidate_move(n - 1);
            lemma_candidate_move(n - 1);
            lemma_settle(before, hash, mv, slot_1(hash), MAX_KICKS as nat);
            assert forall|k: int| 0 <= k < n && #[trigger] candidate_fits(k) implies holds(
                filled(n).unwrap(),
                candidate_hash(k),
                candidate_move(k),
            ) by {
                if k < n - 1 {
                    lemma_candidate_move(k);
                    assert(holds(before, candidate_hash(k), candidate_move(k)));
                }
            }
        }
    } else {
        lemma_move_none();
    }
}

/// The move of a candidate that fits is not the null move.
pub proof fn lemma_candidate_move(n: int)
    requires
        0 <= n < CANDIDATES,
        candidate_fits(n),
    ensures
        candidate_move(n).raw() != 0,
{
    lemma_square_idx_of(candidate_from(n));
    lemma_square_idx_of(candidate_to(n));
    lemma_move_parts(
        Square::of(candidate_from(n)),
        Square::of(candidate_to(n)),
        MoveKind::Normal,
    );
}

/// The first slot of a hash.
pub fn hash_1(hash: u64) -> (r: u64)
    ensures
        r == slot_1(hash),
        r < SLOTS,
{
    proof {
        bv_slots(hash);
    }
    hash & 0x1fff
}

/// The second slot of a hash.
pub fn hash_2(hash: u64) -> (r: u64)
    ensures
        r == slot_2(hash),
        r < SLOTS,
{
    proof {
        bv_slots(hash);
    }
    (hash >> 16) & 0x1fff
}

/// The squares that a piece of `kind` attacks from `from` on an empty board.
fn reach(tables: &Tables, kind: PieceKind, from: Square) -> (r: Bitboard)
    requires
        tables.wf(),
    ensures
        r.data == empty_reach(kind, from.idx()),
{
    let empty = Bitboard::new();
    match kind {
        PieceKind::Pawn => Bitboard::new(),
        PieceKind::Knight => knight_attacks(tables, from),
        PieceKind::Bishop => bishop_attacks(tables, from, empty),
        PieceKind::Rook => rook_attacks(tables, from, empty),
        PieceKind::Queen => bishop_attacks(tables, from, empty).bitor(
            rook_attacks(tables, from, empty),
        ),
        PieceKind::King => king_attacks(tables, from),
    }
}

/// Whether a piece of `kind` can go from `from` to `to` and back on an empty
/// board.
pub fn is_reversible(tables: &Tables, kind: PieceKind, from: Square, to: Square) -> (r: bool)
    requires
        tables.wf(),
    ensures
        r == reversible(kind, from.idx(), to.idx()),
{
    match kind {
        PieceKind::Pawn => false,
        _ => reach(tables, kind, from).is_set(to) && reach(tables, kind, to).is_set(from),
    }
}

impl Cuckoo {
    /// The table as two sequences.
    pub open spec fn nest(&self) -> Nest {
        Nest { hash: self.hash@, mv: self.mv@ }
    }

    /// Whether the table is the one that the candidates fill, so that every
    /// reversible move of a piece that is no pawn can be found in it by its
    /// hash.
    pub open spec fn wf(&self) -> bool {
        filled(CANDIDATES as int) == Some(self.nest())
    }

    /// Puts an entry into the first slot of its hash; the entries that this
    /// pushes out go to their other slots. Gives up, with `false`, when more
    /// than a set number of entries had to move.
    fn insert(&mut self, new_hash: u64, new_mv: Move) -> (done: bool)
        requires
            old(self).hash.len() == SLOTS,
            old(self).mv.len() == SLOTS,
        ensures
            final(self).hash.len() == SLOTS,
            final(self).mv.len() == SLOTS,
            done == settle(
                old(self).nest(),
                new_hash,
                new_mv,
                slot_1(new_hash),
                MAX_KICKS as nat,
            ).is_some(),
            done ==> Some(final(self).nest()) == settle(
                old(self).nest(),
                new_hash,
                new_mv,
                slot_1(new_hash),
                MAX_KICKS as nat,
            ),
    {
        let mut hash = new_hash;
        let mut mv = new_mv;
        let mut index: usize = hash_1(hash) as usize;
        let mut fuel: usize = MAX_KICKS;
        let ghost goal = settle(
            old(self).nest(),
            new_hash,
            new_mv,
            slot_1(new_hash),
            MAX_KICKS as nat,
        );
        while fuel > 0
            invariant
                self.hash.len() == SLOTS,
                self.mv.len() == SLOTS,
                index < SLOTS,
                fuel <= MAX_KICKS,
                goal == settle(
                    old(self).nest(),
                    new_hash,
                    new_mv,
                    slot_1(new_hash),
                    MAX_KICKS as nat,
                ),
                goal == settle(self.nest(), hash, mv, index as int, fuel as nat),
            decreases fuel,
        {
            let ghost before = self.nest();
            let pushed_hash = self.hash[index];
            let pushed = self.mv[index];
            self.hash.set(index, hash);
            self.mv.set(index, mv);
            proof {
                assert(self.nest().hash =~= before.hash.update(index as int, hash));
                assert(self.nest().mv =~= before.mv.update(index as int, mv));
            }
            if pushed.is_null() {
                return true;
            }
            hash = pushed_hash;
            mv = pushed;
            index = if index as u64 == hash_1(hash) {
                hash_2(hash) as usize
            } else {
                hash_1(hash) as usize
            };
            fuel -= 1;
        }
        false
    }

    /// Builds the table: every move of a piece that is no pawn from a square
    /// to a higher one, which the piece can make and take back on an empty
    /// board, enters it under the change that it makes to a position's hash.
    /// `None` if an entry finds no slot.
    pub fn new(tables: &Tables) -> (r: Option<Cuckoo>)
        requires
            tables.wf(),
        ensures
            r.is_some() == filled(CANDIDATES as int).is_some(),
            r matches Some(cuckoo) ==> {
                &&& cuckoo.wf()
                &&& tidy(cuckoo.nest())
                &&& forall|k: int|
                    0 <= k < CANDIDATES && #[trigger] candidate_fits(k) ==> holds(
                        cuckoo.nest(),
                        candidate_hash(k),
                        candidate_move(k),
                    )
            },
    {
        let mut cuckoo = Cuckoo { hash: Vec::new(), mv: Vec::new() };
        let mut i: usize = 0;
        while i < SLOTS
            invariant
                i <= SLOTS,
                cuckoo.hash.len() == i,
                cuckoo.mv.len() == i,
                forall|k: int| 0 <= k < i ==> cuckoo.hash[k] == 0,
                forall|k: int| 0 <= k < i ==> cuckoo.mv[k] == Move::none(),
            decreases SLOTS - i,
        {
            cuckoo.hash.push(0);
            cuckoo.mv.push(Move::null());
            i += 1;
        }
        assert(cuckoo.nest().hash =~= filled(0).unwrap().hash);
        assert(cuckoo.nest().mv =~= filled(0).unwrap().mv);
        let mut n: usize = 0;
        while n < CANDIDATES
            invariant
                tables.wf(),
                n <= CANDIDATES,
                cuckoo.hash.len() == SLOTS,
                cuckoo.mv.len() == SLOTS,
                filled(n as int) == Some(cuckoo.nest()),
            decreases CANDIDATES - n,
        {
            let piece = Piece::from_raw((2 + n / 4096) as u8);
            let from = Square::from_raw(((n / 64) % 64) as u8);
            let to = Square::from_raw((n % 64) as u8);
            if from.value() < to.value() && is_reversible(tables, piece.kind(), from, to) {
                let a = from.index();
                let b = to.index();
                let keys = &tables.zobrist;
                let hash = keys.piece[piece.index()][a] ^ keys.piece[piece.index()][b]
                    ^ keys.color;
                if !cuckoo.insert(hash, Move::new(from, to, MoveKind::Normal)) {
                    proof {
                        lemma_filled_stuck(n as int + 1);
                    }
                    return None;
                }
            }
            n += 1;
        }
        proof {
            lemma_filled(CANDIDATES as int);
        }
        Some(cuckoo)
    }

    /// The move that changes the hash of a position by `hash`, if the table
    /// holds one.
    pub fn find(&self, hash: u64) -> (r: Option<Move>)
        requires
            self.hash.len() == SLOTS,
            self.mv.len() == SLOTS,
        ensures
            r == (if self.hash[slot_1(hash)] == hash && self.mv[slot_1(hash)].raw() != 0 {
                Some(self.mv[slot_1(hash)])
            } else if self.hash[slot_2(hash)] == hash && self.mv[slot_2(hash)].raw() != 0 {
                Some(self.mv[slot_2(hash)])
            } else {
                None
            }),
    {
        let first = hash_1(hash) as usize;
        let second = hash_2(hash) as usize;
        if self.hash[first] == hash && self.mv[first].is_some() {
            Some(self.mv[first])
        } else if self.hash[second] == hash && self.mv[second].is_some() {
            Some(self.mv[second])
        } else {
            None
        }
    }
}

/// Once an entry has found no slot, the table stays given up.
proof fn lemma_filled_stuck(n: int)
    requires
        0 <= n <= CANDIDATES,
        filled(n).is_none(),
    ensures
        filled(CANDIDATES as int).is_none(),
    decreases CANDIDATES - n,
{
    if n < CANDIDATES {
        lemma_filled_stuck(n + 1);
    }
}

} // verus!
