use vstd::prelude::*;
use crate::attack::{king_mask, king_table, knight_mask, knight_table, pawn_mask, pawn_table};
use crate::bits::{bit, gather, lemma_bits_ext, lemma_gather};
use crate::color::Color;
use crate::magic::{
    bishop_magic_table, bishop_table, lemma_collision_free, lookups_ok, magics_ok,
    multipliers_ok, rook_magic_table, rook_table, unused, Magic, BISHOP_DELTA, BISHOP_MAGICS,
    BISHOP_TABLE_SIZE, ROOK_DELTA, ROOK_MAGICS, ROOK_TABLE_SIZE,
};
use crate::mask::{between, between_has, is_between, is_line, line, line_has};
use crate::zobrist::{keys_distinct, Zobrist};

verus! {

/// Everything that is computed once and then only read: the attacks of the
/// stepping pieces, the lookup data and attack tables of the sliders, the
/// squares between and in line with each pair of squares, and the hash keys.
#[derive(Debug)]
pub struct Tables {
    pub pawn: [[u64; 64]; 2],
    pub king: Vec<u64>,
    pub knight: Vec<u64>,
    pub bishop_magics: [Magic; 64],
    pub rook_magics: [Magic; 64],
    pub bishop: Vec<u64>,
    pub rook: Vec<u64>,
    pub betweens: Vec<[u64; 64]>,
    pub lines: Vec<[u64; 64]>,
    pub zobrist: Zobrist,
}

/// Whether the fixed multipliers and the key generator are fit for use: the
/// multipliers of both sliders give tables of the sizes that are set aside
/// for them, with no two occupancies that share an entry and differ in the
/// attacks, and the generator's keys are all different and not zero.
pub open spec fn constants_ok() -> bool {
    &&& multipliers_ok(BISHOP_MAGICS, BISHOP_DELTA, BISHOP_TABLE_SIZE as int)
    &&& multipliers_ok(ROOK_MAGICS, ROOK_DELTA, ROOK_TABLE_SIZE as int)
    &&& keys_distinct()
}

/// The squares strictly between the squares `a` and `b`, as a word.
pub open spec fn between_bits(a: int, b: int) -> u64 {
    gather(|s: int| between_has(a, b, s), 64)
}

/// The squares of the line through the squares `a` and `b`, as a word.
pub open spec fn line_bits(a: int, b: int) -> u64 {
    gather(|s: int| line_has(a, b, s), 64)
}

/// A word that holds the squares between `a` and `b` is the word of them.
pub proof fn lemma_between_unique(mask: u64, a: int, b: int)
    requires
        is_between(mask, a, b),
    ensures
        mask == between_bits(a, b),
{
    let other = between_bits(a, b);
    assert forall|s: int| 0 <= s < 64 implies bit(mask, s) == bit(other, s) by {
        lemma_between_has(a, b, s);
    }
    lemma_bits_ext(mask, other);
}

/// A word that holds the line through `a` and `b` is the word of it.
pub proof fn lemma_line_unique(mask: u64, a: int, b: int)
    requires
        is_line(mask, a, b),
    ensures
        mask == line_bits(a, b),
{
    let other = line_bits(a, b);
    assert forall|s: int| 0 <= s < 64 implies bit(mask, s) == bit(other, s) by {
        lemma_line_has(a, b, s);
    }
    lemma_bits_ext(mask, other);
}

/// Which squares the word of the squares between `a` and `b` holds.
pub proof fn lemma_between_has(a: int, b: int, s: int)
    requires
        0 <= s < 64,
    ensures
        bit(between_bits(a, b), s) == between_has(a, b, s),
{
    lemma_gather(|s: int| between_has(a, b, s), 64, s);
}

/// Which squares the word of the line through `a` and `b` holds.
pub proof fn lemma_line_has(a: int, b: int, s: int)
    requires
        0 <= s < 64,
    ensures
        bit(line_bits(a, b), s) == line_has(a, b, s),
{
    lemma_gather(|s: int| line_has(a, b, s), 64, s);
}

/// For every square and every occupancy, the entry that the lookup of a
/// slider leads to holds what the slider attacks when it walks the board.
pub proof fn lemma_lookups(tables: &Tables, a: int, occ: u64)
    requires
        tables.wf(),
        0 <= a < 64,
    ensures
        0 <= tables.bishop_magics[a].slot(occ) < tables.bishop.len(),
        tables.bishop[tables.bishop_magics[a].slot(occ)] == crate::magic::slider(
            a,
            occ,
            BISHOP_DELTA,
        ),
        0 <= tables.rook_magics[a].slot(occ) < tables.rook.len(),
        tables.rook[tables.rook_magics[a].slot(occ)] == crate::magic::slider(a, occ, ROOK_DELTA),
{
    crate::magic::lemma_slider_masked(a, occ, BISHOP_DELTA);
    crate::magic::lemma_slider_masked(a, occ, ROOK_DELTA);
}

impl Tables {
    /// Whether every table holds what it stands for.
    pub open spec fn wf(&self) -> bool {
        &&& forall|a: int| 0 <= a < 64 ==> #[trigger] self.pawn[0][a] == pawn_mask(Color::White, a)
        &&& forall|a: int| 0 <= a < 64 ==> #[trigger] self.pawn[1][a] == pawn_mask(Color::Black, a)
        &&& self.king.len() == 64
        &&& forall|a: int| 0 <= a < 64 ==> #[trigger] self.king[a] == king_mask(a)
        &&& self.knight.len() == 64
        &&& forall|a: int| 0 <= a < 64 ==> #[trigger] self.knight[a] == knight_mask(a)
        &&& magics_ok(self.bishop_magics, BISHOP_DELTA)
        &&& magics_ok(self.rook_magics, ROOK_DELTA)
        &&& forall|a: int| 0 <= a < 64 ==> (#[trigger] self.bishop_magics[a]).magic == BISHOP_MAGICS[a]
        &&& forall|a: int| 0 <= a < 64 ==> (#[trigger] self.rook_magics[a]).magic == ROOK_MAGICS[a]
        &&& self.bishop.len() == BISHOP_TABLE_SIZE
        &&& self.rook.len() == ROOK_TABLE_SIZE
        &&& forall|k: int|
            0 <= k < BISHOP_TABLE_SIZE && unused(self.bishop_magics, k) ==> #[trigger] self.bishop[k]
                == 0
        &&& forall|k: int|
            0 <= k < ROOK_TABLE_SIZE && unused(self.rook_magics, k) ==> #[trigger] self.rook[k]
                == 0
        &&& forall|a: int| 0 <= a < 64 ==> (#[trigger] self.bishop_magics[a]).wf()
        &&& forall|a: int| 0 <= a < 64 ==> (#[trigger] self.rook_magics[a]).wf()
        &&& lookups_ok(self.bishop@, self.bishop_magics, BISHOP_DELTA)
        &&& lookups_ok(self.rook@, self.rook_magics, ROOK_DELTA)
        &&& self.betweens.len() == 64
        &&& forall|a: int, b: int|
            0 <= a < 64 && 0 <= b < 64 ==> #[trigger] self.betweens[a][b] == between_bits(a, b)
        &&& self.lines.len() == 64
        &&& forall|a: int, b: int|
            0 <= a < 64 && 0 <= b < 64 ==> #[trigger] self.lines[a][b] == line_bits(a, b)
        &&& self.zobrist.wf()
    }

    /// Builds every table. `None` if the fixed multipliers or the key
    /// generator are not fit for use.
    pub fn new() -> (r: Option<Tables>)
        ensures
            r.is_some() == constants_ok(),
            r matches Some(tables) ==> tables.wf(),
    {
        let bishop_magics = match bishop_magic_table() {
            Some(magics) => magics,
            None => {
                return None;
            },
        };
        let bishop = bishop_table(&bishop_magics);
        proof {
            lemma_collision_free(
                bishop_magics,
                BISHOP_MAGICS,
                BISHOP_DELTA,
                BISHOP_TABLE_SIZE as int,
            );
        }
        let bishop = match bishop {
            Some(table) => table,
            None => {
                return None;
            },
        };
        let rook_magics = match rook_magic_table() {
            Some(magics) => magics,
            None => {
                return None;
            },
        };
        let rook = rook_table(&rook_magics);
        proof {
            lemma_collision_free(rook_magics, ROOK_MAGICS, ROOK_DELTA, ROOK_TABLE_SIZE as int);
        }
        let rook = match rook {
            Some(table) => table,
            None => {
                return None;
            },
        };
        let zobrist = match Zobrist::new() {
            Some(zobrist) => zobrist,
            None => {
                return None;
            },
        };
        let betweens = between();
        let lines = line();
        proof {
            assert forall|a: int, b: int| 0 <= a < 64 && 0 <= b < 64 implies #[trigger] betweens[a][b]
                == between_bits(a, b) by {
                lemma_between_unique(betweens[a][b], a, b);
            }
            assert forall|a: int, b: int| 0 <= a < 64 && 0 <= b < 64 implies #[trigger] lines[a][b]
                == line_bits(a, b) by {
                lemma_line_unique(lines[a][b], a, b);
            }
        }
        Some(
            Tables {
                pawn: pawn_table(),
                king: king_table(),
                knight: knight_table(),
                bishop_magics,
                rook_magics,
                bishop,
                rook,
                betweens,
                lines,
                zobrist,
            },
        )
    }
}

} // verus!
