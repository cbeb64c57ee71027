use vstd::prelude::*;
use crate::bitboard::{shifted, Bitboard, FILE_A, FILE_H};
use crate::bits::{bit, single};
use crate::color::Color;
use crate::direction::Direction;
use crate::magic::{lemma_slider_masked, slider, BISHOP_DELTA, ROOK_DELTA};
use crate::square::Square;
use crate::tables::{between_bits, line_bits, Tables};

verus! {

/// The squares of the `A` and `B` files.
pub const FILE_AB: u64 = 0x0303_0303_0303_0303;

/// The squares of the `G` and `H` files.
pub const FILE_GH: u64 = 0xc0c0_c0c0_c0c0_c0c0;

/// Whether a pawn of `color` on square `a` attacks square `b`: one rank
/// forward, one file to either side.
pub open spec fn pawn_hits(color: Color, a: int, b: int) -> bool {
    &&& b / 8 == a / 8 + (if color == Color::White {
        1int
    } else {
        -1int
    })
    &&& (b % 8 == a % 8 + 1 || b % 8 == a % 8 - 1)
}

/// Whether a king on square `a` attacks square `b`: a neighbour of `a`.
pub open spec fn king_hits(a: int, b: int) -> bool {
    &&& a != b
    &&& -1 <= a % 8 - b % 8 <= 1
    &&& -1 <= a / 8 - b / 8 <= 1
}

/// Whether a knight on square `a` attacks square `b`: two steps one way and
/// one step across.
pub open spec fn knight_hits(a: int, b: int) -> bool {
    let df = vstd::math::abs(a % 8 - b % 8);
    let dr = vstd::math::abs(a / 8 - b / 8);
    (df == 1 && dr == 2) || (df == 2 && dr == 1)
}

/// The squares a pawn of `color` on square `a` attacks, by shifts of its bit.
pub open spec fn pawn_mask(color: Color, a: int) -> u64 {
    let b = single(a);
    match color {
        Color::White => (b & !FILE_A) << 7 | (b & !FILE_H) << 9,
        Color::Black => (b & !FILE_H) >> 7 | (b & !FILE_A) >> 9,
    }
}

/// The squares a king on square `a` attacks, by shifts of its bit.
pub open spec fn king_mask(a: int) -> u64 {
    let b = single(a);
    b << 8 | b >> 8 | (b >> 1 | b >> 9 | b << 7) & !FILE_H | (b << 1 | b << 9 | b >> 7) & !FILE_A
}

/// The squares a knight on square `a` attacks, by shifts of its bit.
pub open spec fn knight_mask(a: int) -> u64 {
    let b = single(a);
    (b << 6 | b >> 10) & !FILE_GH | (b << 10 | b >> 6) & !FILE_AB | (b << 17 | b >> 15) & !FILE_A
        | (b << 15 | b >> 17) & !FILE_H
}

proof fn bv_steps(a: u64, i: u64)
    by (bit_vector)
    requires
        a < 64,
        i < 64,
    ensures
        ({
            let b = 1u64 << a;
            let m = (b & !0x0101_0101_0101_0101u64) << 7 | (b & !0x8080_8080_8080_8080u64) << 9;
            ((m >> i) & 1 == 1) == (i / 8 == a / 8 + 1 && (i % 8 == a % 8 + 1 || i % 8 + 1 == a
                % 8))
        }),
        ({
            let b = 1u64 << a;
            let m = (b & !0x8080_8080_8080_8080u64) >> 7 | (b & !0x0101_0101_0101_0101u64) >> 9;
            ((m >> i) & 1 == 1) == (i / 8 + 1 == a / 8 && (i % 8 == a % 8 + 1 || i % 8 + 1 == a
                % 8))
        }),
        ({
            let b = 1u64 << a;
            let m = b << 8 | b >> 8 | (b >> 1 | b >> 9 | b << 7) & !0x8080_8080_8080_8080u64 | (b
                << 1 | b << 9 | b >> 7) & !0x0101_0101_0101_0101u64;
            ((m >> i) & 1 == 1) == (a != i && a % 8 <= i % 8 + 1 && i % 8 <= a % 8 + 1 && a / 8
                <= i / 8 + 1 && i / 8 <= a / 8 + 1)
        }),
        ({
            let b = 1u64 << a;
            let m = (b << 6 | b >> 10) & !0xc0c0_c0c0_c0c0_c0c0u64 | (b << 10 | b >> 6)
                & !0x0303_0303_0303_0303u64 | (b << 17 | b >> 15) & !0x0101_0101_0101_0101u64 | (b
                << 15 | b >> 17) & !0x8080_8080_8080_8080u64;
            ((m >> i) & 1 == 1) == (((a % 8 == i % 8 + 1 || i % 8 == a % 8 + 1) && (a / 8 == i / 8
                + 2 || i / 8 == a / 8 + 2)) || ((a % 8 == i % 8 + 2 || i % 8 == a % 8 + 2) && (a
                / 8 == i / 8 + 1 || i / 8 == a / 8 + 1)))
        }),
{
}

/// The shift formulas give the squares that the pieces attack.
pub proof fn lemma_step_masks(a: int, i: int)
    requires
        0 <= a < 64,
        0 <= i < 64,
    ensures
        bit(pawn_mask(Color::White, a), i) == pawn_hits(Color::White, a, i),
        bit(pawn_mask(Color::Black, a), i) == pawn_hits(Color::Black, a, i),
        bit(king_mask(a), i) == king_hits(a, i),
        bit(knight_mask(a), i) == knight_hits(a, i),
{
    bv_steps(a as u64, i as u64);
}

/// The attack relations of king and knight are symmetric, and a pawn attacks
/// a square exactly if a pawn of the other color on that square would attack
/// the pawn's own.
pub proof fn lemma_step_symmetry(a: int, b: int)
    requires
        0 <= a < 64,
        0 <= b < 64,
    ensures
        bit(king_mask(a), b) == bit(king_mask(b), a),
        bit(knight_mask(a), b) == bit(knight_mask(b), a),
        bit(pawn_mask(Color::White, a), b) == bit(pawn_mask(Color::Black, b), a),
{
    lemma_step_masks(a, b);
    lemma_step_masks(b, a);
}

/// The squares that a pawn of either color attacks, one table for each color
/// and in it one entry for each square.
pub fn pawn_table() -> (table: [[u64; 64]; 2])
    ensures
        forall|a: int| 0 <= a < 64 ==> #[trigger] table[0][a] == pawn_mask(Color::White, a),
        forall|a: int| 0 <= a < 64 ==> #[trigger] table[1][a] == pawn_mask(Color::Black, a),
{
    let mut white = [0u64; 64];
    let mut black = [0u64; 64];
    let mut square: usize = 0;
    while square < 64
        invariant
            square <= 64,
            forall|a: int| 0 <= a < square ==> #[trigger] white[a] == pawn_mask(Color::White, a),
            forall|a: int| 0 <= a < square ==> #[trigger] black[a] == pawn_mask(Color::Black, a),
        decreases 64 - square,
    {
        let bitboard = 1u64 << square;
        white[square] = (bitboard & !FILE_A) << 7 | (bitboard & !FILE_H) << 9;
        black[square] = (bitboard & !FILE_H) >> 7 | (bitboard & !FILE_A) >> 9;
        square += 1;
    }
    [white, black]
}

/// The squares that a king attacks, one entry for each square.
pub fn king_table() -> (table: Vec<u64>)
    ensures
        table.len() == 64,
        forall|a: int| 0 <= a < 64 ==> #[trigger] table[a] == king_mask(a),
{
    let mut table: Vec<u64> = Vec::new();
    let mut square: usize = 0;
    while square < 64
        invariant
            square <= 64,
            table.len() == square,
            forall|a: int| 0 <= a < square ==> #[trigger] table[a] == king_mask(a),
        decreases 64 - square,
    {
        let bitboard = 1u64 << square;
        table.push(
            bitboard << 8 | bitboard >> 8 | (bitboard >> 1 | bitboard >> 9 | bitboard << 7)
                & !FILE_H | (bitboard << 1 | bitboard << 9 | bitboard >> 7) & !FILE_A,
        );
        square += 1;
    }
    table
}

/// The squares that a knight attacks, one entry for each square.
pub fn knight_table() -> (table: Vec<u64>)
    ensures
        table.len() == 64,
        forall|a: int| 0 <= a < 64 ==> #[trigger] table[a] == knight_mask(a),
{
    let mut table: Vec<u64> = Vec::new();
    let mut square: usize = 0;
    while square < 64
        invariant
            square <= 64,
            table.len() == square,
            forall|a: int| 0 <= a < square ==> #[trigger] table[a] == knight_mask(a),
        decreases 64 - square,
    {
        let bitboard = 1u64 << square;
        table.push(
            (bitboard << 6 | bitboard >> 10) & !FILE_GH | (bitboard << 10 | bitboard >> 6)
                & !FILE_AB | (bitboard << 17 | bitboard >> 15) & !FILE_A | (bitboard << 15
                | bitboard >> 17) & !FILE_H,
        );
        square += 1;
    }
    table
}

/// The square that a pawn of `color` on `square` attacks towards the `H`
/// file as white sees it, towards the `A` file for black; empty at the edge.
#[inline(always)]
pub fn pawn_east_attacks(square: Square, color: Color) -> (r: Bitboard)
    ensures
        r.data == (match color {
            Color::White => shifted(single(square.idx()), Direction::NorthEast),
            Color::Black => shifted(single(square.idx()), Direction::SouthWest),
        }),
{
    match color {
        Color::White => Bitboard::from_square(square).shift(Direction::NorthEast),
        Color::Black => Bitboard::from_square(square).shift(Direction::SouthWest),
    }
}

/// The square that a pawn of `color` on `square` attacks towards the `A`
/// file as white sees it, towards the `H` file for black; empty at the edge.
#[inline(always)]
pub fn pawn_west_attacks(square: Square, color: Color) -> (r: Bitboard)
    ensures
        r.data == (match color {
            Color::White => shifted(single(square.idx()), Direction::NorthWest),
            Color::Black => shifted(single(square.idx()), Direction::SouthEast),
        }),
{
    match color {
        Color::White => Bitboard::from_square(square).shift(Direction::NorthWest),
        Color::Black => Bitboard::from_square(square).shift(Direction::SouthEast),
    }
}

/// The squares that a bishop on square `a` attacks when the squares of
/// `occ` are occupied: along each of its four diagonals, one square after
/// the other up to the edge or to the first occupied square.
pub open spec fn bishop_reach(a: int, occ: u64) -> u64 {
    slider(a, occ, BISHOP_DELTA)
}

/// The squares that a rook on square `a` attacks when the squares of `occ`
/// are occupied: along its rank and its file, one square after the other up
/// to the edge or to the first occupied square.
pub open spec fn rook_reach(a: int, occ: u64) -> u64 {
    slider(a, occ, ROOK_DELTA)
}

/// The squares that a pawn of `color` on `square` attacks.
#[inline(always)]
pub fn pawn_attacks(tables: &Tables, square: Square, color: Color) -> (r: Bitboard)
    requires
        tables.wf(),
    ensures
        r.data == pawn_mask(color, square.idx()),
{
    match color {
        Color::White => Bitboard::from_raw(tables.pawn[0][square.index()]),
        Color::Black => Bitboard::from_raw(tables.pawn[1][square.index()]),
    }
}

/// The squares that a king on `square` attacks.
#[inline(always)]
pub fn king_attacks(tables: &Tables, square: Square) -> (r: Bitboard)
    requires
        tables.wf(),
    ensures
        r.data == king_mask(square.idx()),
{
    Bitboard::from_raw(tables.king[square.index()])
}

/// The squares that a knight on `square` attacks.
#[inline(always)]
pub fn knight_attacks(tables: &Tables, square: Square) -> (r: Bitboard)
    requires
        tables.wf(),
    ensures
        r.data == knight_mask(square.idx()),
{
    Bitboard::from_raw(tables.knight[square.index()])
}

/// The squares that a bishop on `square` attacks when the squares of
/// `occupied` are occupied.
#[inline(always)]
pub fn bishop_attacks(tables: &Tables, square: Square, occupied: Bitboard) -> (r: Bitboard)
    requires
        tables.wf(),
    ensures
        r.data == bishop_reach(square.idx(), occupied.data),
{
    proof {
        lemma_slider_masked(square.idx(), occupied.data, BISHOP_DELTA);
    }
    let magic = tables.bishop_magics[square.index()];
    Bitboard::from_raw(tables.bishop[magic.index(occupied)])
}

/// The squares that a rook on `square` attacks when the squares of
/// `occupied` are occupied.
#[inline(always)]
pub fn rook_attacks(tables: &Tables, square: Square, occupied: Bitboard) -> (r: Bitboard)
    requires
        tables.wf(),
    ensures
        r.data == rook_reach(square.idx(), occupied.data),
{
    proof {
        lemma_slider_masked(square.idx(), occupied.data, ROOK_DELTA);
    }
    let magic = tables.rook_magics[square.index()];
    Bitboard::from_raw(tables.rook[magic.index(occupied)])
}

impl Bitboard {
    /// The squares strictly between `a` and `b` on the rank, file or diagonal
    /// that they share; empty if they share none.
    #[inline(always)]
    pub fn from_between(tables: &Tables, a: Square, b: Square) -> (r: Bitboard)
        requires
            tables.wf(),
        ensures
            r.data == between_bits(a.idx(), b.idx()),
    {
        Bitboard::from_raw(tables.betweens[a.index()][b.index()])
    }

    /// The rank, file or diagonal through `a` and `b`, from edge to edge;
    /// empty if they share none.
    #[inline(always)]
    pub fn from_line(tables: &Tables, a: Square, b: Square) -> (r: Bitboard)
        requires
            tables.wf(),
        ensures
            r.data == line_bits(a.idx(), b.idx()),
    {
        Bitboard::from_raw(tables.lines[a.index()][b.index()])
    }
}

} // verus!
