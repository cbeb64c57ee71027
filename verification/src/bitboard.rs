use vstd::prelude::*;
use crate::bits::{
    bit, group_bits, lemma_bit_test, lemma_bit_zero, lemma_lowest, lemma_nonzero_bit, lowest,
    popcount, single,
};
use crate::direction::Direction;
use crate::file::File;
use crate::rank::Rank;
use crate::square::{lemma_square_of_idx, Square};

verus! {

/// A set of squares, one bit for each: bit `i` stands for the square
/// numbered `i`.
#[derive(Debug, Clone, Copy, PartialEq, Eq, Structural)]
pub struct Bitboard {
    pub data: u64,
}

/// The squares of the `A` file.
pub const FILE_A: u64 = 0x0101_0101_0101_0101;

/// The squares of the `H` file.
pub const FILE_H: u64 = 0x8080_8080_8080_8080;

/// The squares of the first rank.
pub const RANK_1: u64 = 0xff;

/// The bits of a set moved one step in a direction. The squares whose step
/// would leave the board by its left or right edge are taken out first, and
/// those that leave by the top or bottom fall off the word.
pub open spec fn shifted(data: u64, direction: Direction) -> u64 {
    match direction {
        Direction::North => data << 8,
        Direction::South => data >> 8,
        Direction::East => (data & !FILE_H) << 1,
        Direction::West => (data & !FILE_A) >> 1,
        Direction::NorthEast => (data & !FILE_H) << 9,
        Direction::NorthWest => (data & !FILE_A) << 7,
        Direction::SouthEast => (data & !FILE_H) >> 7,
        Direction::SouthWest => (data & !FILE_A) >> 9,
    }
}

/// Whether a word has two bits set or more.
pub open spec fn many(x: u64) -> bool {
    exists|i: int, j: int| 0 <= i < j < 64 && bit(x, i) && bit(x, j)
}

proof fn bv_lines(r: u64, f: u64, i: u64)
    by (bit_vector)
    requires
        r < 8,
        f < 8,
        i < 64,
    ensures
        (((0xffu64 << ((r * 8) as u64)) >> i) & 1 == 1) == (i / 8 == r),
        (((0x0101_0101_0101_0101u64 << f) >> i) & 1 == 1) == (i % 8 == f),
{
}

proof fn bv_shifted(d: u64, i: u64)
    by (bit_vector)
    requires
        i < 64,
    ensures
        (((d << 8) >> i) & 1 == 1) == (i / 8 >= 1 && ((d >> ((i - 8) as u64)) & 1 == 1)),
        (((d >> 8) >> i) & 1 == 1) == (i / 8 <= 6 && ((d >> ((i + 8) as u64)) & 1 == 1)),
        ((((d & !0x8080_8080_8080_8080u64) << 1) >> i) & 1 == 1) == (i % 8 >= 1 && ((d >> ((i
            - 1) as u64)) & 1 == 1)),
        ((((d & !0x0101_0101_0101_0101u64) >> 1) >> i) & 1 == 1) == (i % 8 <= 6 && ((d >> ((i
            + 1) as u64)) & 1 == 1)),
        ((((d & !0x8080_8080_8080_8080u64) << 9) >> i) & 1 == 1) == (i % 8 >= 1 && i / 8 >= 1 && ((d
            >> ((i - 9) as u64)) & 1 == 1)),
        ((((d & !0x0101_0101_0101_0101u64) << 7) >> i) & 1 == 1) == (i % 8 <= 6 && i / 8 >= 1 && ((d
            >> ((i - 7) as u64)) & 1 == 1)),
        ((((d & !0x8080_8080_8080_8080u64) >> 7) >> i) & 1 == 1) == (i % 8 >= 1 && i / 8 <= 6 && ((d
            >> ((i + 7) as u64)) & 1 == 1)),
        ((((d & !0x0101_0101_0101_0101u64) >> 9) >> i) & 1 == 1) == (i % 8 <= 6 && i / 8 <= 6 && ((d
            >> ((i + 9) as u64)) & 1 == 1)),
{
}

/// The word of a rank holds the squares of that rank, and the word of a file
/// those of that file.
pub proof fn lemma_line_bits(r: int, f: int, i: int)
    requires
        0 <= r < 8,
        0 <= f < 8,
        0 <= i < 64,
    ensures
        bit(RANK_1 << ((r * 8) as u64), i) == (i / 8 == r),
        bit(FILE_A << (f as u64), i) == (i % 8 == f),
{
    bv_lines(r as u64, f as u64, i as u64);
}

/// Square `i` is in a moved set exactly if the step back from `i` stays on
/// the board and leads to a square of the set before it moved.
pub proof fn lemma_shifted_bits(data: u64, direction: Direction, i: int)
    requires
        0 <= i < 64,
    ensures
        bit(shifted(data, direction), i) == {
            let f = i % 8 - direction.df();
            let r = i / 8 - direction.dr();
            0 <= f < 8 && 0 <= r < 8 && bit(data, r * 8 + f)
        },
{
    bv_shifted(data, i as u64);
}

impl Bitboard {
    /// Whether `square` is in the set.
    pub open spec fn has(self, square: Square) -> bool {
        bit(self.data, square.idx())
    }

    /// The empty set.
    #[inline(always)]
    pub fn new() -> (r: Bitboard)
        ensures
            r.data == 0,
    {
        Bitboard { data: 0 }
    }

    /// The set with the given bits.
    #[inline(always)]
    pub fn from_raw(value: u64) -> (r: Bitboard)
        ensures
            r.data == value,
    {
        Bitboard { data: value }
    }

    /// The set that holds `square` alone.
    #[inline(always)]
    pub fn from_square(square: Square) -> (r: Bitboard)
        ensures
            r.data == single(square.idx()),
            forall|i: int| 0 <= i < 64 ==> bit(r.data, i) == (i == square.idx()),
    {
        broadcast use group_bits;

        Bitboard { data: 1u64 << square.index() }
    }

    /// The eight squares of `rank`.
    #[inline(always)]
    pub fn from_rank(rank: Rank) -> (r: Bitboard)
        ensures
            r.data == RANK_1 << ((rank.idx() * 8) as u64),
            forall|i: int| 0 <= i < 64 ==> bit(r.data, i) == (i / 8 == rank.idx()),
    {
        let r = Bitboard { data: 0xffu64 << (rank.index() * 8) };
        proof {
            assert forall|i: int| 0 <= i < 64 implies bit(r.data, i) == (i / 8 == rank.idx()) by {
                lemma_line_bits(rank.idx(), 0, i);
            }
        }
        r
    }

    /// The eight squares of `file`.
    #[inline(always)]
    pub fn from_file(file: File) -> (r: Bitboard)
        ensures
            r.data == FILE_A << (file.idx() as u64),
            forall|i: int| 0 <= i < 64 ==> bit(r.data, i) == (i % 8 == file.idx()),
    {
        let r = Bitboard { data: 0x0101_0101_0101_0101u64 << file.index() };
        proof {
            assert forall|i: int| 0 <= i < 64 implies bit(r.data, i) == (i % 8 == file.idx()) by {
                lemma_line_bits(0, file.idx(), i);
            }
        }
        r
    }

    /// The bits of the set.
    #[inline(always)]
    pub fn value(self) -> (r: u64)
        ensures
            r == self.data,
    {
        self.data
    }

    /// The lowest square of a set that is not empty.
    #[inline(always)]
    pub fn lsb(self) -> (r: Square)
        requires
            self.data != 0,
        ensures
            r.idx() == lowest(self.data),
            self.has(r),
            forall|i: int| 0 <= i < r.idx() ==> !bit(self.data, i),
    {
        proof {
            lemma_lowest(self.data);
        }
        Square::from_raw(self.data.trailing_zeros() as u8)
    }

    /// The number of squares in the set.
    #[inline(always)]
    pub fn count(self) -> (r: usize)
        ensures
            r == popcount(self.data),
    {
        self.data.count_ones() as usize
    }

    /// The set moved one step in `direction`; what would leave the board is
    /// dropped.
    #[inline(always)]
    pub fn shift(self, direction: Direction) -> (r: Bitboard)
        ensures
            r.data == shifted(self.data, direction),
            forall|i: int|
                0 <= i < 64 ==> #[trigger] bit(r.data, i) == {
                    let f = i % 8 - direction.df();
                    let r = i / 8 - direction.dr();
                    0 <= f < 8 && 0 <= r < 8 && bit(self.data, r * 8 + f)
                },
    {
        let r = match direction {
            Direction::North => Bitboard { data: self.data << 8 },
            Direction::South => Bitboard { data: self.data >> 8 },
            Direction::East => Bitboard { data: (self.data & !FILE_H) << 1 },
            Direction::West => Bitboard { data: (self.data & !FILE_A) >> 1 },
            Direction::NorthEast => Bitboard { data: (self.data & !FILE_H) << 9 },
            Direction::NorthWest => Bitboard { data: (self.data & !FILE_A) << 7 },
            Direction::SouthEast => Bitboard { data: (self.data & !FILE_H) >> 7 },
            Direction::SouthWest => Bitboard { data: (self.data & !FILE_A) >> 9 },
        };
        proof {
            assert forall|i: int| 0 <= i < 64 implies #[trigger] bit(r.data, i) == {
                let f = i % 8 - direction.df();
                let r = i / 8 - direction.dr();
                0 <= f < 8 && 0 <= r < 8 && bit(self.data, r * 8 + f)
            } by {
                lemma_shifted_bits(self.data, direction, i);
            }
        }
        r
    }

    /// Puts `square` into the set.
    #[inline(always)]
    pub fn set(&mut self, square: Square)
        ensures
            final(self).data == old(self).data | single(square.idx()),
            forall|i: int|
                0 <= i < 64 ==> bit(final(self).data, i) == (bit(old(self).data, i) || i
                    == square.idx()),
    {
        broadcast use group_bits;

        self.data = self.data | (1u64 << square.index());
    }

    /// Takes `square` out of the set.
    #[inline(always)]
    pub fn clear(&mut self, square: Square)
        ensures
            final(self).data == old(self).data & !single(square.idx()),
            forall|i: int|
                0 <= i < 64 ==> bit(final(self).data, i) == (bit(old(self).data, i) && i
                    != square.idx()),
    {
        broadcast use group_bits;

        self.data = self.data & !(1u64 << square.index());
    }

    /// Whether the set holds no square.
    #[inline(always)]
    pub fn is_empty(self) -> (r: bool)
        ensures
            r == (self.data == 0),
    {
        self.data == 0
    }

    /// Whether the set holds a square.
    #[inline(always)]
    pub fn is_some(self) -> (r: bool)
        ensures
            r == (self.data != 0),
    {
        self.data != 0
    }

    /// Whether the set holds exactly one square.
    #[inline(always)]
    pub fn is_only(self) -> (r: bool)
        ensures
            r == (popcount(self.data) == 1),
    {
        self.count() == 1
    }

    /// Whether the set holds two squares or more.
    #[inline(always)]
    pub fn is_many(self) -> (r: bool)
        ensures
            r == many(self.data),
            r ==> self.data != 0,
    {
        proof {
            lemma_many(self.data);
        }
        self.data & self.data.wrapping_sub(1) != 0
    }

    /// Whether `square` is in the set.
    #[inline(always)]
    pub fn is_set(self, square: Square) -> (r: bool)
        ensures
            r == self.has(square),
    {
        proof {
            lemma_bit_test(self.data, square.idx());
        }
        self.data & (1u64 << square.index()) != 0
    }

    /// Takes the lowest square out of the set and returns it; `None`, and no
    /// change, if the set is empty. Calling this until it returns `None`
    /// walks through the set from the lowest square to the highest.
    #[inline(always)]
    pub fn next(&mut self) -> (r: Option<Square>)
        ensures
            old(self).data == 0 ==> r.is_none() && final(self).data == 0,
            old(self).data != 0 ==> r == Some(Square::of(lowest(old(self).data))),
            old(self).data != 0 ==> final(self).data == old(self).data & ((old(self).data
                - 1) as u64),
            final(self).data <= old(self).data,
            r.is_some() ==> final(self).data < old(self).data && old(self).has(r.unwrap()),
            forall|i: int|
                0 <= i < 64 ==> bit(final(self).data, i) == (bit(old(self).data, i) && Some(
                    Square::of(i),
                ) != r),
    {
        if self.data == 0 {
            proof {
                assert forall|i: int| 0 <= i < 64 implies bit(self.data, i) == (bit(self.data, i)
                    && Some(Square::of(i)) != None::<Square>) by {}
            }
            None
        } else {
            let ghost before = self.data;
            let lsb = self.lsb();
            self.data = self.data & (self.data - 1);
            proof {
                lemma_lowest(before);
                lemma_square_of_idx(lsb);
                assert forall|i: int| 0 <= i < 64 implies bit(self.data, i) == (bit(before, i)
                    && Some(Square::of(i)) != Some(lsb)) by {
                    crate::square::lemma_square_idx_of(i);
                }
            }
            Some(lsb)
        }
    }

    /// The squares that are in both sets.
    #[inline(always)]
    pub fn bitand(self, rhs: Bitboard) -> (r: Bitboard)
        ensures
            r.data == self.data & rhs.data,
    {
        Bitboard { data: self.data & rhs.data }
    }

    /// The squares that are in either set.
    #[inline(always)]
    pub fn bitor(self, rhs: Bitboard) -> (r: Bitboard)
        ensures
            r.data == self.data | rhs.data,
    {
        Bitboard { data: self.data | rhs.data }
    }

    /// The squares that are in one of the sets and not in the other.
    #[inline(always)]
    pub fn bitxor(self, rhs: Bitboard) -> (r: Bitboard)
        ensures
            r.data == self.data ^ rhs.data,
    {
        Bitboard { data: self.data ^ rhs.data }
    }

    /// The squares that are not in the set.
    #[inline(always)]
    pub fn not(self) -> (r: Bitboard)
        ensures
            r.data == !self.data,
    {
        Bitboard { data: !self.data }
    }

    /// Keeps only the squares that are in `rhs` too.
    #[inline(always)]
    pub fn bitand_assign(&mut self, rhs: Bitboard)
        ensures
            final(self).data == old(self).data & rhs.data,
    {
        self.data = self.data & rhs.data;
    }

    /// Adds the squares of `rhs`.
    #[inline(always)]
    pub fn bitor_assign(&mut self, rhs: Bitboard)
        ensures
            final(self).data == old(self).data | rhs.data,
    {
        self.data = self.data | rhs.data;
    }

    /// Swaps the membership of the squares of `rhs`.
    #[inline(always)]
    pub fn bitxor_assign(&mut self, rhs: Bitboard)
        ensures
            final(self).data == old(self).data ^ rhs.data,
    {
        self.data = self.data ^ rhs.data;
    }
}

/// Clearing the lowest bit of a word leaves something exactly if the word
/// has two bits or more.
pub proof fn lemma_many(x: u64)
    ensures
        many(x) == (x & vstd::wrapping::u64_specs::wrapping_sub(x, 1) != 0),
        many(x) ==> x != 0,
{
    if x == 0 {
        assert(0u64 & vstd::wrapping::u64_specs::wrapping_sub(0u64, 1) == 0) by (bit_vector);
        assert forall|i: int, j: int| 0 <= i < j < 64 implies !(bit(x, i) && bit(x, j)) by {
            lemma_bit_zero(i);
        }
    } else {
        let y = x & ((x - 1) as u64);
        lemma_lowest(x);
        if y != 0 {
            lemma_nonzero_bit(y);
            let j = choose|j: int| 0 <= j < 64 && bit(y, j);
            assert(bit(x, j) && j != lowest(x));
            assert(0 <= lowest(x) < j < 64 && bit(x, lowest(x)) && bit(x, j));
        } else {
            assert forall|i: int, j: int| 0 <= i < j < 64 implies !(bit(x, i) && bit(x, j)) by {
                if bit(x, i) && bit(x, j) {
                    assert(bit(y, j));
                    lemma_bit_zero(j);
                }
            }
        }
    }
}

} // verus!
