use vstd::prelude::*;
use crate::color::Color;
use crate::direction::Direction;
use crate::file::File;
use crate::rank::Rank;

verus! {

/// A square of the board. Squares are numbered rank by rank from white's
/// side, each rank from the `A` file on: `A1` is 0, `H1` is 7, `H8` is 63.
#[derive(Debug, Clone, Copy, PartialEq, Eq, Structural)]
pub enum Square {
    A1, B1, C1, D1, E1, F1, G1, H1,
    A2, B2, C2, D2, E2, F2, G2, H2,
    A3, B3, C3, D3, E3, F3, G3, H3,
    A4, B4, C4, D4, E4, F4, G4, H4,
    A5, B5, C5, D5, E5, F5, G5, H5,
    A6, B6, C6, D6, E6, F6, G6, H6,
    A7, B7, C7, D7, E7, F7, G7, H7,
    A8, B8, C8, D8, E8, F8, G8, H8,
}

impl Square {
    /// Number of squares.
    pub const COUNT: usize = 64;

    /// The number of the square in `0..64`: eight times its rank plus its file.
    pub open spec fn idx(self) -> int {
        self as int
    }

    /// The square with a given number.
    #[verifier::opaque]
    pub open spec fn of(i: int) -> Square
        recommends
            0 <= i < 64,
    {
        if i == 0 {
            Square::A1
        } else if i == 1 {
            Square::B1
        } else if i == 2 {
            Square::C1
        } else if i == 3 {
            Square::D1
        } else if i == 4 {
            Square::E1
        } else if i == 5 {
            Square::F1
        } else if i == 6 {
            Square::G1
        } else if i == 7 {
            Square::H1
        } else if i == 8 {
            Square::A2
        } else if i == 9 {
            Square::B2
        } else if i == 10 {
            Square::C2
        } else if i == 11 {
            Square::D2
        } else if i == 12 {
            Square::E2
        } else if i == 13 {
            Square::F2
        } else if i == 14 {
            Square::G2
        } else if i == 15 {
            Square::H2
        } else if i == 16 {
            Square::A3
        } else if i == 17 {
            Square::B3
        } else if i == 18 {
            Square::C3
        } else if i == 19 {
            Square::D3
        } else if i == 20 {
            Square::E3
        } else if i == 21 {
            Square::F3
        } else if i == 22 {
            Square::G3
        } else if i == 23 {
            Square::H3
        } else if i == 24 {
            Square::A4
        } else if i == 25 {
            Square::B4
        } else if i == 26 {
            Square::C4
        } else if i == 27 {
            Square::D4
        } else if i == 28 {
            Square::E4
        } else if i == 29 {
            Square::F4
        } else if i == 30 {
            Square::G4
        } else if i == 31 {
            Square::H4
        } else if i == 32 {
            Square::A5
        } else if i == 33 {
            Square::B5
        } else if i == 34 {
            Square::C5
        } else if i == 35 {
            Square::D5
        } else if i == 36 {
            Square::E5
        } else if i == 37 {
            Square::F5
        } else if i == 38 {
            Square::G5
        } else if i == 39 {
            Square::H5
        } else if i == 40 {
            Square::A6
        } else if i == 41 {
            Square::B6
        } else if i == 42 {
            Square::C6
        } else if i == 43 {
            Square::D6
        } else if i == 44 {
            Square::E6
        } else if i == 45 {
            Square::F6
        } else if i == 46 {
            Square::G6
        } else if i == 47 {
            Square::H6
        } else if i == 48 {
            Square::A7
        } else if i == 49 {
            Square::B7
        } else if i == 50 {
            Square::C7
        } else if i == 51 {
            Square::D7
        } else if i == 52 {
            Square::E7
        } else if i == 53 {
            Square::F7
        } else if i == 54 {
            Square::G7
        } else if i == 55 {
            Square::H7
        } else if i == 56 {
            Square::A8
        } else if i == 57 {
            Square::B8
        } else if i == 58 {
            Square::C8
        } else if i == 59 {
            Square::D8
        } else if i == 60 {
            Square::E8
        } else if i == 61 {
            Square::F8
        } else if i == 62 {
            Square::G8
        } else {
            Square::H8
        }
    }

    /// The square that lies on `rank` and `file`.
    pub open spec fn at(rank: int, file: int) -> Square
        recommends
            0 <= rank < 8,
            0 <= file < 8,
    {
        Square::of(rank * 8 + file)
    }

    /// Number of the rank the square lies on.
    pub open spec fn rank_idx(self) -> int {
        self.idx() / 8
    }

    /// Number of the file the square lies on.
    pub open spec fn file_idx(self) -> int {
        self.idx() % 8
    }

    /// The square on `rank` and `file`.
    #[inline(always)]
    pub fn new(rank: Rank, file: File) -> (r: Square)
        ensures
            r.idx() == rank.idx() * 8 + file.idx(),
            r == Square::at(rank.idx(), file.idx()),
    {
        Square::from_raw(rank.value() * 8 + file.value())
    }

    #[inline(always)]
    pub fn index(self) -> (r: usize)
        ensures
            r == self.idx(),
            r < 64,
    {
        self as usize
    }

    #[inline(always)]
    pub fn value(self) -> (r: u8)
        ensures
            r == self.idx(),
            r < 64,
    {
        self as u8
    }

    /// The square numbered `value`, which the caller guarantees to be below 64.
    #[inline(always)]
    pub fn from_raw(value: u8) -> (r: Square)
        requires
            value < 64,
        ensures
            r == Square::of(value as int),
            r.idx() == value,
    {
        let r = match value {
            0 => Square::A1,
            1 => Square::B1,
            2 => Square::C1,
            3 => Square::D1,
            4 => Square::E1,
            5 => Square::F1,
            6 => Square::G1,
            7 => Square::H1,
            8 => Square::A2,
            9 => Square::B2,
            10 => Square::C2,
            11 => Square::D2,
            12 => Square::E2,
            13 => Square::F2,
            14 => Square::G2,
            15 => Square::H2,
            16 => Square::A3,
            17 => Square::B3,
            18 => Square::C3,
            19 => Square::D3,
            20 => Square::E3,
            21 => Square::F3,
            22 => Square::G3,
            23 => Square::H3,
            24 => Square::A4,
            25 => Square::B4,
            26 => Square::C4,
            27 => Square::D4,
            28 => Square::E4,
            29 => Square::F4,
            30 => Square::G4,
            31 => Square::H4,
            32 => Square::A5,
            33 => Square::B5,
            34 => Square::C5,
            35 => Square::D5,
            36 => Square::E5,
            37 => Square::F5,
            38 => Square::G5,
            39 => Square::H5,
            40 => Square::A6,
            41 => Square::B6,
            42 => Square::C6,
            43 => Square::D6,
            44 => Square::E6,
            45 => Square::F6,
            46 => Square::G6,
            47 => Square::H6,
            48 => Square::A7,
            49 => Square::B7,
            50 => Square::C7,
            51 => Square::D7,
            52 => Square::E7,
            53 => Square::F7,
            54 => Square::G7,
            55 => Square::H7,
            56 => Square::A8,
            57 => Square::B8,
            58 => Square::C8,
            59 => Square::D8,
            60 => Square::E8,
            61 => Square::F8,
            62 => Square::G8,
            _ => Square::H8,
        };
        proof {
            lemma_square_of_idx(r);
        }
        r
    }

    /// The rank the square lies on.
    #[inline(always)]
    pub fn rank(self) -> (r: Rank)
        ensures
            r.idx() == self.rank_idx(),
    {
        Rank::from_raw(self.value() / 8)
    }

    /// The file the square lies on.
    #[inline(always)]
    pub fn file(self) -> (r: File)
        ensures
            r.idx() == self.file_idx(),
    {
        File::from_raw(self.value() % 8)
    }

    /// The square mirrored left to right: same rank, opposite file.
    #[inline(always)]
    pub fn flip_file(self) -> (r: Square)
        ensures
            r.rank_idx() == self.rank_idx(),
            r.file_idx() == 7 - self.file_idx(),
    {
        let v = self.value();
        Square::from_raw(v / 8 * 8 + (7 - v % 8))
    }

    /// The square mirrored top to bottom: same file, opposite rank.
    #[inline(always)]
    pub fn flip_rank(self) -> (r: Square)
        ensures
            r.rank_idx() == 7 - self.rank_idx(),
            r.file_idx() == self.file_idx(),
    {
        let v = self.value();
        Square::from_raw((7 - v / 8) * 8 + v % 8)
    }

    /// The square as `color` sees it: black sees the board mirrored top to
    /// bottom.
    #[inline(always)]
    pub fn relative(self, color: Color) -> (r: Square)
        ensures
            r.file_idx() == self.file_idx(),
            r.rank_idx() == (match color {
                Color::White => self.rank_idx(),
                Color::Black => 7 - self.rank_idx(),
            }),
    {
        match color {
            Color::White => self,
            Color::Black => self.flip_rank(),
        }
    }

    /// Whether one step in `direction` stays on the board.
    pub open spec fn can_shift(self, direction: Direction) -> bool {
        &&& 0 <= self.file_idx() + direction.df() < 8
        &&& 0 <= self.rank_idx() + direction.dr() < 8
    }

    /// The neighbouring square in `direction`, if the board has one.
    #[inline(always)]
    pub fn shift(self, direction: Direction) -> (r: Option<Square>)
        ensures
            r.is_some() == self.can_shift(direction),
            self.can_shift(direction) ==> r == Some(
                Square::at(self.rank_idx() + direction.dr(), self.file_idx() + direction.df()),
            ),
    {
        let offset = direction.offset();
        let file_new: i8 = self.file().value() as i8 + offset.0;
        let rank_new: i8 = self.rank().value() as i8 + offset.1;
        if rank_new < 0 || file_new < 0 || rank_new >= 8 || file_new >= 8 {
            return None;
        }
        Some(Square::new(Rank::from_raw(rank_new as u8), File::from_raw(file_new as u8)))
    }

    /// The number of king steps between two squares on an empty board.
    pub open spec fn chebyshev_spec(self, other: Square) -> nat {
        let df = vstd::math::abs(self.file_idx() - other.file_idx());
        let dr = vstd::math::abs(self.rank_idx() - other.rank_idx());
        if df > dr {
            df
        } else {
            dr
        }
    }

    /// The number of king steps between two squares on an empty board.
    #[inline(always)]
    pub fn chebyshev(self, other: Square) -> (r: u8)
        ensures
            r == self.chebyshev_spec(other),
    {
        let df = self.file().distance(other.file());
        let dr = self.rank().distance(other.rank());
        if df > dr {
            df
        } else {
            dr
        }
    }

    /// The partner of the square in a capture in passing: the square on the
    /// same file whose rank forms a pair with this one's, first with second,
    /// third with fourth and so on.
    pub open spec fn behind(self) -> Square {
        Square::at(
            if self.rank_idx() % 2 == 0 {
                self.rank_idx() + 1
            } else {
                self.rank_idx() - 1
            },
            self.file_idx(),
        )
    }

    /// The partner of the square in a capture in passing. For the square
    /// where a pawn's double step ends, it is the square that the pawn passed
    /// over; for that square, where the capturing pawn lands, it is the square
    /// of the pawn that is taken.
    #[inline(always)]
    pub fn enpassant(self) -> (r: Square)
        ensures
            r == self.behind(),
            r.file_idx() == self.file_idx(),
            r.rank_idx() == (if self.rank_idx() % 2 == 0 {
                self.rank_idx() + 1
            } else {
                self.rank_idx() - 1
            }),
    {
        let v = self.value();
        let rank = v / 8;
        let file = v % 8;
        if rank % 2 == 0 {
            Square::from_raw((rank + 1) * 8 + file)
        } else {
            Square::from_raw((rank - 1) * 8 + file)
        }
    }

    /// Every square, in the order of their numbers.
    pub fn all() -> (r: [Square; 64])
        ensures
            forall|i: int| 0 <= i < 64 ==> (#[trigger] r[i]).idx() == i,
    {
        [
            Square::A1, Square::B1, Square::C1, Square::D1, Square::E1, Square::F1, Square::G1, Square::H1,
            Square::A2, Square::B2, Square::C2, Square::D2, Square::E2, Square::F2, Square::G2, Square::H2,
            Square::A3, Square::B3, Square::C3, Square::D3, Square::E3, Square::F3, Square::G3, Square::H3,
            Square::A4, Square::B4, Square::C4, Square::D4, Square::E4, Square::F4, Square::G4, Square::H4,
            Square::A5, Square::B5, Square::C5, Square::D5, Square::E5, Square::F5, Square::G5, Square::H5,
            Square::A6, Square::B6, Square::C6, Square::D6, Square::E6, Square::F6, Square::G6, Square::H6,
            Square::A7, Square::B7, Square::C7, Square::D7, Square::E7, Square::F7, Square::G7, Square::H7,
            Square::A8, Square::B8, Square::C8, Square::D8, Square::E8, Square::F8, Square::G8, Square::H8,
        ]
    }
}

/// A square is determined by its number, and so by its rank and file.
pub proof fn lemma_square_of_idx(s: Square)
    ensures
        0 <= s.idx() < 64,
        Square::of(s.idx()) == s,
        Square::at(s.rank_idx(), s.file_idx()) == s,
{
    reveal(Square::of);
}

/// Numbers below 64 name distinct squares.
pub proof fn lemma_square_idx_of(i: int)
    requires
        0 <= i < 64,
    ensures
        Square::of(i).idx() == i,
{
    reveal(Square::of);
}

} // verus!
