use vstd::prelude::*;
use crate::color::Color;

verus! {

/// A row of the board, counted from white's side.
#[derive(Debug, Clone, Copy, PartialEq, Eq, Structural)]
pub enum Rank {
    First,
    Second,
    Third,
    Fourth,
    Fifth,
    Sixth,
    Seventh,
    Eighth,
}

impl Rank {
    /// Number of ranks.
    pub const COUNT: usize = 8;

    /// The rank as a number in `0..8`.
    pub open spec fn idx(self) -> int {
        match self {
            Rank::First => 0,
            Rank::Second => 1,
            Rank::Third => 2,
            Rank::Fourth => 3,
            Rank::Fifth => 4,
            Rank::Sixth => 5,
            Rank::Seventh => 6,
            Rank::Eighth => 7,
        }
    }

    /// The rank with a given number.
    pub open spec fn of(i: int) -> Rank
        recommends
            0 <= i < 8,
    {
        if i == 0 {
            Rank::First
        } else if i == 1 {
            Rank::Second
        } else if i == 2 {
            Rank::Third
        } else if i == 3 {
            Rank::Fourth
        } else if i == 4 {
            Rank::Fifth
        } else if i == 5 {
            Rank::Sixth
        } else if i == 6 {
            Rank::Seventh
        } else {
            Rank::Eighth
        }
    }

    #[inline(always)]
    pub fn index(self) -> (r: usize)
        ensures
            r == self.idx(),
            r < 8,
    {
        self.value() as usize
    }

    #[inline(always)]
    pub fn value(self) -> (r: u8)
        ensures
            r == self.idx(),
            r < 8,
    {
        match self {
            Rank::First => 0,
            Rank::Second => 1,
            Rank::Third => 2,
            Rank::Fourth => 3,
            Rank::Fifth => 4,
            Rank::Sixth => 5,
            Rank::Seventh => 6,
            Rank::Eighth => 7,
        }
    }

    /// The rank numbered `value`, which the caller guarantees to be below 8.
    #[inline(always)]
    pub fn from_raw(value: u8) -> (r: Rank)
        requires
            value < 8,
        ensures
            r == Rank::of(value as int),
            r.idx() == value,
    {
        match value {
            0 => Rank::First,
            1 => Rank::Second,
            2 => Rank::Third,
            3 => Rank::Fourth,
            4 => Rank::Fifth,
            5 => Rank::Sixth,
            6 => Rank::Seventh,
            _ => Rank::Eighth,
        }
    }

    /// Reads a rank digit, `1` to `8`.
    #[inline(always)]
    pub fn from_char(character: char) -> (r: Option<Rank>)
        ensures
            r == (if '1' <= character <= '8' {
                Some(Rank::of(character as int - '1' as int))
            } else {
                None::<Rank>
            }),
    {
        match character {
            '1' => Some(Rank::First),
            '2' => Some(Rank::Second),
            '3' => Some(Rank::Third),
            '4' => Some(Rank::Fourth),
            '5' => Some(Rank::Fifth),
            '6' => Some(Rank::Sixth),
            '7' => Some(Rank::Seventh),
            '8' => Some(Rank::Eighth),
            _ => None,
        }
    }

    /// The digit of the rank, `1` to `8`.
    #[inline(always)]
    pub fn to_char(self) -> (r: char)
        ensures
            r as int == '1' as int + self.idx(),
    {
        match self {
            Rank::First => '1',
            Rank::Second => '2',
            Rank::Third => '3',
            Rank::Fourth => '4',
            Rank::Fifth => '5',
            Rank::Sixth => '6',
            Rank::Seventh => '7',
            Rank::Eighth => '8',
        }
    }

    /// The rank mirrored top to bottom.
    #[inline(always)]
    pub fn flip(self) -> (r: Rank)
        ensures
            r.idx() == 7 - self.idx(),
    {
        Rank::from_raw(7 - self.value())
    }

    /// How many ranks lie between the two, counting one of them.
    #[inline(always)]
    pub fn distance(self, other: Rank) -> (r: u8)
        ensures
            r == vstd::math::abs(self.idx() - other.idx()),
    {
        let a = self.value();
        let b = other.value();
        if a < b {
            b - a
        } else {
            a - b
        }
    }

    /// The rank as `color` counts it: black counts from the eighth.
    #[inline(always)]
    pub fn relative(self, color: Color) -> (r: Rank)
        ensures
            r.idx() == (match color {
                Color::White => self.idx(),
                Color::Black => 7 - self.idx(),
            }),
    {
        match color {
            Color::White => self,
            Color::Black => self.flip(),
        }
    }

    /// Every rank, from the first to the eighth.
    pub fn all() -> (r: [Rank; 8])
        ensures
            forall|i: int| 0 <= i < 8 ==> (#[trigger] r[i]).idx() == i,
    {
        [
            Rank::First,
            Rank::Second,
            Rank::Third,
            Rank::Fourth,
            Rank::Fifth,
            Rank::Sixth,
            Rank::Seventh,
            Rank::Eighth,
        ]
    }
}

} // verus!
