use vstd::prelude::*;

verus! {

/// A column of the board, from `A` on the queen side to `H` on the king side.
#[derive(Debug, Clone, Copy, PartialEq, Eq, Structural)]
pub enum File {
    A,
    B,
    C,
    D,
    E,
    F,
    G,
    H,
}

impl File {
    /// Number of files.
    pub const COUNT: usize = 8;

    /// The file as a number in `0..8`.
    pub open spec fn idx(self) -> int {
        match self {
            File::A => 0,
            File::B => 1,
            File::C => 2,
            File::D => 3,
            File::E => 4,
            File::F => 5,
            File::G => 6,
            File::H => 7,
        }
    }

    /// The file with a given number.
    pub open spec fn of(i: int) -> File
        recommends
            0 <= i < 8,
    {
        if i == 0 {
            File::A
        } else if i == 1 {
            File::B
        } else if i == 2 {
            File::C
        } else if i == 3 {
            File::D
        } else if i == 4 {
            File::E
        } else if i == 5 {
            File::F
        } else if i == 6 {
            File::G
        } else {
            File::H
        }
    }

    #[inline(always)]
    pub fn index(self) -> (r: usize)
        ensures
            r == self.idx(),
            r < 8,
    {
        self.value() as usize
    }

    #[inline(always)]
    pub fn value(self) -> (r: u8)
        ensures
            r == self.idx(),
            r < 8,
    {
        match self {
            File::A => 0,
            File::B => 1,
            File::C => 2,
            File::D => 3,
            File::E => 4,
            File::F => 5,
            File::G => 6,
            File::H => 7,
        }
    }

    /// The file numbered `value`, which the caller guarantees to be below 8.
    #[inline(always)]
    pub fn from_raw(value: u8) -> (r: File)
        requires
            value < 8,
        ensures
            r == File::of(value as int),
            r.idx() == value,
    {
        match value {
            0 => File::A,
            1 => File::B,
            2 => File::C,
            3 => File::D,
            4 => File::E,
            5 => File::F,
            6 => File::G,
            _ => File::H,
        }
    }

    /// Reads a file letter, `a` to `h`.
    #[inline(always)]
    pub fn from_char(character: char) -> (r: Option<File>)
        ensures
            r == (if 'a' <= character <= 'h' {
                Some(File::of(character as int - 'a' as int))
            } else {
                None::<File>
            }),
    {
        match character {
            'a' => Some(File::A),
            'b' => Some(File::B),
            'c' => Some(File::C),
            'd' => Some(File::D),
            'e' => Some(File::E),
            'f' => Some(File::F),
            'g' => Some(File::G),
            'h' => Some(File::H),
            _ => None,
        }
    }

    /// The letter of the file, `a` to `h`.
    #[inline(always)]
    pub fn to_char(self) -> (r: char)
        ensures
            r as int == 'a' as int + self.idx(),
    {
        match self {
            File::A => 'a',
            File::B => 'b',
            File::C => 'c',
            File::D => 'd',
            File::E => 'e',
            File::F => 'f',
            File::G => 'g',
            File::H => 'h',
        }
    }

    /// The file mirrored left to right.
    #[inline(always)]
    pub fn flip(self) -> (r: File)
        ensures
            r.idx() == 7 - self.idx(),
    {
        File::from_raw(7 - self.value())
    }

    /// How many files lie between the two, counting one of them.
    #[inline(always)]
    pub fn distance(self, other: File) -> (r: u8)
        ensures
            r == vstd::math::abs(self.idx() - other.idx()),
    {
        let a = self.value();
        let b = other.value();
        if a < b {
            b - a
        } else {
            a - b
        }
    }

    /// Every file, from `A` to `H`.
    pub fn all() -> (r: [File; 8])
        ensures
            forall|i: int| 0 <= i < 8 ==> (#[trigger] r[i]).idx() == i,
    {
        [File::A, File::B, File::C, File::D, File::E, File::F, File::G, File::H]
    }
}

} // verus!
