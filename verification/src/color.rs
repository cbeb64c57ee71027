use vstd::prelude::*;

verus! {

/// One of the two sides of a chess game.
#[derive(Debug, Clone, Copy, PartialEq, Eq, Structural)]
pub enum Color {
    White,
    Black,
}

impl Color {
    /// Number of colors.
    pub const COUNT: usize = 2;

    /// The color as a number: 0 for white, 1 for black.
    pub open spec fn idx(self) -> int {
        match self {
            Color::White => 0,
            Color::Black => 1,
        }
    }

    /// The other color.
    pub open spec fn other(self) -> Color {
        match self {
            Color::White => Color::Black,
            Color::Black => Color::White,
        }
    }

    #[inline(always)]
    pub fn index(self) -> (r: usize)
        ensures
            r == self.idx(),
    {
        match self {
            Color::White => 0,
            Color::Black => 1,
        }
    }

    #[inline(always)]
    pub fn value(self) -> (r: u8)
        ensures
            r == self.idx(),
    {
        match self {
            Color::White => 0,
            Color::Black => 1,
        }
    }

    /// `true` stands for black, `false` for white.
    #[inline(always)]
    pub fn from_raw(value: bool) -> (r: Color)
        ensures
            r == (if value { Color::Black } else { Color::White }),
    {
        if value {
            Color::Black
        } else {
            Color::White
        }
    }

    /// Reads the side-to-move letter of a position string.
    #[inline(always)]
    pub fn from_char(character: char) -> (r: Option<Color>)
        ensures
            r == (if character == 'w' {
                Some(Color::White)
            } else if character == 'b' {
                Some(Color::Black)
            } else {
                None::<Color>
            }),
    {
        if character == 'w' {
            Some(Color::White)
        } else if character == 'b' {
            Some(Color::Black)
        } else {
            None
        }
    }

    /// The opposing side.
    #[inline(always)]
    pub fn not(self) -> (r: Color)
        ensures
            r == self.other(),
            r != self,
    {
        match self {
            Color::White => Color::Black,
            Color::Black => Color::White,
        }
    }

    /// The letter that stands for the color in a position string.
    #[inline(always)]
    pub fn to_char(self) -> (r: char)
        ensures
            r == (match self {
                Color::White => 'w',
                Color::Black => 'b',
            }),
    {
        match self {
            Color::White => 'w',
            Color::Black => 'b',
        }
    }
}

} // verus!
