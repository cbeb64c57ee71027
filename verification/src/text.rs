use vstd::prelude::*;
use vstd::string::StringSliceAdditionalSpecFns;
use crate::bitboard::Bitboard;
use crate::bits::bit;
use crate::board::Board;
use crate::color::Color;
use crate::fen::target;
use crate::file::File;
use crate::moves::Move;
use crate::piece::{Piece, PieceKind};
use crate::rank::Rank;
use crate::square::{lemma_square_idx_of, Square};

verus! {

/// `String::push` appends a character, as its documentation says.
pub assume_specification[ String::push ](text: &mut String, c: char)
    ensures
        final(text)@ == old(text)@.push(c),
;

/// The letter of a file.
pub open spec fn file_letter(file: int) -> char {
    ('a' as u8 + file as u8) as char
}

/// The digit of a rank.
pub open spec fn rank_digit(rank: int) -> char {
    ('1' as u8 + rank as u8) as char
}

/// The name of the square numbered `square`: the letter of its file, then
/// the digit of its rank.
pub open spec fn square_name(square: int) -> Seq<char> {
    seq![file_letter(square % 8), rank_digit(square / 8)]
}

/// The letter that move text uses for a promotion; nothing for a move that
/// does not promote.
pub open spec fn promotion_suffix(kind: Option<PieceKind>) -> Seq<char> {
    match kind {
        Some(PieceKind::Knight) => seq!['n'],
        Some(PieceKind::Bishop) => seq!['b'],
        Some(PieceKind::Rook) => seq!['r'],
        Some(PieceKind::Queen) => seq!['q'],
        Some(PieceKind::King) => seq!['k'],
        Some(PieceKind::Pawn) => seq!['p'],
        None => Seq::empty(),
    }
}

/// A move in coordinate notation: origin, destination, and the letter of
/// the piece that a pawn turns into.
pub open spec fn move_text(mv: Move) -> Seq<char> {
    square_name(mv.from_spec().idx()) + square_name(mv.to_spec().idx()) + promotion_suffix(
        mv.kind_spec().promotion(),
    )
}

/// The first `n` squares of a rank of a grid: for each square its mark and
/// a space.
pub open spec fn grid_row(marks: spec_fn(int) -> char, rank: int, n: int) -> Seq<char>
    decreases n,
{
    if n <= 0 {
        Seq::empty()
    } else {
        grid_row(marks, rank, n - 1) + seq![marks(rank * 8 + n - 1), ' ']
    }
}

/// The top `n` ranks of a grid, the eighth first, each ended by a line
/// break.
pub open spec fn grid(marks: spec_fn(int) -> char, n: int) -> Seq<char>
    decreases n,
{
    if n <= 0 {
        Seq::empty()
    } else {
        grid(marks, n - 1) + grid_row(marks, 8 - n, 8) + seq!['\n']
    }
}

/// The marks of a set of squares: `X` for a square of the set, a dot for
/// any other.
pub open spec fn set_marks(data: u64) -> spec_fn(int) -> char {
    |square: int|
        if bit(data, square) {
            'X'
        } else {
            '.'
        }
}

/// The marks of a placement: the letter of the piece on a square, a dot
/// for an empty one.
pub open spec fn piece_marks(cells: Seq<Option<Piece>>) -> spec_fn(int) -> char {
    |square: int|
        match cells[square] {
            Some(piece) => piece.letter(),
            None => '.',
        }
}

/// The letter of a color.
pub open spec fn color_letter(color: Color) -> char {
    match color {
        Color::White => 'w',
        Color::Black => 'b',
    }
}

/// The text `color: `.
pub open spec fn color_label() -> Seq<char> {
    seq!['c', 'o', 'l', 'o', 'r', ':', ' ']
}

impl Square {
    /// The name of the square: the letter of its file, then the digit of
    /// its rank.
    pub fn to_string(self) -> (r: String)
        ensures
            r@ == square_name(self.idx()),
    {
        let mut text = String::new();
        text.push(self.file().to_char());
        text.push(self.rank().to_char());
        assert(text@ =~= square_name(self.idx()));
        text
    }

    /// Reads the name of a square: a file letter and a rank digit. `None`
    /// for anything else.
    pub fn from_str(text: &str) -> (r: Option<Square>)
        ensures
            r == target(text.spec_bytes()),
    {
        let bytes = text.as_bytes();
        if bytes.len() != 2 {
            return None;
        }
        let file = bytes[0];
        let rank = bytes[1];
        if file < 0x61 || file > 0x68 || rank < 0x31 || rank > 0x38 {
            return None;
        }
        Some(Square::new(Rank::from_raw(rank - 0x31), File::from_raw(file - 0x61)))
    }
}

impl Move {
    /// The move in coordinate notation, such as `e2e4` or `e7e8q`.
    pub fn to_string(self) -> (r: String)
        ensures
            r@ == move_text(self),
    {
        let mut text = String::new();
        let from = self.from();
        let to = self.to();
        text.push(from.file().to_char());
        text.push(from.rank().to_char());
        text.push(to.file().to_char());
        text.push(to.rank().to_char());
        match self.promotion_kind() {
            Some(kind) => {
                text.push(kind.to_char());
            },
            None => {},
        }
        assert(text@ =~= move_text(self));
        text
    }
}

/// Appends a grid of marks to a text: eight ranks, the eighth first.
fn push_grid(text: &mut String, marks: &[char; 64], Ghost(of): Ghost<spec_fn(int) -> char>)
    requires
        forall|i: int| 0 <= i < 64 ==> marks[i] == of(i),
    ensures
        final(text)@ == old(text)@ + grid(of, 8),
{
    let mut row: usize = 0;
    assert(text@ + grid(of, 0) =~= text@);
    while row < 8
        invariant
            row <= 8,
            forall|i: int| 0 <= i < 64 ==> marks[i] == of(i),
            text@ == old(text)@ + grid(of, row as int),
        decreases 8 - row,
    {
        let rank = 7 - row;
        let ghost start = text@;
        let mut file: usize = 0;
        assert(start + grid_row(of, rank as int, 0) =~= start);
        while file < 8
            invariant
                file <= 8,
                rank < 8,
                forall|i: int| 0 <= i < 64 ==> marks[i] == of(i),
                text@ == start + grid_row(of, rank as int, file as int),
            decreases 8 - file,
        {
            let ghost before = text@;
            text.push(marks[rank * 8 + file]);
            text.push(' ');
            assert(text@ =~= start + grid_row(of, rank as int, file as int + 1));
            file += 1;
        }
        text.push('\n');
        assert(text@ =~= old(text)@ + grid(of, row as int + 1));
        row += 1;
    }
}

impl Bitboard {
    /// The set as a grid of eight lines, the eighth rank first: `X` for a
    /// square of the set, a dot for any other, a space after each.
    pub fn to_string(self) -> (r: String)
        ensures
            r@ == grid(set_marks(self.data), 8),
    {
        let mut marks = ['.';64];
        let mut i: usize = 0;
        while i < 64
            invariant
                i <= 64,
                forall|k: int| 0 <= k < i ==> marks[k] == set_marks(self.data)(k),
            decreases 64 - i,
        {
            proof {
                lemma_square_idx_of(i as int);
            }
            if self.is_set(Square::from_raw(i as u8)) {
                marks[i] = 'X';
            } else {
                marks[i] = '.';
            }
            i += 1;
        }
        let mut text = String::new();
        push_grid(&mut text, &marks, Ghost(set_marks(self.data)));
        assert(Seq::<char>::empty() + grid(set_marks(self.data), 8) =~= grid(
            set_marks(self.data),
            8,
        ));
        text
    }
}

impl<'a> Board<'a> {
    /// The position as a grid of eight lines, the eighth rank first, with
    /// the letter of the piece on each square or a dot, and a last line that
    /// names the side to move.
    pub fn to_string(&self) -> (r: String)
        ensures
            r@ == grid(piece_marks(self.state.mailbox@), 8) + color_label() + seq![
                color_letter(self.color),
                '\n',
            ],
    {
        let mut marks = ['.';64];
        let mut i: usize = 0;
        while i < 64
            invariant
                i <= 64,
                forall|k: int| 0 <= k < i ==> marks[k] == piece_marks(self.state.mailbox@)(k),
            decreases 64 - i,
        {
            match self.state.mailbox[i] {
                Some(piece) => {
                    marks[i] = piece.to_char();
                },
                None => {
                    marks[i] = '.';
                },
            }
            i += 1;
        }
        let mut text = String::new();
        push_grid(&mut text, &marks, Ghost(piece_marks(self.state.mailbox@)));
        text.push('c');
        text.push('o');
        text.push('l');
        text.push('o');
        text.push('r');
        text.push(':');
        text.push(' ');
        text.push(self.color.to_char());
        text.push('\n');
        assert(text@ =~= grid(piece_marks(self.state.mailbox@), 8) + color_label() + seq![
            color_letter(self.color),
            '\n',
        ]);
        text
    }
}

} // verus!
