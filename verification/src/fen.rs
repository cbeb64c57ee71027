use vstd::prelude::*;
use vstd::string::StringSliceAdditionalSpecFns;
use crate::board::{Board, FenParseError, State};
use crate::castle::{Castle, CastleKind};
use crate::color::Color;
use crate::file::File;
use crate::piece::Piece;
use crate::rank::Rank;
use crate::square::Square;
use crate::tables::Tables;

verus! {

/// The position that the game starts from.
pub const FEN_STARTPOS: &'static str = "rnbqkbnr/pppppppp/8/8/8/8/PPPPPPPP/RNBQKBNR w KQkq - 0 1";

/// What a position string says: where the pieces stand, the side to move,
/// the castling rights, the square of a capture in passing and the halfmove
/// clock.
pub struct Setup {
    pub cells: Seq<Option<Piece>>,
    pub color: Color,
    pub castles: Castle,
    pub enpassant: Option<Square>,
    pub halfmove: u8,
}

/// What the scan of the piece placement has seen so far: the pieces it has
/// put down, and the rank and file that it has come to.
pub struct Scan {
    pub cells: Seq<Option<Piece>>,
    pub rank: int,
    pub file: int,
}

/// Where the token that begins at `start` ends: at the next `sep`, or at the
/// end of the text.
pub open spec fn token_end(s: Seq<u8>, start: int, sep: u8) -> int
    decreases s.len() - start,
{
    if start >= s.len() {
        s.len() as int
    } else if s[start] == sep {
        start
    } else {
        token_end(s, start + 1, sep)
    }
}

/// Where the `n`-th token begins, counted from 0, when `sep` parts the
/// tokens. The first begins with the text; each further one after the `sep`
/// that ends the one before, if there is such a `sep`.
pub open spec fn token_start(s: Seq<u8>, n: nat, sep: u8) -> Option<int>
    decreases n,
{
    if n == 0 {
        Some(0)
    } else {
        match token_start(s, (n - 1) as nat, sep) {
            Some(start) => {
                let end = token_end(s, start, sep);
                if 0 <= start && end < s.len() {
                    Some(end + 1)
                } else {
                    None
                }
            },
            None => None,
        }
    }
}

/// The `n`-th token, if the text has that many.
pub open spec fn token(s: Seq<u8>, n: nat, sep: u8) -> Option<Seq<u8>> {
    match token_start(s, n, sep) {
        Some(start) => Some(s.subrange(start, token_end(s, start, sep))),
        None => None,
    }
}

/// The piece that a byte of the piece placement stands for.
pub open spec fn piece_of(byte: u8) -> Option<Piece> {
    Piece::of_char(byte as char)
}

/// One step of the scan of the piece placement. A piece letter puts the
/// piece on the next square of the rank, a digit from 1 to 8 skips that many
/// squares, and a slash after a full rank goes on to the rank below. Anything
/// else, or a rank that gets longer than eight squares, ends the scan.
pub open spec fn scan_step(scan: Scan, byte: u8) -> Option<Scan> {
    if byte == 0x2f {
        if scan.file == 8 && scan.rank > 0 {
            Some(Scan { cells: scan.cells, rank: scan.rank - 1, file: 0 })
        } else {
            None
        }
    } else if 0x31 <= byte <= 0x38 {
        if scan.file + (byte - 0x30) <= 8 {
            Some(Scan { cells: scan.cells, rank: scan.rank, file: scan.file + (byte - 0x30) })
        } else {
            None
        }
    } else {
        match piece_of(byte) {
            Some(piece) => if scan.file < 8 {
                Some(
                    Scan {
                        cells: scan.cells.update(scan.rank * 8 + scan.file, Some(piece)),
                        rank: scan.rank,
                        file: scan.file + 1,
                    },
                )
            } else {
                None
            },
            None => None,
        }
    }
}

/// The scan of the first `n` bytes of the piece placement, which starts on
/// the eighth rank of an empty board.
pub open spec fn scan(board: Seq<u8>, n: int) -> Option<Scan>
    decreases n,
{
    if n <= 0 {
        Some(Scan { cells: Seq::new(64, |i: int| None::<Piece>), rank: 7, file: 0 })
    } else {
        match scan(board, n - 1) {
            Some(before) => scan_step(before, board[n - 1]),
            None => None,
        }
    }
}

/// Where the pieces stand according to the piece placement: eight ranks of
/// eight squares each, the eighth rank first.
pub open spec fn placement(board: Seq<u8>) -> Option<Seq<Option<Piece>>> {
    match scan(board, board.len() as int) {
        Some(end) => if end.rank == 0 && end.file == 8 {
            Some(end.cells)
        } else {
            None
        },
        None => None,
    }
}

/// The side to move: `w` or `b`.
pub open spec fn side(field: Seq<u8>) -> Option<Color> {
    if field.len() == 1 && field[0] == 0x77 {
        Some(Color::White)
    } else if field.len() == 1 && field[0] == 0x62 {
        Some(Color::Black)
    } else {
        None
    }
}

/// Whether a byte is one of the letters `K`, `Q`, `k` and `q`.
pub open spec fn is_right(byte: u8) -> bool {
    byte == 0x4b || byte == 0x51 || byte == 0x6b || byte == 0x71
}

/// The mask with `kind` lost unless `kept`.
pub open spec fn keep(castles: Castle, kept: bool, kind: CastleKind) -> Castle {
    if kept {
        castles
    } else {
        castles.without(kind)
    }
}

/// The castling rights: a dash for none, or up to four of the letters `K`,
/// `Q`, `k` and `q`, each of which keeps one right.
pub open spec fn rights(field: Seq<u8>) -> Option<Castle> {
    if (field.len() == 1 && field[0] == 0x2d) || (field.len() <= 4 && forall|i: int|
        0 <= i < field.len() ==> is_right(#[trigger] field[i])) {
        Some(
            keep(
                keep(
                    keep(
                        keep(Castle { data: 0 }, field.contains(0x4b), CastleKind::WhiteShort),
                        field.contains(0x51),
                        CastleKind::WhiteLong,
                    ),
                    field.contains(0x6b),
                    CastleKind::BlackShort,
                ),
                field.contains(0x71),
                CastleKind::BlackLong,
            ),
        )
    } else {
        None
    }
}

/// The square of a capture in passing: a file letter and a rank digit; no
/// square for anything else.
pub open spec fn target(field: Seq<u8>) -> Option<Square> {
    if field.len() == 2 && 0x61 <= field[0] <= 0x68 && 0x31 <= field[1] <= 0x38 {
        Some(Square::at(field[1] - 0x31, field[0] - 0x61))
    } else {
        None
    }
}

/// Whether a text is made of decimal digits, and of one at least.
pub open spec fn is_number(digits: Seq<u8>) -> bool {
    digits.len() > 0 && forall|i: int| 0 <= i < digits.len() ==> 0x30 <= #[trigger] digits[i] <= 0x39
}

/// The number that the first `n` digits stand for.
pub open spec fn number(digits: Seq<u8>, n: int) -> int
    decreases n,
{
    if n <= 0 {
        0
    } else {
        number(digits, n - 1) * 10 + (digits[n - 1] - 0x30)
    }
}

/// The halfmove clock: a decimal number up to 255, which a plus sign may
/// precede; zero for anything else.
pub open spec fn clock(field: Seq<u8>) -> u8 {
    let digits = if field.len() > 0 && field[0] == 0x2b {
        field.subrange(1, field.len() as int)
    } else {
        field
    };
    if is_number(digits) && number(digits, digits.len() as int) <= 255 {
        number(digits, digits.len() as int) as u8
    } else {
        0
    }
}

/// What a position string says, or why it is turned down. The fields are
/// parted by single spaces: piece placement, side to move, castling rights,
/// square of a capture in passing, halfmove clock. The first three must be
/// there and sound; the last two fall back to no square and to zero.
/// Anything after them is ignored.
pub open spec fn parse(s: Seq<u8>) -> Result<Setup, FenParseError> {
    let board = token(s, 0, 0x20).unwrap();
    if board.len() == 0 {
        Err(FenParseError::MissingBoard)
    } else {
        match placement(board) {
            None => Err(FenParseError::InvalidBoard),
            Some(cells) => match token(s, 1, 0x20) {
                None => Err(FenParseError::MissingColor),
                Some(color_field) => match side(color_field) {
                    None => Err(FenParseError::InvalidColor),
                    Some(color) => match token(s, 2, 0x20) {
                        None => Err(FenParseError::MissingCastle),
                        Some(castle_field) => match rights(castle_field) {
                            None => Err(FenParseError::InvalidCastle),
                            Some(castles) => Ok(
                                Setup {
                                    cells,
                                    color,
                                    castles,
                                    enpassant: match token(s, 3, 0x20) {
                                        Some(field) => target(field),
                                        None => None,
                                    },
                                    halfmove: match token(s, 4, 0x20) {
                                        Some(field) => clock(field),
                                        None => 0,
                                    },
                                },
                            ),
                        },
                    },
                },
            },
        }
    }
}

/// Where the token that begins at `start` ends.
fn find(bytes: &[u8], start: usize, sep: u8) -> (end: usize)
    requires
        start <= bytes.len(),
    ensures
        end == token_end(bytes@, start as int, sep),
        start <= end <= bytes.len(),
        end < bytes.len() ==> bytes[end as int] == sep,
{
    let mut end = start;
    while end < bytes.len() && bytes[end] != sep
        invariant
            start <= end <= bytes.len(),
            token_end(bytes@, end as int, sep) == token_end(bytes@, start as int, sep),
        decreases bytes.len() - end,
    {
        end += 1;
    }
    end
}

/// The number that the first `n` digits stand for grows with `n`.
proof fn lemma_number_grows(digits: Seq<u8>, n: int, m: int)
    requires
        0 <= n <= m <= digits.len(),
        forall|i: int| 0 <= i < digits.len() ==> 0x30 <= #[trigger] digits[i] <= 0x39,
    ensures
        0 <= number(digits, n) <= number(digits, m),
    decreases m,
{
    if n < m {
        lemma_number_grows(digits, n, m - 1);
    } else if n > 0 {
        lemma_number_grows(digits, n - 1, n - 1);
    }
}

/// The halfmove clock that the bytes from `start` to `end` stand for.
fn read_clock(bytes: &[u8], start: usize, end: usize) -> (r: u8)
    requires
        start <= end <= bytes.len(),
    ensures
        r == clock(bytes@.subrange(start as int, end as int)),
{
    let ghost field = bytes@.subrange(start as int, end as int);
    let first = if start < end && bytes[start] == 0x2b {
        start + 1
    } else {
        start
    };
    let ghost digits = bytes@.subrange(first as int, end as int);
    proof {
        if start < end && bytes[start as int] == 0x2b {
            assert(field[0] == 0x2b);
            assert(digits =~= field.subrange(1, field.len() as int));
        } else {
            assert(start < end ==> field[0] != 0x2b);
            assert(digits =~= field);
        }
    }
    let ghost expected = clock(field);
    if first == end {
        return 0;
    }
    let mut value: u8 = 0;
    let mut i = first;
    while i < end
        invariant
            first <= i <= end <= bytes.len(),
            digits == bytes@.subrange(first as int, end as int),
            expected == clock(bytes@.subrange(start as int, end as int)),
            expected == (if is_number(digits) && number(digits, digits.len() as int) <= 255 {
                number(digits, digits.len() as int) as u8
            } else {
                0
            }),
            forall|j: int| 0 <= j < i - first ==> 0x30 <= #[trigger] digits[j] <= 0x39,
            value == number(digits, i - first),
        decreases end - i,
    {
        let byte = bytes[i];
        if byte < 0x30 || byte > 0x39 {
            assert(digits[i - first] == byte);
            return 0;
        }
        let digit = byte - 0x30;
        if value > 25 || (value == 25 && digit > 5) {
            proof {
                assert(digits[i - first] == byte);
                if is_number(digits) {
                    lemma_number_grows(digits, i - first + 1, digits.len() as int);
                }
            }
            return 0;
        }
        assert(digits[i - first] == byte);
        value = value * 10 + digit;
        i += 1;
    }
    value
}

impl<'a> Board<'a> {
    /// Sets up the position that a position string describes. For what is
    /// accepted and what is turned down, and why, see `parse`.
    pub fn from_fen(tables: &'a Tables, fen: &str) -> (r: Result<Board<'a>, FenParseError>)
        requires
            tables.wf(),
        ensures
            Board::set_up(tables, parse(fen.spec_bytes()), r),
    {
        Board::from_bytes(tables, fen.as_bytes())
    }

    /// The position that the game starts from: a sound board without
    /// history, with the pieces on their home squares, white to move, every
    /// castling right, no capture in passing and a clock at zero.
    pub fn startpos(tables: &'a Tables) -> (r: Result<Board<'a>, FenParseError>)
        requires
            tables.wf(),
        ensures
            Board::set_up(tables, parse(FEN_STARTPOS.spec_bytes()), r),
            r matches Ok(board) && board.wf() && board.tables == tables && board.stack.len() == 0
                && board.color == Color::White && board.state.mailbox@ == start_cells()
                && board.state.castles.data == 0 && board.state.enpassant.is_none()
                && board.state.halfmove == 0,
    {
        proof {
            lemma_start_text();
            lemma_start_parse();
        }
        Board::from_fen(tables, FEN_STARTPOS)
    }

    /// Whether `result` is the outcome of setting up what a position string
    /// says: the same refusal, or a sound board without history that has
    /// the pieces, side to move, rights, square of a capture in passing and
    /// clock of the string.
    pub open spec fn set_up(
        tables: &Tables,
        said: Result<Setup, FenParseError>,
        result: Result<Board<'a>, FenParseError>,
    ) -> bool {
        match said {
            Err(error) => result == Err::<Board<'a>, FenParseError>(error),
            Ok(setup) => {
                &&& result.is_ok()
                &&& result.unwrap().wf()
                &&& result.unwrap().tables == tables
                &&& result.unwrap().stack.len() == 0
                &&& result.unwrap().color == setup.color
                &&& result.unwrap().state.mailbox@ == setup.cells
                &&& result.unwrap().state.castles == setup.castles
                &&& result.unwrap().state.enpassant == setup.enpassant
                &&& result.unwrap().state.halfmove == setup.halfmove
            },
        }
    }

    /// Sets up the position that the bytes of a position string describe.
    pub fn from_bytes(tables: &'a Tables, bytes: &[u8]) -> (r: Result<Board<'a>, FenParseError>)
        requires
            tables.wf(),
        ensures
            Board::set_up(tables, parse(bytes@), r),
    {
        let mut board = Board {
            state: State::new(),
            color: Color::White,
            stack: Vec::new(),
            tables,
        };
        // Piece placement.
        let board_end = find(bytes, 0, 0x20);
        if board_end == 0 {
            return Err(FenParseError::MissingBoard);
        }
        let ghost field = bytes@.subrange(0, board_end as int);
        let mut rank: u8 = 7;
        let mut file: u8 = 0;
        let mut i: usize = 0;
        proof {
            assert(board.state.mailbox@ =~= Seq::new(64, |i: int| None::<Piece>));
            crate::board::lemma_placement_empty(board.state.mailbox@, 64);
            assert(0u64 ^ 0u64 == 0u64) by (bit_vector);
        }
        while i < board_end
            invariant
                0 < board_end,
                i <= board_end <= bytes.len(),
                field == bytes@.subrange(0, board_end as int),
                token(bytes@, 0, 0x20) == Some(field),
                tables.wf(),
                board.tables == tables,
                board.color == Color::White,
                board.stack.len() == 0,
                board.state.wf(),
                board.state.castles.data == 0,
                board.state.enpassant.is_none(),
                board.state.halfmove == 0,
                board.state.rest_key() == 0,
                rank < 8,
                file <= 8,
                scan(field, i as int) == Some(
                    Scan { cells: board.state.mailbox@, rank: rank as int, file: file as int },
                ),
                forall|s: int| rank * 8 + file <= s < rank * 8 + 8 ==> board.state.mailbox[s].is_none(),
                forall|s: int| 0 <= s < rank * 8 ==> board.state.mailbox[s].is_none(),
            decreases board_end - i,
        {
            let byte = bytes[i];
            assert(field[i as int] == byte);
            if byte == 0x2f {
                if file != 8 || rank == 0 {
                    proof {
                        lemma_scan_stuck(field, i as int + 1);
                    }
                    return Err(FenParseError::InvalidBoard);
                }
                rank -= 1;
                file = 0;
            } else if 0x31 <= byte && byte <= 0x38 {
                if file + (byte - 0x30) > 8 {
                    proof {
                        lemma_scan_stuck(field, i as int + 1);
                    }
                    return Err(FenParseError::InvalidBoard);
                }
                file += byte - 0x30;
            } else {
                match Piece::from_char(byte as char) {
                    Some(piece) => {
                        if file >= 8 {
                            proof {
                                lemma_scan_stuck(field, i as int + 1);
                            }
                            return Err(FenParseError::InvalidBoard);
                        }
                        let square = Square::new(Rank::from_raw(rank), File::from_raw(file));
                        board.state.place(tables, square, piece);
                        file += 1;
                    },
                    None => {
                        proof {
                            lemma_scan_stuck(field, i as int + 1);
                        }
                        return Err(FenParseError::InvalidBoard);
                    },
                }
            }
            i += 1;
        }
        if rank != 0 || file != 8 {
            return Err(FenParseError::InvalidBoard);
        }
        // Side to move.
        if board_end >= bytes.len() {
            return Err(FenParseError::MissingColor);
        }
        let color_start = board_end + 1;
        let color_end = find(bytes, color_start, 0x20);
        let ghost color_field = bytes@.subrange(color_start as int, color_end as int);
        if color_end - color_start != 1 {
            return Err(FenParseError::InvalidColor);
        }
        assert(color_field[0] == bytes[color_start as int]);
        board.color = match Color::from_char(bytes[color_start] as char) {
            Some(color) => color,
            None => {
                return Err(FenParseError::InvalidColor);
            },
        };
        // Castling rights.
        if color_end >= bytes.len() {
            return Err(FenParseError::MissingCastle);
        }
        let castle_start = color_end + 1;
        let castle_end = find(bytes, castle_start, 0x20);
        let castles = match read_rights(bytes, castle_start, castle_end) {
            Some(castles) => castles,
            None => {
                return Err(FenParseError::InvalidCastle);
            },
        };
        // Square of a capture in passing, and halfmove clock.
        let mut enpassant: Option<Square> = None;
        let mut halfmove: u8 = 0;
        if castle_end < bytes.len() {
            let target_start = castle_end + 1;
            let target_end = find(bytes, target_start, 0x20);
            enpassant = read_target(bytes, target_start, target_end);
            if target_end < bytes.len() {
                let clock_start = target_end + 1;
                let clock_end = find(bytes, clock_start, 0x20);
                halfmove = read_clock(bytes, clock_start, clock_end);
            }
        }
        board.state.dress(tables, castles, enpassant, halfmove, board.color);
        proof {
            board.state.lemma_rest_ok(board.color);
        }
        board.update_threats();
        Ok(board)
    }
}

/// A scan that has ended stays ended.
proof fn lemma_scan_stuck(board: Seq<u8>, n: int)
    requires
        0 <= n <= board.len(),
        scan(board, n).is_none(),
    ensures
        placement(board).is_none(),
    decreases board.len() - n,
{
    if n < board.len() {
        lemma_scan_stuck(board, n + 1);
    }
}

/// The castling rights that the bytes from `start` to `end` stand for.
fn read_rights(bytes: &[u8], start: usize, end: usize) -> (r: Option<Castle>)
    requires
        start <= end <= bytes.len(),
    ensures
        r == rights(bytes@.subrange(start as int, end as int)),
        r matches Some(castles) ==> castles.wf(),
{
    let ghost field = bytes@.subrange(start as int, end as int);
    let dash = end - start == 1 && bytes[start] == 0x2d;
    proof {
        if end - start == 1 {
            assert(field[0] == bytes[start as int]);
        }
    }
    if !dash && end - start > 4 {
        return None;
    }
    let mut white_short = false;
    let mut white_long = false;
    let mut black_short = false;
    let mut black_long = false;
    let mut i = start;
    while i < end
        invariant
            start <= i <= end <= bytes.len(),
            field == bytes@.subrange(start as int, end as int),
            dash == (field.len() == 1 && field[0] == 0x2d),
            dash || forall|j: int| 0 <= j < i - start ==> is_right(#[trigger] field[j]),
            white_short == field.take(i - start).contains(0x4b),
            white_long == field.take(i - start).contains(0x51),
            black_short == field.take(i - start).contains(0x6b),
            black_long == field.take(i - start).contains(0x71),
        decreases end - i,
    {
        let byte = bytes[i];
        assert(field[i - start] == byte);
        let ghost seen = field.take(i - start);
        let ghost next = field.take(i - start + 1);
        proof {
            assert(next =~= seen.push(byte));
            assert forall|b: u8| next.contains(b) == (seen.contains(b) || b == byte) by {
                if seen.contains(b) {
                    let k = choose|k: int| 0 <= k < seen.len() && seen[k] == b;
                    assert(next[k] == b);
                }
                if b == byte {
                    assert(next[seen.len() as int] == b);
                }
            }
        }
        if byte == 0x4b {
            white_short = true;
        } else if byte == 0x51 {
            white_long = true;
        } else if byte == 0x6b {
            black_short = true;
        } else if byte == 0x71 {
            black_long = true;
        } else if !dash {
            return None;
        }
        i += 1;
    }
    proof {
        assert(field.take(end - start) =~= field);
    }
    let mut castles = Castle::new();
    if !white_short {
        castles.update(CastleKind::WhiteShort);
    }
    if !white_long {
        castles.update(CastleKind::WhiteLong);
    }
    if !black_short {
        castles.update(CastleKind::BlackShort);
    }
    if !black_long {
        castles.update(CastleKind::BlackLong);
    }
    Some(castles)
}

/// The square of a capture in passing that the bytes from `start` to `end`
/// stand for.
fn read_target(bytes: &[u8], start: usize, end: usize) -> (r: Option<Square>)
    requires
        start <= end <= bytes.len(),
    ensures
        r == target(bytes@.subrange(start as int, end as int)),
{
    let ghost field = bytes@.subrange(start as int, end as int);
    if end - start != 2 {
        return None;
    }
    let file = bytes[start];
    let rank = bytes[start + 1];
    assert(field[0] == file && field[1] == rank);
    if file < 0x61 || file > 0x68 || rank < 0x31 || rank > 0x38 {
        return None;
    }
    Some(Square::new(Rank::from_raw(rank - 0x31), File::from_raw(file - 0x61)))
}

/// The bytes of the starting position's string.
pub open spec fn start_bytes() -> Seq<u8> {
    seq![
        0x72u8, 0x6e, 0x62, 0x71, 0x6b, 0x62, 0x6e, 0x72, 0x2f, 0x70, 0x70, 0x70, 0x70, 0x70, 0x70,
        0x70, 0x70, 0x2f, 0x38, 0x2f, 0x38, 0x2f, 0x38, 0x2f, 0x38, 0x2f, 0x50, 0x50, 0x50, 0x50,
        0x50, 0x50, 0x50, 0x50, 0x2f, 0x52, 0x4e, 0x42, 0x51, 0x4b, 0x42, 0x4e, 0x52, 0x20, 0x77,
        0x20, 0x4b, 0x51, 0x6b, 0x71, 0x20, 0x2d, 0x20, 0x30, 0x20, 0x31,
    ]
}

proof fn lemma_start_tokens()
    ensures
        token_end(start_bytes(), 0, 0x20) == 43,
        token_end(start_bytes(), 44, 0x20) == 45,
        token_end(start_bytes(), 46, 0x20) == 50,
        token_end(start_bytes(), 51, 0x20) == 52,
        token_end(start_bytes(), 53, 0x20) == 54,
{
    reveal_with_fuel(token_end, 45);
}

/// Where the pieces stand when the game starts.
pub open spec fn start_cells() -> Seq<Option<Piece>> {
    seq![
        Some(Piece::WhiteRook),
        Some(Piece::WhiteKnight),
        Some(Piece::WhiteBishop),
        Some(Piece::WhiteQueen),
        Some(Piece::WhiteKing),
        Some(Piece::WhiteBishop),
        Some(Piece::WhiteKnight),
        Some(Piece::WhiteRook),
        Some(Piece::WhitePawn),
        Some(Piece::WhitePawn),
        Some(Piece::WhitePawn),
        Some(Piece::WhitePawn),
        Some(Piece::WhitePawn),
        Some(Piece::WhitePawn),
        Some(Piece::WhitePawn),
        Some(Piece::WhitePawn),
        None,
        None,
        None,
        None,
        None,
        None,
        None,
        None,
        None,
        None,
        None,
        None,
        None,
        None,
        None,
        None,
        None,
        None,
        None,
        None,
        None,
        None,
        None,
        None,
        None,
        None,
        None,
        None,
        None,
        None,
        None,
        None,
        Some(Piece::BlackPawn),
        Some(Piece::BlackPawn),
        Some(Piece::BlackPawn),
        Some(Piece::BlackPawn),
        Some(Piece::BlackPawn),
        Some(Piece::BlackPawn),
        Some(Piece::BlackPawn),
        Some(Piece::BlackPawn),
        Some(Piece::BlackRook),
        Some(Piece::BlackKnight),
        Some(Piece::BlackBishop),
        Some(Piece::BlackQueen),
        Some(Piece::BlackKing),
        Some(Piece::BlackBishop),
        Some(Piece::BlackKnight),
        Some(Piece::BlackRook),
    ]
}

#[verifier::rlimit(30)]
proof fn lemma_start_placement()
    ensures
        placement(start_bytes().subrange(0, 43)) == Some(start_cells()),
{
    let field = start_bytes().subrange(0, 43);
    reveal_with_fuel(scan, 44);
    let end = scan(field, 43);
    assert(end.is_some());
    assert(end.unwrap().rank == 0 && end.unwrap().file == 8);
    assert(end.unwrap().cells =~= start_cells());
}

/// What the starting position's string says.
pub proof fn lemma_start_parse()
    ensures
        parse(start_bytes()) matches Ok(setup) && setup.cells == start_cells() && setup.color
            == Color::White && setup.castles.data == 0 && setup.enpassant.is_none()
            && setup.halfmove == 0,
{
    let s = start_bytes();
    lemma_start_tokens();
    lemma_start_placement();
    reveal_with_fuel(token_start, 6);
    assert(token(s, 0, 0x20) == Some(s.subrange(0, 43)));
    assert(token(s, 1, 0x20) == Some(s.subrange(44, 45)));
    assert(token(s, 2, 0x20) == Some(s.subrange(46, 50)));
    assert(token(s, 3, 0x20) == Some(s.subrange(51, 52)));
    assert(token(s, 4, 0x20) == Some(s.subrange(53, 54)));
    let castle_field = s.subrange(46, 50);
    assert(castle_field[0] == 0x4b && castle_field[1] == 0x51 && castle_field[2] == 0x6b
        && castle_field[3] == 0x71);
    assert(castle_field.contains(0x4b));
    assert(castle_field.contains(0x51));
    assert(castle_field.contains(0x6b));
    assert(castle_field.contains(0x71));
    let clock_field = s.subrange(53, 54);
    reveal_with_fuel(number, 2);
    assert(clock_field[0] == 0x30);
    assert(clock(clock_field) == 0);
}

/// The starting position's string has the bytes that are listed for it.
pub proof fn lemma_start_text()
    ensures
        FEN_STARTPOS.spec_bytes() == start_bytes(),
{
    broadcast use vstd::string::is_ascii_spec_bytes;

    reveal_strlit("rnbqkbnr/pppppppp/8/8/8/8/PPPPPPPP/RNBQKBNR w KQkq - 0 1");
    let text = FEN_STARTPOS;
    assert(text@.len() == 56);
    assert(vstd::string::is_ascii(text));
    assert(text.spec_bytes() =~= start_bytes());
}

} // verus!
