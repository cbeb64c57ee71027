use chess_core::attack::{
    bishop_attacks, king_attacks, king_table, knight_attacks, knight_table, pawn_attacks,
    pawn_east_attacks, pawn_table, pawn_west_attacks, rook_attacks,
};
use chess_core::bitboard::Bitboard;
use chess_core::color::Color;
use chess_core::direction::Direction;
use chess_core::file::File;
use chess_core::magic::{
    bishop_magic_table, bishop_table, magic_table, rook_magic_table, rook_table,
    slider_attacks, slider_table, BISHOP_DELTA, BISHOP_MAGICS, BISHOP_TABLE_SIZE, ROOK_DELTA,
    ROOK_MAGICS, ROOK_TABLE_SIZE,
};
use chess_core::mask::{between, between_mask, line_mask};
use chess_core::rank::Rank;
use chess_core::square::Square;

fn bits(squares: &[Square]) -> u64 {
    squares.iter().fold(0, |acc, square| acc | (1u64 << square.index()))
}

#[test]
fn set_algebra() {
    let a = Bitboard::from_raw(0b1100);
    let b = Bitboard::from_raw(0b1010);
    assert_eq!(a.bitand(b).value(), 0b1000);
    assert_eq!(a.bitor(b).value(), 0b1110);
    assert_eq!(a.bitxor(b).value(), 0b0110);
    assert_eq!(a.not().value(), !0b1100u64);
    let mut c = a;
    c.bitand_assign(b);
    assert_eq!(c.value(), 0b1000);
    c.bitor_assign(a);
    assert_eq!(c.value(), 0b1100);
    c.bitxor_assign(b);
    assert_eq!(c.value(), 0b0110);
}

#[test]
fn membership_and_counts() {
    let mut board = Bitboard::new();
    assert!(board.is_empty());
    assert!(!board.is_some());
    assert!(!board.is_only());
    assert!(!board.is_many());
    assert_eq!(board.count(), 0);
    board.set(Square::E4);
    assert!(board.is_set(Square::E4));
    assert!(!board.is_set(Square::E5));
    assert!(board.is_some());
    assert!(board.is_only());
    assert!(!board.is_many());
    assert_eq!(board.lsb(), Square::E4);
    assert_eq!(board, Bitboard::from_square(Square::E4));
    board.set(Square::A1);
    board.set(Square::H8);
    assert_eq!(board.count(), 3);
    assert!(board.is_many());
    assert!(!board.is_only());
    assert_eq!(board.lsb(), Square::A1);
    board.clear(Square::A1);
    assert_eq!(board.lsb(), Square::E4);
    assert_eq!(board.value(), (1u64 << 28) | (1u64 << 63));
    board.clear(Square::A1);
    assert_eq!(board.count(), 2);
}

#[test]
fn ranks_and_files() {
    assert_eq!(Bitboard::from_rank(Rank::First).value(), 0xff);
    assert_eq!(Bitboard::from_rank(Rank::Eighth).value(), 0xff00_0000_0000_0000);
    assert_eq!(Bitboard::from_file(File::A).value(), 0x0101_0101_0101_0101);
    assert_eq!(Bitboard::from_file(File::H).value(), 0x8080_8080_8080_8080);
}

#[test]
fn shifts_drop_what_leaves_the_board() {
    let h4 = Bitboard::from_square(Square::H4);
    assert!(h4.shift(Direction::East).is_empty());
    assert!(h4.shift(Direction::NorthEast).is_empty());
    assert!(h4.shift(Direction::SouthEast).is_empty());
    assert_eq!(h4.shift(Direction::West), Bitboard::from_square(Square::G4));
    assert_eq!(h4.shift(Direction::North), Bitboard::from_square(Square::H5));
    let a1 = Bitboard::from_square(Square::A1);
    assert!(a1.shift(Direction::West).is_empty());
    assert!(a1.shift(Direction::South).is_empty());
    assert!(a1.shift(Direction::SouthWest).is_empty());
    assert!(a1.shift(Direction::NorthWest).is_empty());
    assert_eq!(a1.shift(Direction::NorthEast), Bitboard::from_square(Square::B2));
    let second = Bitboard::from_rank(Rank::Second);
    assert_eq!(second.shift(Direction::North), Bitboard::from_rank(Rank::Third));
    assert_eq!(second.shift(Direction::South), Bitboard::from_rank(Rank::First));
    assert_eq!(second.shift(Direction::East).value(), 0xfe00);
    assert_eq!(second.shift(Direction::SouthWest).value(), 0x7f);
}

#[test]
fn walking_a_set_from_the_lowest_square() {
    let mut board = Bitboard::from_raw(bits(&[Square::H8, Square::C3, Square::A1]));
    assert_eq!(board.next(), Some(Square::A1));
    assert_eq!(board.next(), Some(Square::C3));
    assert_eq!(board.next(), Some(Square::H8));
    assert_eq!(board.next(), None);
    assert_eq!(board.next(), None);
    assert!(board.is_empty());
}

#[test]
fn eight_lines_of_marks() {
    let board = Bitboard::from_raw(bits(&[Square::A1, Square::H8]));
    let text = board.to_string();
    let lines: Vec<&str> = text.lines().collect();
    assert_eq!(lines.len(), 8);
    assert_eq!(lines[0], ". . . . . . . X ");
    assert_eq!(lines[7], "X . . . . . . . ");
    assert_eq!(lines[3], ". . . . . . . . ");
    assert!(text.ends_with('\n'));
}

#[test]
fn step_tables() {
    let pawns = pawn_table();
    assert_eq!(pawns[0][Square::E4.index()], bits(&[Square::D5, Square::F5]));
    assert_eq!(pawns[1][Square::E4.index()], bits(&[Square::D3, Square::F3]));
    assert_eq!(pawns[0][Square::A2.index()], bits(&[Square::B3]));
    assert_eq!(pawns[1][Square::H7.index()], bits(&[Square::G6]));
    assert_eq!(pawns[0][Square::E8.index()], 0);
    assert_eq!(pawns[1][Square::E1.index()], 0);
    let kings = king_table();
    assert_eq!(kings.len(), 64);
    assert_eq!(kings[Square::A1.index()], bits(&[Square::A2, Square::B1, Square::B2]));
    assert_eq!(kings[Square::E4.index()].count_ones(), 8);
    assert_eq!(kings[Square::H4.index()].count_ones(), 5);
    let knights = knight_table();
    assert_eq!(knights.len(), 64);
    assert_eq!(knights[Square::A1.index()], bits(&[Square::B3, Square::C2]));
    assert_eq!(knights[Square::E4.index()].count_ones(), 8);
    assert_eq!(
        knights[Square::G1.index()],
        bits(&[Square::E2, Square::F3, Square::H3])
    );
}

#[test]
fn one_sided_pawn_attacks() {
    assert_eq!(
        pawn_east_attacks(Square::E4, Color::White),
        Bitboard::from_square(Square::F5)
    );
    assert_eq!(
        pawn_west_attacks(Square::E4, Color::White),
        Bitboard::from_square(Square::D5)
    );
    assert_eq!(
        pawn_east_attacks(Square::E4, Color::Black),
        Bitboard::from_square(Square::D3)
    );
    assert_eq!(
        pawn_west_attacks(Square::E4, Color::Black),
        Bitboard::from_square(Square::F3)
    );
    assert!(pawn_east_attacks(Square::H4, Color::White).is_empty());
    assert!(pawn_west_attacks(Square::A4, Color::White).is_empty());
}

#[test]
fn ray_tracing_stops_at_the_first_blocker() {
    let rook = slider_attacks(Square::A1.index(), 0, ROOK_DELTA);
    assert_eq!(rook, 0x0101_0101_0101_01fe);
    let blocked = slider_attacks(
        Square::A1.index(),
        bits(&[Square::A3, Square::C1, Square::A5]),
        ROOK_DELTA,
    );
    assert_eq!(blocked, bits(&[Square::A2, Square::A3, Square::B1, Square::C1]));
    let bishop = slider_attacks(Square::D4.index(), bits(&[Square::F6, Square::B2]), BISHOP_DELTA);
    assert_eq!(
        bishop,
        bits(&[
            Square::E5,
            Square::F6,
            Square::C3,
            Square::B2,
            Square::C5,
            Square::B6,
            Square::A7,
            Square::E3,
            Square::F2,
            Square::G1
        ])
    );
}

#[test]
fn lookup_data_of_the_sliders() {
    let bishops = bishop_magic_table().unwrap();
    let rooks = rook_magic_table().unwrap();
    assert_eq!(rooks[0].mask, 0x0001_0101_0101_017e);
    assert_eq!(rooks[0].shift, 52);
    assert_eq!(rooks[0].offset, 0);
    assert_eq!(rooks[1].offset, 4096);
    assert_eq!(rooks[0].magic, ROOK_MAGICS[0]);
    assert_eq!(bishops[0].mask, 0x0040_2010_0804_0200);
    assert_eq!(bishops[0].shift, 58);
    assert_eq!(bishops[1].offset, 64);
    assert_eq!(bishops[63].magic, BISHOP_MAGICS[63]);
    let last = rooks[63];
    assert_eq!(last.offset + (1usize << last.mask.count_ones()), ROOK_TABLE_SIZE);
    let last = bishops[63];
    assert_eq!(last.offset + (1usize << last.mask.count_ones()), BISHOP_TABLE_SIZE);
    assert_eq!(
        magic_table(ROOK_MAGICS, ROOK_DELTA).unwrap()[27],
        rooks[27]
    );
}

#[test]
fn every_lookup_gives_the_ray_traced_attack() {
    let magics = bishop_magic_table().unwrap();
    let table = bishop_table(&magics).unwrap();
    assert_eq!(table.len(), BISHOP_TABLE_SIZE);
    for square in 0..64usize {
        let magic = magics[square];
        let mut occupied = 0u64;
        loop {
            assert_eq!(
                table[magic.index(Bitboard::from_raw(occupied))],
                slider_attacks(square, occupied, BISHOP_DELTA)
            );
            occupied = occupied.wrapping_sub(magic.mask) & magic.mask;
            if occupied == 0 {
                break;
            }
        }
    }
    let magics = rook_magic_table().unwrap();
    let table = rook_table(&magics).unwrap();
    assert_eq!(table.len(), ROOK_TABLE_SIZE);
    for square in [0usize, 7, 27, 36, 56, 63] {
        let magic = magics[square];
        let mut occupied = 0u64;
        loop {
            assert_eq!(
                table[magic.index(Bitboard::from_raw(occupied))],
                slider_attacks(square, occupied, ROOK_DELTA)
            );
            occupied = occupied.wrapping_sub(magic.mask) & magic.mask;
            if occupied == 0 {
                break;
            }
        }
    }
}

#[test]
fn a_table_of_the_wrong_size_is_not_built() {
    let magics = bishop_magic_table().unwrap();
    assert!(slider_table::<5247>(&magics, BISHOP_DELTA).is_none());
    assert!(slider_table::<5248>(&magics, BISHOP_DELTA).is_some());
}

#[test]
fn colliding_multipliers_are_turned_down() {
    let mut magics = bishop_magic_table().unwrap();
    magics[27].magic = 0;
    assert!(slider_table::<5248>(&magics, BISHOP_DELTA).is_none());
}

#[test]
fn squares_between() {
    assert_eq!(between_mask(0, 7), 0x7e);
    assert_eq!(
        between_mask(Square::A1.index() as i32, Square::H8.index() as i32),
        bits(&[
            Square::B2,
            Square::C3,
            Square::D4,
            Square::E5,
            Square::F6,
            Square::G7
        ])
    );
    assert_eq!(
        between_mask(Square::H1.index() as i32, Square::F3.index() as i32),
        bits(&[Square::G2])
    );
    assert_eq!(
        between_mask(Square::E1.index() as i32, Square::E4.index() as i32),
        bits(&[Square::E2, Square::E3])
    );
    assert_eq!(between_mask(0, 1), 0);
    assert_eq!(between_mask(0, 0), 0);
    assert_eq!(between_mask(Square::A1.index() as i32, Square::B3.index() as i32), 0);
    let table = between();
    assert_eq!(table.len(), 64);
    for a in 0..64usize {
        for b in 0..64usize {
            assert_eq!(table[a][b], table[b][a]);
            assert_eq!(table[a][b], between_mask(a as i32, b as i32));
        }
    }
}

#[test]
fn lines_through_two_squares() {
    assert_eq!(line_mask(0, 7), 0xff);
    assert_eq!(line_mask(0, 56), 0x0101_0101_0101_0101);
    assert_eq!(
        line_mask(Square::C3.index() as i32, Square::E5.index() as i32),
        bits(&[
            Square::A1,
            Square::B2,
            Square::C3,
            Square::D4,
            Square::E5,
            Square::F6,
            Square::G7,
            Square::H8
        ])
    );
    assert_eq!(
        line_mask(Square::H1.index() as i32, Square::F3.index() as i32),
        bits(&[
            Square::H1,
            Square::G2,
            Square::F3,
            Square::E4,
            Square::D5,
            Square::C6,
            Square::B7,
            Square::A8
        ])
    );
    assert_eq!(line_mask(0, 0), 0);
    assert_eq!(line_mask(Square::A1.index() as i32, Square::B3.index() as i32), 0);
    let table = chess_core::mask::line();
    for a in 0..64usize {
        for b in 0..64usize {
            assert_eq!(table[a][b], table[b][a]);
            assert_eq!(table[a][b], line_mask(a as i32, b as i32));
        }
    }
}

#[test]
fn lookups_through_the_tables() {
    let tables = chess_core::tables::Tables::new().unwrap();
    assert_eq!(
        pawn_attacks(&tables, Square::E4, Color::White).value(),
        bits(&[Square::D5, Square::F5])
    );
    assert_eq!(
        pawn_attacks(&tables, Square::E4, Color::Black).value(),
        bits(&[Square::D3, Square::F3])
    );
    assert_eq!(
        knight_attacks(&tables, Square::A1).value(),
        bits(&[Square::B3, Square::C2])
    );
    assert_eq!(king_attacks(&tables, Square::A1).value(), 0x302);
    let occupied = Bitboard::from_raw(bits(&[Square::E6, Square::B4, Square::G2, Square::H8]));
    for square in Square::all() {
        assert_eq!(
            rook_attacks(&tables, square, occupied).value(),
            slider_attacks(square.index(), occupied.value(), ROOK_DELTA)
        );
        assert_eq!(
            bishop_attacks(&tables, square, occupied).value(),
            slider_attacks(square.index(), occupied.value(), BISHOP_DELTA)
        );
    }
    assert_eq!(
        Bitboard::from_between(&tables, Square::A1, Square::D4).value(),
        bits(&[Square::B2, Square::C3])
    );
    assert_eq!(Bitboard::from_line(&tables, Square::A1, Square::A3).value(), 0x0101_0101_0101_0101);
    assert!(Bitboard::from_line(&tables, Square::A1, Square::B3).is_empty());
}

#[test]
fn the_index_of_a_lookup() {
    let rooks = rook_magic_table().unwrap();
    let magic = rooks[27];
    let occupied = bits(&[Square::D1, Square::D7, Square::A4, Square::H4, Square::E5]);
    let expected = ((occupied & magic.mask).wrapping_mul(magic.magic) >> magic.shift) as usize
        + magic.offset;
    assert_eq!(magic.index(Bitboard::from_raw(occupied)), expected);
    assert_eq!(magic.shift, 64 - magic.mask.count_ones());
    assert_eq!(magic.index(Bitboard::new()), magic.offset);
}

#[test]
fn exactly_one_square() {
    for square in Square::all() {
        assert!(Bitboard::from_square(square).is_only());
        assert_eq!(Bitboard::from_square(square).count(), 1);
    }
    assert!(!Bitboard::from_raw(3).is_only());
    assert!(!Bitboard::from_raw(0).is_only());
    assert_eq!(Bitboard::from_raw(0xffff_ffff_ffff_ffff).count(), 64);
}
