use chess_core::castle::{Castle, CastleKind};
use chess_core::color::Color;
use chess_core::direction::Direction;
use chess_core::file::File;
use chess_core::moves::{Move, MoveKind};
use chess_core::piece::{Piece, PieceKind};
use chess_core::rank::Rank;
use chess_core::square::Square;

#[test]
fn color_conversions() {
    assert_eq!(Color::White.index(), 0);
    assert_eq!(Color::Black.value(), 1);
    assert_eq!(Color::from_raw(true), Color::Black);
    assert_eq!(Color::from_raw(false), Color::White);
    assert_eq!(Color::from_char('w'), Some(Color::White));
    assert_eq!(Color::from_char('b'), Some(Color::Black));
    assert_eq!(Color::from_char('x'), None);
    assert_eq!(Color::White.not(), Color::Black);
    assert_eq!(Color::Black.not(), Color::White);
    assert_eq!(Color::Black.to_char(), 'b');
}

#[test]
fn file_conversions() {
    assert_eq!(File::A.index(), 0);
    assert_eq!(File::H.value(), 7);
    assert_eq!(File::from_raw(3), File::D);
    assert_eq!(File::from_char('e'), Some(File::E));
    assert_eq!(File::from_char('i'), None);
    assert_eq!(File::B.flip(), File::G);
    assert_eq!(File::A.distance(File::H), 7);
    assert_eq!(File::H.distance(File::C), 5);
    assert_eq!(File::C.to_char(), 'c');
    let all = File::all();
    for (i, file) in all.iter().enumerate() {
        assert_eq!(file.index(), i);
    }
}

#[test]
fn rank_conversions() {
    assert_eq!(Rank::First.index(), 0);
    assert_eq!(Rank::Eighth.value(), 7);
    assert_eq!(Rank::from_raw(2), Rank::Third);
    assert_eq!(Rank::from_char('1'), Some(Rank::First));
    assert_eq!(Rank::from_char('8'), Some(Rank::Eighth));
    assert_eq!(Rank::from_char('9'), None);
    assert_eq!(Rank::Second.flip(), Rank::Seventh);
    assert_eq!(Rank::Second.distance(Rank::Fourth), 2);
    assert_eq!(Rank::Second.relative(Color::White), Rank::Second);
    assert_eq!(Rank::Second.relative(Color::Black), Rank::Seventh);
    assert_eq!(Rank::Fifth.to_char(), '5');
    let all = Rank::all();
    for (i, rank) in all.iter().enumerate() {
        assert_eq!(rank.index(), i);
    }
}

#[test]
fn square_is_rank_times_eight_plus_file() {
    assert_eq!(Square::new(Rank::First, File::A), Square::A1);
    assert_eq!(Square::new(Rank::Fourth, File::E), Square::E4);
    assert_eq!(Square::E4.index(), 28);
    assert_eq!(Square::H8.value(), 63);
    assert_eq!(Square::from_raw(0), Square::A1);
    assert_eq!(Square::from_raw(63), Square::H8);
    assert_eq!(Square::E4.rank(), Rank::Fourth);
    assert_eq!(Square::E4.file(), File::E);
    let all = Square::all();
    for (i, square) in all.iter().enumerate() {
        assert_eq!(square.index(), i);
        assert_eq!(Square::from_raw(i as u8), *square);
        assert_eq!(Square::new(square.rank(), square.file()), *square);
    }
}

#[test]
fn square_mirrors_and_steps() {
    assert_eq!(Square::A1.flip_file(), Square::H1);
    assert_eq!(Square::A1.flip_rank(), Square::A8);
    assert_eq!(Square::C2.relative(Color::White), Square::C2);
    assert_eq!(Square::C2.relative(Color::Black), Square::C7);
    assert_eq!(Square::E4.shift(Direction::North), Some(Square::E5));
    assert_eq!(Square::E4.shift(Direction::SouthWest), Some(Square::D3));
    assert_eq!(Square::A1.shift(Direction::West), None);
    assert_eq!(Square::A1.shift(Direction::South), None);
    assert_eq!(Square::H8.shift(Direction::NorthEast), None);
    assert_eq!(Square::H4.shift(Direction::East), None);
    assert_eq!(Square::A1.chebyshev(Square::H8), 7);
    assert_eq!(Square::B2.chebyshev(Square::C7), 5);
    assert_eq!(Square::E4.enpassant(), Square::E3);
    assert_eq!(Square::E5.enpassant(), Square::E6);
    assert_eq!(Square::E3.enpassant(), Square::E4);
    assert_eq!(Square::E6.enpassant(), Square::E5);
}

#[test]
fn square_names() {
    assert_eq!(Square::E4.to_string(), "e4");
    assert_eq!(Square::A8.to_string(), "a8");
    assert_eq!(Square::from_str("h1"), Some(Square::H1));
    assert_eq!(Square::from_str("e3"), Some(Square::E3));
    assert_eq!(Square::from_str("-"), None);
    assert_eq!(Square::from_str("i1"), None);
    assert_eq!(Square::from_str("a9"), None);
    assert_eq!(Square::from_str("a1b"), None);
    assert_eq!(Square::from_str(""), None);
}

#[test]
fn direction_offsets() {
    assert_eq!(Direction::North.offset(), (0, 1));
    assert_eq!(Direction::SouthWest.offset(), (-1, -1));
    assert_eq!(Direction::East.offset(), (1, 0));
    assert_eq!(Direction::North.not(), Direction::South);
    assert_eq!(Direction::NorthEast.not(), Direction::SouthWest);
    assert_eq!(Direction::West.not(), Direction::East);
}

#[test]
fn piece_is_kind_and_color() {
    assert_eq!(Piece::new(PieceKind::Pawn, Color::White), Piece::WhitePawn);
    assert_eq!(Piece::new(PieceKind::King, Color::Black), Piece::BlackKing);
    assert_eq!(Piece::WhiteQueen.index(), 8);
    assert_eq!(Piece::BlackKnight.value(), 3);
    assert_eq!(Piece::from_raw(7), Piece::BlackRook);
    assert_eq!(PieceKind::from_raw(4), PieceKind::Queen);
    assert_eq!(PieceKind::Rook.index(), 3);
    assert_eq!(PieceKind::Bishop.to_char(), 'b');
    for value in 0..12u8 {
        let piece = Piece::from_raw(value);
        assert_eq!(Piece::new(piece.kind(), piece.color()), piece);
        assert_eq!(Piece::from_char(piece.to_char()), Some(piece));
    }
    assert_eq!(Piece::from_char('Q'), Some(Piece::WhiteQueen));
    assert_eq!(Piece::from_char('n'), Some(Piece::BlackKnight));
    assert_eq!(Piece::from_char('x'), None);
    assert_eq!(Piece::from_char('1'), None);
}

#[test]
fn castle_kinds() {
    assert_eq!(CastleKind::WhiteShort.value(), 1);
    assert_eq!(CastleKind::WhiteLong.value(), 2);
    assert_eq!(CastleKind::BlackShort.value(), 4);
    assert_eq!(CastleKind::BlackLong.index(), 8);
    assert_eq!(CastleKind::new(Color::White, true), CastleKind::WhiteShort);
    assert_eq!(CastleKind::new(Color::Black, false), CastleKind::BlackLong);
    assert_eq!(CastleKind::WhiteShort.king_to(), Square::G1);
    assert_eq!(CastleKind::WhiteLong.king_to(), Square::C1);
    assert_eq!(CastleKind::BlackShort.rook_to(), Square::F8);
    assert_eq!(CastleKind::BlackLong.rook_to(), Square::D8);
    assert_eq!(CastleKind::BlackLong.rook_from(), Square::A8);
    assert_eq!(CastleKind::WhiteShort.king_from(), Square::E1);
    assert_eq!(CastleKind::BlackShort.color(), Color::Black);
    assert_eq!(CastleKind::from_corner(Square::H1), Some(CastleKind::WhiteShort));
    assert_eq!(CastleKind::from_corner(Square::A8), Some(CastleKind::BlackLong));
    assert_eq!(CastleKind::from_corner(Square::E1), None);
    assert_eq!(
        CastleKind::all(),
        [
            CastleKind::WhiteShort,
            CastleKind::WhiteLong,
            CastleKind::BlackShort,
            CastleKind::BlackLong
        ]
    );
}

#[test]
fn castle_mask_loses_rights_one_by_one() {
    let mut castles = Castle::new();
    assert_eq!(castles.value(), 0);
    for kind in CastleKind::all() {
        assert!(castles.is_allowed(kind));
    }
    castles.update(CastleKind::WhiteLong);
    assert!(!castles.is_allowed(CastleKind::WhiteLong));
    assert!(castles.is_allowed(CastleKind::WhiteShort));
    assert!(castles.is_allowed(CastleKind::BlackShort));
    assert!(castles.is_allowed(CastleKind::BlackLong));
    assert_eq!(castles.index(), 2);
    castles.update(CastleKind::BlackLong);
    assert_eq!(castles.value(), 10);
    castles.update(CastleKind::BlackLong);
    assert_eq!(castles.value(), 10);
}

#[test]
fn move_packs_its_parts() {
    let mv = Move::new(Square::E2, Square::E4, MoveKind::Normal);
    assert_eq!(mv.from(), Square::E2);
    assert_eq!(mv.to(), Square::E4);
    assert_eq!(mv.kind(), MoveKind::Normal);
    assert!(mv.is_some());
    assert!(!mv.is_null());
    assert!(mv.is_normal());
    assert!(!mv.is_special());
    assert_eq!(mv.promotion_kind(), None);
    assert_eq!(mv.to_string(), "e2e4");
    let all = Square::all();
    let kinds = [
        MoveKind::Normal,
        MoveKind::Castling,
        MoveKind::Enpassant,
        MoveKind::PromotionKnight,
        MoveKind::PromotionBishop,
        MoveKind::PromotionRook,
        MoveKind::PromotionQueen,
    ];
    for from in all.iter() {
        for to in all.iter() {
            for kind in kinds.iter() {
                let mv = Move::new(*from, *to, *kind);
                assert_eq!(mv.from(), *from);
                assert_eq!(mv.to(), *to);
                assert_eq!(mv.kind(), *kind);
            }
        }
    }
}

#[test]
fn move_kinds() {
    assert_eq!(MoveKind::from_raw(0), MoveKind::Normal);
    assert_eq!(MoveKind::from_raw(6), MoveKind::PromotionQueen);
    assert_eq!(MoveKind::Enpassant.value(), 2);
    assert_eq!(MoveKind::Castling.index(), 1);
    assert!(!MoveKind::Normal.is_special());
    assert!(MoveKind::Castling.is_special());
    let castle = Move::new(Square::E1, Square::G1, MoveKind::Castling);
    assert!(castle.is_castling());
    assert!(castle.is_special());
    assert!(!castle.is_promotion());
    let passing = Move::new(Square::E5, Square::D6, MoveKind::Enpassant);
    assert!(passing.is_enpassant());
    assert!(!passing.is_castling());
    let promotion = Move::new(Square::E7, Square::E8, MoveKind::PromotionQueen);
    assert!(promotion.is_promotion());
    assert_eq!(promotion.promotion_kind(), Some(PieceKind::Queen));
    assert_eq!(promotion.to_string(), "e7e8q");
    let under = Move::new(Square::A2, Square::B1, MoveKind::PromotionKnight);
    assert_eq!(under.promotion_kind(), Some(PieceKind::Knight));
    assert_eq!(under.to_string(), "a2b1n");
    assert_eq!(
        Move::new(Square::A7, Square::A8, MoveKind::PromotionRook).promotion_kind(),
        Some(PieceKind::Rook)
    );
    assert_eq!(
        Move::new(Square::A7, Square::A8, MoveKind::PromotionBishop).promotion_kind(),
        Some(PieceKind::Bishop)
    );
}

#[test]
fn null_move_is_all_zero() {
    let null = Move::null();
    assert!(null.is_null());
    assert!(!null.is_some());
    assert_eq!(null, Move::new(Square::A1, Square::A1, MoveKind::Normal));
}
