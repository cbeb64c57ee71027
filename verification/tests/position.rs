use chess_core::bitboard::Bitboard;
use chess_core::board::{Board, FenParseError, State};
use chess_core::castle::CastleKind;
use chess_core::color::Color;
use chess_core::magic::{slider_attacks, BISHOP_DELTA, ROOK_DELTA};
use chess_core::moves::{Move, MoveKind};
use chess_core::piece::{Piece, PieceKind};
use chess_core::square::Square;
use chess_core::tables::Tables;

const KIWIPETE: &str = "r3k2r/p1ppqpb1/bn2pnp1/3PN3/1p2P3/2N2Q1p/PPPBBPPP/R3K2R w KQkq - 0 1";
const ENDGAME: &str = "8/2p5/3p4/KP5r/1R3p1k/8/4P1P1/8 w - - 0 1";
const PROMOTIONS: &str = "r3k2r/Pppp1ppp/1b3nbN/nP6/BBP1P3/q4N2/Pp1P2PP/R2Q1RK1 w kq - 0 1";
const PASSING: &str = "rnbqkbnr/ppp1p1pp/8/3pPp2/8/8/PPPP1PPP/RNBQKBNR w KQkq f6 0 3";

fn error_of(tables: &Tables, fen: &str) -> FenParseError {
    match Board::from_fen(tables, fen) {
        Ok(_) => panic!("{} was accepted", fen),
        Err(error) => error,
    }
}

/// The hash of a position, folded together from scratch.
fn hash_from_scratch(tables: &Tables, board: &Board) -> u64 {
    let keys = &tables.zobrist;
    let mut hash = 0;
    for square in Square::all() {
        if let Some(piece) = board.state.at(square) {
            hash ^= keys.piece[piece.index()][square.index()];
        }
    }
    hash ^= keys.castling[board.state.castles().index()];
    if let Some(square) = board.state.enpassant() {
        hash ^= keys.enpassant[square.file().index()];
    }
    if board.color == Color::Black {
        hash ^= keys.color;
    }
    hash
}

/// The moves that may be made.
fn playable(board: &Board) -> Vec<Move> {
    board
        .generate_moves()
        .iter_moves()
        .into_iter()
        .filter(|mv| board.is_pseudo_legal(*mv) && board.is_legal(*mv))
        .collect()
}

/// Whether the piece on `from` attacks `to`, found by walking the board.
fn strikes(board: &Board, from: Square, to: Square) -> bool {
    let piece = match board.state.at(from) {
        Some(piece) => piece,
        None => return false,
    };
    let df = to.file().index() as i32 - from.file().index() as i32;
    let dr = to.rank().index() as i32 - from.rank().index() as i32;
    let occupied = board.state.occupied().value();
    let target = 1u64 << to.index();
    match piece.kind() {
        PieceKind::Pawn => {
            let forward = if piece.color() == Color::White { 1 } else { -1 };
            dr == forward && df.abs() == 1
        }
        PieceKind::Knight => (df.abs() == 1 && dr.abs() == 2) || (df.abs() == 2 && dr.abs() == 1),
        PieceKind::King => df.abs() <= 1 && dr.abs() <= 1 && (df != 0 || dr != 0),
        PieceKind::Bishop => slider_attacks(from.index(), occupied, BISHOP_DELTA) & target != 0,
        PieceKind::Rook => slider_attacks(from.index(), occupied, ROOK_DELTA) & target != 0,
        PieceKind::Queen => {
            (slider_attacks(from.index(), occupied, BISHOP_DELTA)
                | slider_attacks(from.index(), occupied, ROOK_DELTA))
                & target
                != 0
        }
    }
}

/// The square of the king of `color`, found by looking at every square.
fn find_king(board: &Board, color: Color) -> Option<Square> {
    Square::all()
        .into_iter()
        .find(|square| board.state.at(*square) == Some(Piece::new(PieceKind::King, color)))
}

/// The pieces that give check, found by asking of every piece of the other
/// side whether it attacks the king.
fn checkers_by_walking(board: &Board) -> u64 {
    let mut checkers = 0;
    if let Some(king) = find_king(board, board.color) {
        for square in Square::all() {
            if let Some(piece) = board.state.at(square) {
                if piece.color() != board.color && strikes(board, square, king) {
                    checkers |= 1u64 << square.index();
                }
            }
        }
    }
    checkers
}

/// The pinned pieces of `color`, found by walking from the king in each of
/// the eight directions: a piece of `color` is pinned if it is the first
/// piece on the way and the second is a slider of the other side that moves
/// along the way.
fn pinned_by_walking(board: &Board, color: Color) -> u64 {
    let mut pinned = 0;
    let king = match find_king(board, color) {
        Some(king) => king,
        None => return 0,
    };
    let steps = [(1, 0), (-1, 0), (0, 1), (0, -1), (1, 1), (1, -1), (-1, 1), (-1, -1)];
    for (dr, df) in steps {
        let diagonal = dr != 0 && df != 0;
        let mut first: Option<Square> = None;
        let mut rank = king.rank().index() as i32 + dr;
        let mut file = king.file().index() as i32 + df;
        while (0..8).contains(&rank) && (0..8).contains(&file) {
            let square = Square::from_raw((rank * 8 + file) as u8);
            if let Some(piece) = board.state.at(square) {
                match first {
                    None => {
                        if piece.color() != color {
                            break;
                        }
                        first = Some(square);
                    }
                    Some(own) => {
                        let slides = match piece.kind() {
                            PieceKind::Queen => true,
                            PieceKind::Bishop => diagonal,
                            PieceKind::Rook => !diagonal,
                            _ => false,
                        };
                        if piece.color() != color && slides {
                            pinned |= 1u64 << own.index();
                        }
                        break;
                    }
                }
            }
            rank += dr;
            file += df;
        }
    }
    pinned
}

fn check_caches(tables: &Tables, board: &mut Board, depth: u32) {
    assert_eq!(board.state.checkers().value(), checkers_by_walking(board));
    assert_eq!(
        board.state.blockers(Color::White).value(),
        pinned_by_walking(board, Color::White)
    );
    assert_eq!(
        board.state.blockers(Color::Black).value(),
        pinned_by_walking(board, Color::Black)
    );
    assert_eq!(board.state.key().main, hash_from_scratch(tables, board));
    for square in Square::all() {
        let piece = board.state.at(square);
        for kind in [
            PieceKind::Pawn,
            PieceKind::Knight,
            PieceKind::Bishop,
            PieceKind::Rook,
            PieceKind::Queen,
            PieceKind::King,
        ] {
            assert_eq!(
                board.state.pieces(kind).is_set(square),
                piece.map(|p| p.kind()) == Some(kind)
            );
        }
        for color in [Color::White, Color::Black] {
            assert_eq!(
                board.state.colors(color).is_set(square),
                piece.map(|p| p.color()) == Some(color)
            );
        }
        assert_eq!(board.state.occupied().is_set(square), piece.is_some());
    }
    if depth == 0 {
        return;
    }
    for mv in playable(board) {
        let before: State = board.state;
        let color = board.color;
        let height = board.stack.len();
        board.make(mv);
        assert_eq!(board.color, color.not());
        assert_eq!(board.stack.len(), height + 1);
        if let Some(king) = find_king(board, color) {
            assert!(!board.state.is_attacked(tables, king, color, board.state.occupied()));
        }
        check_caches(tables, board, depth - 1);
        board.unmake();
        assert_eq!(board.state, before);
        assert_eq!(board.color, color);
        assert_eq!(board.stack.len(), height);
    }
}

#[test]
fn the_starting_position() {
    let tables = Tables::new().unwrap();
    let board = Board::startpos(&tables).unwrap();
    assert_eq!(board.color, Color::White);
    assert_eq!(board.state.at(Square::E1), Some(Piece::WhiteKing));
    assert_eq!(board.state.at(Square::D8), Some(Piece::BlackQueen));
    assert_eq!(board.state.at(Square::A2), Some(Piece::WhitePawn));
    assert_eq!(board.state.at(Square::H7), Some(Piece::BlackPawn));
    assert_eq!(board.state.at(Square::E4), None);
    assert_eq!(board.state.occupied().value(), 0xffff_0000_0000_ffff);
    assert_eq!(board.state.colors(Color::White).value(), 0xffff);
    assert_eq!(board.state.pieces(PieceKind::Pawn).value(), 0x00ff_0000_0000_ff00);
    for kind in CastleKind::all() {
        assert!(board.state.castles().is_allowed(kind));
    }
    assert_eq!(board.state.enpassant(), None);
    assert_eq!(board.state.halfmove(), 0);
    assert!(board.state.checkers().is_empty());
    assert!(board.state.blockers(Color::White).is_empty());
    assert_eq!(board.state.king_square(Color::White), Square::E1);
    assert_eq!(board.state.king_square(Color::Black), Square::E8);
    assert_eq!(board.state.key().main, hash_from_scratch(&tables, &board));
    assert!(board.stack.is_empty());
    let same = Board::from_fen(
        &tables,
        "rnbqkbnr/pppppppp/8/8/8/8/PPPPPPPP/RNBQKBNR w KQkq - 0 1",
    )
    .unwrap();
    assert_eq!(same.state, board.state);
}

#[test]
fn the_empty_board() {
    let tables = Tables::new().unwrap();
    let board = Board::new(&tables);
    assert_eq!(board.color, Color::White);
    assert!(board.state.occupied().is_empty());
    assert!(board.state.checkers().is_empty());
    assert_eq!(board.state.key().main, hash_from_scratch(&tables, &board));
    assert_eq!(board.generate_moves().len(), 0);
    let state = State::new();
    assert_eq!(state.key().main, 0);
    assert_eq!(state.halfmove(), 0);
    assert_eq!(state.enpassant(), None);
}

#[test]
fn fields_of_a_position_string() {
    let tables = Tables::new().unwrap();
    let board = Board::from_fen(&tables, PASSING).unwrap();
    assert_eq!(board.state.enpassant(), Some(Square::F6));
    assert_eq!(board.state.halfmove(), 0);
    let board = Board::from_fen(&tables, "4k3/8/8/8/8/8/8/4K2R b K - 37 60").unwrap();
    assert_eq!(board.color, Color::Black);
    assert_eq!(board.state.halfmove(), 37);
    assert!(board.state.castles().is_allowed(CastleKind::WhiteShort));
    assert!(!board.state.castles().is_allowed(CastleKind::WhiteLong));
    assert!(!board.state.castles().is_allowed(CastleKind::BlackShort));
    assert!(!board.state.castles().is_allowed(CastleKind::BlackLong));
    assert_eq!(board.state.castles().value(), 14);
    assert_eq!(board.state.key().main, hash_from_scratch(&tables, &board));
    let clocks = [
        ("4k3/8/8/8/8/8/8/4K3 w - - +5 1", 5),
        ("4k3/8/8/8/8/8/8/4K3 w - - 255 1", 255),
        ("4k3/8/8/8/8/8/8/4K3 w - - 256 1", 0),
        ("4k3/8/8/8/8/8/8/4K3 w - - 007 1", 7),
        ("4k3/8/8/8/8/8/8/4K3 w - - x 1", 0),
        ("4k3/8/8/8/8/8/8/4K3 w - - 1x 1", 0),
        ("4k3/8/8/8/8/8/8/4K3 w - - + 1", 0),
        ("4k3/8/8/8/8/8/8/4K3 w - - -1 1", 0),
        ("4k3/8/8/8/8/8/8/4K3 w - - 99999999999999999999 1", 0),
        ("4k3/8/8/8/8/8/8/4K3 w - -", 0),
        ("4k3/8/8/8/8/8/8/4K3 w -", 0),
        ("4k3/8/8/8/8/8/8/4K3 w - - 12", 12),
    ];
    for (fen, clock) in clocks {
        assert_eq!(Board::from_fen(&tables, fen).unwrap().state.halfmove(), clock, "{}", fen);
    }
    let targets = [
        ("4k3/8/8/8/8/8/8/4K3 w - e3 0 1", Some(Square::E3)),
        ("4k3/8/8/8/8/8/8/4K3 w - a6 0 1", Some(Square::A6)),
        ("4k3/8/8/8/8/8/8/4K3 w - - 0 1", None),
        ("4k3/8/8/8/8/8/8/4K3 w - e9 0 1", None),
        ("4k3/8/8/8/8/8/8/4K3 w - z3 0 1", None),
        ("4k3/8/8/8/8/8/8/4K3 w - e33 0 1", None),
    ];
    for (fen, target) in targets {
        assert_eq!(Board::from_fen(&tables, fen).unwrap().state.enpassant(), target, "{}", fen);
    }
    let rights = [
        ("4k3/8/8/8/8/8/8/4K3 w KQkq - 0 1", 0),
        ("4k3/8/8/8/8/8/8/4K3 w - - 0 1", 15),
        ("4k3/8/8/8/8/8/8/4K3 w  - 0 1", 15),
        ("4k3/8/8/8/8/8/8/4K3 w Qk - 0 1", 9),
        ("4k3/8/8/8/8/8/8/4K3 w qK - 0 1", 6),
        ("4k3/8/8/8/8/8/8/4K3 w KK - 0 1", 14),
    ];
    for (fen, mask) in rights {
        assert_eq!(Board::from_fen(&tables, fen).unwrap().state.castles().value(), mask, "{}", fen);
    }
}

#[test]
fn position_strings_that_are_turned_down() {
    let tables = Tables::new().unwrap();
    assert_eq!(error_of(&tables, ""), FenParseError::MissingBoard);
    assert_eq!(error_of(&tables, " w KQkq - 0 1"), FenParseError::MissingBoard);
    let boards = [
        "8/8/8/8/8/8/8 w - - 0 1",
        "8/8/8/8/8/8/8/8/8 w - - 0 1",
        "9/8/8/8/8/8/8/8 w - - 0 1",
        "0/8/8/8/8/8/8/8 w - - 0 1",
        "44k/8/8/8/8/8/8/8 w - - 0 1",
        "7/8/8/8/8/8/8/8 w - - 0 1",
        "8/8/8/8/8/8/8/7 w - - 0 1",
        "8/8/8/8/8/8/8/8/ w - - 0 1",
        "/8/8/8/8/8/8/8 w - - 0 1",
        "8/8/8/8/8/8/8/4x3 w - - 0 1",
        "rnbqkbnrr/8/8/8/8/8/8/8 w - - 0 1",
        "8/8/8/8/8/8/8/8k w - - 0 1",
        "8/8/8/8/8/8/8/4\u{e9}3 w - - 0 1",
        "8",
    ];
    for fen in boards {
        assert_eq!(error_of(&tables, fen), FenParseError::InvalidBoard, "{}", fen);
    }
    assert_eq!(error_of(&tables, "8/8/8/8/8/8/8/8"), FenParseError::MissingColor);
    for fen in [
        "8/8/8/8/8/8/8/8 ",
        "8/8/8/8/8/8/8/8 x - - 0 1",
        "8/8/8/8/8/8/8/8 W - - 0 1",
        "8/8/8/8/8/8/8/8 wb - - 0 1",
        "8/8/8/8/8/8/8/8  w - - 0 1",
    ] {
        assert_eq!(error_of(&tables, fen), FenParseError::InvalidColor, "{}", fen);
    }
    assert_eq!(error_of(&tables, "8/8/8/8/8/8/8/8 w"), FenParseError::MissingCastle);
    for fen in [
        "8/8/8/8/8/8/8/8 b KQkqK - 0 1",
        "8/8/8/8/8/8/8/8 b x - 0 1",
        "8/8/8/8/8/8/8/8 b Kx - 0 1",
        "8/8/8/8/8/8/8/8 b K- - 0 1",
        "8/8/8/8/8/8/8/8 b -- - 0 1",
    ] {
        assert_eq!(error_of(&tables, fen), FenParseError::InvalidCastle, "{}", fen);
    }
    assert_eq!(
        error_of(&tables, "9/8/8/8/8/8/8/8 x"),
        FenParseError::InvalidBoard
    );
}

#[test]
fn bytes_and_text_set_up_the_same_position() {
    let tables = Tables::new().unwrap();
    let a = Board::from_fen(&tables, KIWIPETE).unwrap();
    let b = Board::from_bytes(&tables, KIWIPETE.as_bytes()).unwrap();
    assert_eq!(a.state, b.state);
    assert_eq!(a.color, b.color);
}

#[test]
fn placing_and_removing_pieces() {
    let tables = Tables::new().unwrap();
    let mut state = State::new();
    state.place(&tables, Square::E4, Piece::WhiteKnight);
    assert_eq!(state.at(Square::E4), Some(Piece::WhiteKnight));
    assert!(state.pieces(PieceKind::Knight).is_set(Square::E4));
    assert!(state.colors(Color::White).is_set(Square::E4));
    assert_eq!(
        state.key().main,
        tables.zobrist.piece[Piece::WhiteKnight.index()][Square::E4.index()]
    );
    state.place(&tables, Square::A8, Piece::BlackRook);
    assert_eq!(state.occupied().count(), 2);
    state.remove(&tables, Square::E4);
    assert_eq!(state.at(Square::E4), None);
    assert!(state.pieces(PieceKind::Knight).is_empty());
    assert_eq!(
        state.key().main,
        tables.zobrist.piece[Piece::BlackRook.index()][Square::A8.index()]
    );
    state.remove(&tables, Square::E4);
    assert_eq!(state.occupied().count(), 1);
    state.remove(&tables, Square::A8);
    assert_eq!(state.key().main, 0);
    assert!(state.occupied().is_empty());
}

#[test]
fn attackers_of_a_square() {
    let tables = Tables::new().unwrap();
    let board = Board::from_fen(&tables, KIWIPETE).unwrap();
    let occupied = board.state.occupied();
    for target in Square::all() {
        let mut expected = 0u64;
        for from in Square::all() {
            if strikes(&board, from, target) {
                expected |= 1u64 << from.index();
            }
        }
        assert_eq!(board.state.attackers(&tables, target, occupied).value(), expected);
        for color in [Color::White, Color::Black] {
            let them = board.state.colors(color.not()).value();
            assert_eq!(
                board.state.is_attacked(&tables, target, color, occupied),
                expected & them != 0
            );
        }
    }
}

#[test]
fn caches_hash_and_history_along_lines_of_play() {
    let tables = Tables::new().unwrap();
    for fen in [KIWIPETE, ENDGAME, PROMOTIONS, PASSING] {
        let mut board = Board::from_fen(&tables, fen).unwrap();
        check_caches(&tables, &mut board, 2);
    }
    let mut board = Board::startpos(&tables).unwrap();
    check_caches(&tables, &mut board, 3);
}

#[test]
fn checks_and_pins() {
    let tables = Tables::new().unwrap();
    let board = Board::from_fen(&tables, "4k3/8/8/8/8/8/4r3/4K3 w - - 0 1").unwrap();
    assert_eq!(board.state.checkers(), Bitboard::from_square(Square::E2));
    let board = Board::from_fen(&tables, "4k3/8/8/8/4r3/8/4N3/4K3 w - - 0 1").unwrap();
    assert!(board.state.checkers().is_empty());
    assert_eq!(board.state.blockers(Color::White), Bitboard::from_square(Square::E2));
    assert!(board.state.blockers(Color::Black).is_empty());
    let board = Board::from_fen(&tables, "4k3/8/8/8/4r3/4n3/4N3/4K3 w - - 0 1").unwrap();
    assert!(board.state.blockers(Color::White).is_empty());
    let board = Board::from_fen(&tables, "4k3/8/8/8/1b6/8/3n4/4K3 w - - 0 1").unwrap();
    assert!(board.state.blockers(Color::White).is_empty());
    let behind = Board::from_fen(&tables, "k3r3/8/8/4N3/8/4r3/8/4K3 w - - 0 1").unwrap();
    assert_eq!(behind.state.checkers(), Bitboard::from_square(Square::E3));
    assert!(behind.state.blockers(Color::White).is_empty());
    assert_eq!(pinned_by_walking(&behind, Color::White), 0);
    let doubled = Board::from_fen(&tables, "k3r3/8/8/4r3/8/4N3/8/4K3 w - - 0 1").unwrap();
    assert_eq!(doubled.state.blockers(Color::White), Bitboard::from_square(Square::E3));
    let shielded = Board::from_fen(&tables, "k3r3/8/8/4B3/8/4N3/8/4K3 w - - 0 1").unwrap();
    assert!(shielded.state.blockers(Color::White).is_empty());
    let board = Board::from_fen(&tables, "4k3/8/5N2/8/8/4R3/8/4K3 b - - 0 1").unwrap();
    assert!(board.state.checkers().is_many());
    assert_eq!(board.state.checkers().count(), 2);
}

#[test]
fn making_a_move_step_by_step() {
    let tables = Tables::new().unwrap();
    let mut board = Board::startpos(&tables).unwrap();
    let start = board.state;
    board.make(Move::new(Square::E2, Square::E4, MoveKind::Normal));
    assert_eq!(board.color, Color::Black);
    assert_eq!(board.state.at(Square::E2), None);
    assert_eq!(board.state.at(Square::E4), Some(Piece::WhitePawn));
    assert_eq!(board.state.enpassant(), Some(Square::E3));
    assert_eq!(board.state.halfmove(), 0);
    assert_eq!(board.stack.len(), 1);
    assert_eq!(board.stack[0], start);
    board.make(Move::new(Square::G8, Square::F6, MoveKind::Normal));
    assert_eq!(board.state.enpassant(), None);
    assert_eq!(board.state.halfmove(), 1);
    board.make(Move::new(Square::E1, Square::E2, MoveKind::Normal));
    assert!(!board.state.castles().is_allowed(CastleKind::WhiteShort));
    assert!(!board.state.castles().is_allowed(CastleKind::WhiteLong));
    assert!(board.state.castles().is_allowed(CastleKind::BlackShort));
    assert_eq!(board.state.halfmove(), 2);
    assert_eq!(board.state.key().main, hash_from_scratch(&tables, &board));
    board.unmake();
    board.unmake();
    board.unmake();
    assert_eq!(board.state, start);
    assert_eq!(board.color, Color::White);
    assert!(board.stack.is_empty());
}

#[test]
fn castling_moves_king_and_rook() {
    let tables = Tables::new().unwrap();
    let mut board = Board::from_fen(&tables, KIWIPETE).unwrap();
    let short = Move::new(Square::E1, Square::G1, MoveKind::Castling);
    assert!(board.is_pseudo_legal(short));
    assert!(board.is_legal(short));
    board.make(short);
    assert_eq!(board.state.at(Square::G1), Some(Piece::WhiteKing));
    assert_eq!(board.state.at(Square::F1), Some(Piece::WhiteRook));
    assert_eq!(board.state.at(Square::E1), None);
    assert_eq!(board.state.at(Square::H1), None);
    assert!(!board.state.castles().is_allowed(CastleKind::WhiteShort));
    assert!(!board.state.castles().is_allowed(CastleKind::WhiteLong));
    assert!(board.state.castles().is_allowed(CastleKind::BlackLong));
    let long = Move::new(Square::E8, Square::C8, MoveKind::Castling);
    assert!(board.is_pseudo_legal(long));
    assert!(board.is_legal(long));
    board.make(long);
    assert_eq!(board.state.at(Square::C8), Some(Piece::BlackKing));
    assert_eq!(board.state.at(Square::D8), Some(Piece::BlackRook));
    assert_eq!(board.state.at(Square::A8), None);
    assert_eq!(board.state.castles().value(), 15);
    assert_eq!(board.state.key().main, hash_from_scratch(&tables, &board));
}

#[test]
fn taking_a_rook_at_home_costs_its_right() {
    let tables = Tables::new().unwrap();
    let mut board = Board::from_fen(&tables, "r3k2r/8/8/8/8/8/6B1/4K3 w kq - 0 1").unwrap();
    let capture = Move::new(Square::G2, Square::A8, MoveKind::Normal);
    assert!(board.is_pseudo_legal(capture));
    assert!(board.is_legal(capture));
    assert!(board.is_noisy(capture));
    board.make(capture);
    assert!(!board.state.castles().is_allowed(CastleKind::BlackLong));
    assert!(board.state.castles().is_allowed(CastleKind::BlackShort));
    assert_eq!(board.state.halfmove(), 0);
}

#[test]
fn capture_in_passing_and_promotion() {
    let tables = Tables::new().unwrap();
    let mut board = Board::from_fen(&tables, PASSING).unwrap();
    let passing = Move::new(Square::E5, Square::F6, MoveKind::Enpassant);
    assert!(board.is_pseudo_legal(passing));
    assert!(board.is_legal(passing));
    assert!(board.is_noisy(passing));
    assert!(!board.is_quiet(passing));
    assert!(!board.is_pseudo_legal(Move::new(Square::E5, Square::D6, MoveKind::Enpassant)));
    board.make(passing);
    assert_eq!(board.state.at(Square::F6), Some(Piece::WhitePawn));
    assert_eq!(board.state.at(Square::F5), None);
    assert_eq!(board.state.at(Square::E5), None);
    assert_eq!(board.state.key().main, hash_from_scratch(&tables, &board));
    let mut board = Board::from_fen(&tables, PROMOTIONS).unwrap();
    let promotion = Move::new(Square::B2, Square::A1, MoveKind::PromotionQueen);
    board.make(Move::new(Square::G1, Square::H1, MoveKind::Normal));
    assert!(board.is_pseudo_legal(promotion));
    assert!(board.is_legal(promotion));
    assert!(board.is_noisy(promotion));
    board.make(promotion);
    assert_eq!(board.state.at(Square::A1), Some(Piece::BlackQueen));
    assert_eq!(board.state.at(Square::B2), None);
    assert_eq!(board.state.key().main, hash_from_scratch(&tables, &board));
}

#[test]
fn a_capture_in_passing_that_bares_the_king() {
    let tables = Tables::new().unwrap();
    let board = Board::from_fen(&tables, "8/8/8/K2pP2r/8/8/8/4k3 w - d6 0 1").unwrap();
    let passing = Move::new(Square::E5, Square::D6, MoveKind::Enpassant);
    assert!(board.is_pseudo_legal(passing));
    assert!(!board.is_legal(passing));
}

#[test]
fn moves_that_do_not_fit() {
    let tables = Tables::new().unwrap();
    let board = Board::startpos(&tables).unwrap();
    assert!(!board.is_pseudo_legal(Move::null()));
    assert!(!board.is_pseudo_legal(Move::new(Square::E3, Square::E4, MoveKind::Normal)));
    assert!(!board.is_pseudo_legal(Move::new(Square::E1, Square::E2, MoveKind::Normal)));
    assert!(!board.is_pseudo_legal(Move::new(Square::E2, Square::E5, MoveKind::Normal)));
    assert!(!board.is_pseudo_legal(Move::new(Square::E2, Square::D3, MoveKind::Normal)));
    assert!(!board.is_pseudo_legal(Move::new(Square::E1, Square::G1, MoveKind::Castling)));
    assert!(!board.is_pseudo_legal(Move::new(Square::B1, Square::C3, MoveKind::PromotionQueen)));
    assert!(!board.is_pseudo_legal(Move::new(Square::A1, Square::A3, MoveKind::Normal)));
    assert!(!board.is_pseudo_legal(Move::new(Square::E2, Square::E3, MoveKind::Enpassant)));
    assert!(!board.is_pseudo_legal(Move::new(Square::B8, Square::C6, MoveKind::Normal)));
    assert!(board.is_pseudo_legal(Move::new(Square::E2, Square::E4, MoveKind::Normal)));
    assert!(board.is_pseudo_legal(Move::new(Square::B1, Square::C3, MoveKind::Normal)));
    let checked = Board::from_fen(&tables, "4k3/8/8/8/8/8/4r3/R3K2R w KQ - 0 1").unwrap();
    assert!(!checked.is_pseudo_legal(Move::new(Square::E1, Square::G1, MoveKind::Castling)));
    assert!(!checked.is_pseudo_legal(Move::new(Square::A1, Square::A2, MoveKind::Normal)));
    assert!(checked.is_pseudo_legal(Move::new(Square::E1, Square::E2, MoveKind::Normal)));
    let through = Board::from_fen(&tables, "4k3/8/8/8/8/8/5r2/R3K2R w KQ - 0 1").unwrap();
    let short = Move::new(Square::E1, Square::G1, MoveKind::Castling);
    let long = Move::new(Square::E1, Square::C1, MoveKind::Castling);
    assert!(through.is_pseudo_legal(short));
    assert!(!through.is_legal(short));
    assert!(through.is_pseudo_legal(long));
    assert!(through.is_legal(long));
    let blocked = Board::from_fen(&tables, "4k3/8/8/8/8/8/8/RN2K2R w KQ - 0 1").unwrap();
    assert!(!blocked.is_pseudo_legal(long));
    assert!(blocked.is_pseudo_legal(short));
    let pinned = Board::from_fen(&tables, "4k3/8/8/8/4r3/8/4N3/4K3 w - - 0 1").unwrap();
    assert!(!pinned.is_pseudo_legal(Move::new(Square::E2, Square::C3, MoveKind::Normal)));
    let king = Board::from_fen(&tables, "4k3/8/8/8/8/8/3r4/4K3 w - - 0 1").unwrap();
    let step = Move::new(Square::E1, Square::D1, MoveKind::Normal);
    assert!(king.is_pseudo_legal(step));
    assert!(!king.is_legal(step));
    assert!(king.is_legal(Move::new(Square::E1, Square::D2, MoveKind::Normal)));
}

/// Whether the king of the side to move would stand attacked once `mv` is
/// made, found by moving the pieces on a copy of the state.
fn bares_the_king(tables: &Tables, board: &Board, mv: Move) -> bool {
    let us = board.color;
    let mut state: State = board.state;
    let moving = state.at(mv.from()).unwrap();
    let landed = match mv.promotion_kind() {
        Some(kind) => Piece::new(kind, us),
        None => moving,
    };
    state.remove(tables, mv.to());
    state.remove(tables, mv.from());
    state.place(tables, mv.to(), landed);
    if mv.is_castling() {
        let castle = CastleKind::new(us, mv.to().value() > mv.from().value());
        state.remove(tables, castle.rook_from());
        state.place(tables, castle.rook_to(), Piece::new(PieceKind::Rook, us));
    }
    if mv.is_enpassant() {
        state.remove(tables, mv.to().enpassant());
    }
    let king = state.king_square(us);
    state.is_attacked(tables, king, us, state.occupied())
}

fn check_legality(tables: &Tables, board: &mut Board, depth: u32) {
    for mv in board.generate_moves().iter_moves() {
        let mut safe = !bares_the_king(tables, board, mv);
        if mv.is_castling() {
            let castle = CastleKind::new(board.color, mv.to().value() > mv.from().value());
            safe = safe
                && !board.state.is_attacked(
                    tables,
                    castle.rook_to(),
                    board.color,
                    board.state.occupied(),
                );
        }
        assert_eq!(board.is_legal(mv), safe, "{}", mv.to_string());
        if safe && depth > 0 {
            board.make(mv);
            check_legality(tables, board, depth - 1);
            board.unmake();
        }
    }
}

#[test]
fn legal_moves_are_the_moves_that_keep_the_king_safe() {
    let tables = Tables::new().unwrap();
    for fen in [
        KIWIPETE,
        ENDGAME,
        PROMOTIONS,
        PASSING,
        "8/8/8/K2pP2r/8/8/8/4k3 w - d6 0 1",
        "4k3/8/8/8/7b/8/8/R3K2R w KQ - 0 1",
        "4k3/8/5N2/8/8/4R3/8/4K3 b - - 0 1",
        "rnbq1k1r/pp1Pbppp/2p5/8/2B5/8/PPP1NnPP/RNBQK2R w KQ - 1 8",
    ] {
        let mut board = Board::from_fen(&tables, fen).unwrap();
        check_legality(&tables, &mut board, 2);
    }
}
