use chess_core::board::Board;
use chess_core::cuckoo::{hash_1, hash_2, is_reversible, Cuckoo};
use chess_core::movelist::{MoveEntry, MoveList};
use chess_core::movepick::Stage;
use chess_core::moves::{Move, MoveKind};
use chess_core::piece::{Piece, PieceKind};
use chess_core::pv::{Pv, MAX_PLY, MAX_STACK};
use chess_core::square::Square;
use chess_core::stack::Stack;
use chess_core::tables::Tables;
use chess_core::zobrist::{rand64, Zobrist};

const POSITIONS: [&str; 6] = [
    "rnbqkbnr/pppppppp/8/8/8/8/PPPPPPPP/RNBQKBNR w KQkq - 0 1",
    "r3k2r/p1ppqpb1/bn2pnp1/3PN3/1p2P3/2N2Q1p/PPPBBPPP/R3K2R w KQkq - 0 1",
    "8/2p5/3p4/KP5r/1R3p1k/8/4P1P1/8 w - - 0 1",
    "r3k2r/Pppp1ppp/1b3nbN/nP6/BBP1P3/q4N2/Pp1P2PP/R2Q1RK1 w kq - 0 1",
    "rnbqkbnr/ppp1p1pp/8/3pPp2/8/8/PPPP1PPP/RNBQKBNR w KQkq f6 0 3",
    "r3k2r/Pppp1ppp/1b3nbN/nP6/BBP1P3/q4N2/Pp1P2PP/R2Q1RK1 b kq - 0 1",
];

#[test]
fn twenty_moves_from_the_start() {
    let tables = Tables::new().unwrap();
    let board = Board::startpos(&tables).unwrap();
    let moves = board.generate_moves();
    assert_eq!(moves.len(), 20);
    assert_eq!(board.generate_quiet_moves().len(), 20);
    assert_eq!(board.generate_noisy_moves().len(), 0);
    let moves = moves.iter_moves();
    assert!(moves.contains(&Move::new(Square::E2, Square::E4, MoveKind::Normal)));
    assert!(moves.contains(&Move::new(Square::G1, Square::F3, MoveKind::Normal)));
    assert!(!moves.contains(&Move::new(Square::E1, Square::E2, MoveKind::Normal)));
}

#[test]
fn generated_moves_fit_and_come_once() {
    let tables = Tables::new().unwrap();
    for fen in POSITIONS {
        let board = Board::from_fen(&tables, fen).unwrap();
        let all = board.generate_moves().iter_moves();
        let quiet = board.generate_quiet_moves().iter_moves();
        let noisy = board.generate_noisy_moves().iter_moves();
        assert_eq!(all.len(), quiet.len() + noisy.len(), "{}", fen);
        for (i, mv) in all.iter().enumerate() {
            assert!(board.is_pseudo_legal(*mv), "{} {}", fen, mv.to_string());
            assert!(!all[..i].contains(mv), "{} {}", fen, mv.to_string());
            assert_eq!(quiet.contains(mv), board.is_quiet(*mv));
            assert_eq!(noisy.contains(mv), board.is_noisy(*mv));
        }
        for mv in quiet.iter().chain(noisy.iter()) {
            assert!(all.contains(mv));
        }
    }
}

#[test]
fn the_generated_moves_are_the_moves_that_fit() {
    let tables = Tables::new().unwrap();
    let kinds = [
        MoveKind::Normal,
        MoveKind::Castling,
        MoveKind::Enpassant,
        MoveKind::PromotionKnight,
        MoveKind::PromotionBishop,
        MoveKind::PromotionRook,
        MoveKind::PromotionQueen,
    ];
    for fen in POSITIONS {
        let board = Board::from_fen(&tables, fen).unwrap();
        let all = board.generate_moves().iter_moves();
        for from in Square::all() {
            for to in Square::all() {
                for kind in kinds {
                    let mv = Move::new(from, to, kind);
                    assert_eq!(
                        board.is_pseudo_legal(mv),
                        all.contains(&mv),
                        "{} {}",
                        fen,
                        mv.to_string()
                    );
                }
            }
        }
    }
}

#[test]
fn quiet_and_noisy_moves_part_the_moves() {
    let tables = Tables::new().unwrap();
    for fen in POSITIONS {
        let board = Board::from_fen(&tables, fen).unwrap();
        let all = board.generate_moves().iter_moves();
        let quiet = board.generate_quiet_moves().iter_moves();
        let noisy = board.generate_noisy_moves().iter_moves();
        for mv in quiet.iter() {
            assert!(!board.is_noisy(*mv), "{} {}", fen, mv.to_string());
            assert!(all.contains(mv) && !noisy.contains(mv), "{} {}", fen, mv.to_string());
        }
        for mv in noisy.iter() {
            assert!(board.is_noisy(*mv), "{} {}", fen, mv.to_string());
            assert!(all.contains(mv) && !quiet.contains(mv), "{} {}", fen, mv.to_string());
        }
        for mv in all.iter() {
            assert!(quiet.contains(mv) || noisy.contains(mv), "{} {}", fen, mv.to_string());
        }
    }
    let board = Board::from_fen(&tables, POSITIONS[1]).unwrap();
    let noisy = board.generate_noisy_moves().iter_moves();
    let quiet = board.generate_quiet_moves().iter_moves();
    assert_eq!(noisy.len(), 8);
    assert_eq!(quiet.len(), 40);
    assert!(noisy.contains(&Move::new(Square::E5, Square::G6, MoveKind::Normal)));
    assert!(noisy.contains(&Move::new(Square::D5, Square::E6, MoveKind::Normal)));
    assert!(!quiet.contains(&Move::new(Square::F3, Square::F6, MoveKind::Normal)));
    assert!(quiet.contains(&Move::new(Square::A2, Square::A3, MoveKind::Normal)));
    assert!(quiet.contains(&Move::new(Square::E1, Square::G1, MoveKind::Castling)));
    assert!(!noisy.contains(&Move::new(Square::E1, Square::G1, MoveKind::Castling)));
}

#[test]
fn only_the_side_to_move_moves() {
    let tables = Tables::new().unwrap();
    let board = Board::startpos(&tables).unwrap();
    assert!(!board.is_pseudo_legal(Move::new(Square::G8, Square::F6, MoveKind::Normal)));
    assert!(!board.is_pseudo_legal(Move::new(Square::E7, Square::E5, MoveKind::Normal)));
    assert!(board.is_pseudo_legal(Move::new(Square::G1, Square::F3, MoveKind::Normal)));
    let black = Board::from_fen(
        &tables,
        "rnbqkbnr/pppppppp/8/8/4P3/8/PPPP1PPP/RNBQKBNR b KQkq e3 0 1",
    ).unwrap();
    assert!(black.is_pseudo_legal(Move::new(Square::G8, Square::F6, MoveKind::Normal)));
    assert!(!black.is_pseudo_legal(Move::new(Square::G1, Square::F3, MoveKind::Normal)));
    assert!(!black.is_pseudo_legal(Move::new(Square::D2, Square::D4, MoveKind::Normal)));
}

#[test]
fn a_pawn_on_the_last_rank_promotes() {
    let tables = Tables::new().unwrap();
    let board = Board::from_fen(&tables, "4k3/P7/8/8/8/8/8/4K3 w - - 0 1").unwrap();
    assert!(!board.is_pseudo_legal(Move::new(Square::A7, Square::A8, MoveKind::Normal)));
    for kind in [
        MoveKind::PromotionKnight,
        MoveKind::PromotionBishop,
        MoveKind::PromotionRook,
        MoveKind::PromotionQueen,
    ] {
        assert!(board.is_pseudo_legal(Move::new(Square::A7, Square::A8, kind)));
    }
    let black = Board::from_fen(&tables, "4k3/8/8/8/8/8/p7/1N2K3 b - - 0 1").unwrap();
    assert!(!black.is_pseudo_legal(Move::new(Square::A2, Square::A1, MoveKind::Normal)));
    assert!(!black.is_pseudo_legal(Move::new(Square::A2, Square::B1, MoveKind::Normal)));
    assert!(black.is_pseudo_legal(Move::new(Square::A2, Square::A1, MoveKind::PromotionQueen)));
    assert!(black.is_pseudo_legal(Move::new(Square::A2, Square::B1, MoveKind::PromotionKnight)));
    let early = Board::from_fen(&tables, "4k3/8/P7/8/8/8/8/4K3 w - - 0 1").unwrap();
    assert!(early.is_pseudo_legal(Move::new(Square::A6, Square::A7, MoveKind::Normal)));
    assert!(!early.is_pseudo_legal(Move::new(Square::A6, Square::A7, MoveKind::PromotionQueen)));
}

#[test]
fn in_double_check_only_the_king_moves() {
    let tables = Tables::new().unwrap();
    let board = Board::from_fen(&tables, "4k3/8/5N2/8/8/4R3/8/4K3 b - - 0 1").unwrap();
    let moves = board.generate_moves().iter_moves();
    assert!(!moves.is_empty());
    for mv in moves {
        assert_eq!(mv.from(), Square::E8);
    }
}

#[test]
fn in_single_check_moves_end_the_check() {
    let tables = Tables::new().unwrap();
    let board = Board::from_fen(&tables, "4k3/8/8/8/7b/8/8/R3K2R w KQ - 0 1").unwrap();
    let moves = board.generate_moves().iter_moves();
    for mv in moves.iter() {
        assert!(!mv.is_castling());
        if mv.from() != Square::E1 {
            assert!([Square::F2, Square::G3, Square::H4].contains(&mv.to()));
        }
    }
    assert!(moves.contains(&Move::new(Square::H1, Square::H4, MoveKind::Normal)));
}

#[test]
fn a_list_of_moves() {
    let mut list = MoveList::new();
    assert_eq!(list.len(), 0);
    assert!(!list.is_full());
    assert_eq!(list.pop(), None);
    let first = Move::new(Square::E2, Square::E4, MoveKind::Normal);
    let second = Move::new(Square::G1, Square::F3, MoveKind::Normal);
    list.push(first);
    list.push(second);
    assert_eq!(list.len(), 2);
    assert_eq!(list.get(0), MoveEntry { score: 0, mv: first });
    assert_eq!(list.get(1).mv, second);
    assert_eq!(list.iter_moves(), vec![first, second]);
    assert_eq!(list.pop(), Some(MoveEntry { score: 0, mv: second }));
    assert_eq!(list.len(), 1);
    assert_eq!(list.iter_moves(), vec![first]);
    list.clear();
    assert_eq!(list.len(), 0);
    assert!(list.iter_moves().is_empty());
    for _ in 0..256 {
        assert!(!list.is_full());
        list.push(first);
    }
    assert!(list.is_full());
    assert_eq!(list.len(), 256);
}

#[test]
fn scores_are_set_through_the_entries() {
    let first = Move::new(Square::E2, Square::E4, MoveKind::Normal);
    let second = Move::new(Square::G1, Square::F3, MoveKind::Normal);
    let mut list = MoveList::new();
    list.push(first);
    list.push(second);
    assert_eq!(list[1], MoveEntry { score: 0, mv: second });
    list[1].score = 30;
    list[0].score = -5;
    assert_eq!(list.get(0), MoveEntry { score: -5, mv: first });
    assert_eq!(list.get(1), MoveEntry { score: 30, mv: second });
    assert_eq!(list.len(), 2);
    list.sort_by_key(|entry| -entry.score);
    assert_eq!(list.iter_moves(), vec![second, first]);
    let best = list.iter().max_by_key(|entry| entry.score).unwrap();
    assert_eq!(best.mv, second);
}

#[test]
fn a_copy_of_a_list_is_a_list_of_its_own() {
    let first = Move::new(Square::E2, Square::E4, MoveKind::Normal);
    let second = Move::new(Square::G1, Square::F3, MoveKind::Normal);
    let mut list = MoveList::new();
    list.push(first);
    list.push(second);
    list[0].score = 7;
    let mut copy = list.clone();
    assert_eq!(copy.len(), 2);
    assert_eq!(copy.get(0), MoveEntry { score: 7, mv: first });
    assert_eq!(copy.get(1), MoveEntry { score: 0, mv: second });
    copy[1].score = 9;
    assert_eq!(copy.pop(), Some(MoveEntry { score: 9, mv: second }));
    assert_eq!(copy.len(), 1);
    assert_eq!(list.len(), 2);
    assert_eq!(list.get(1), MoveEntry { score: 0, mv: second });
}

#[test]
fn keys_come_from_the_generator() {
    let keys = Zobrist::new().unwrap();
    let mut seed = 1070372u64;
    let mut expected = Vec::new();
    for _ in 0..793 {
        seed ^= seed >> 12;
        seed ^= seed << 25;
        seed ^= seed >> 27;
        seed = seed.wrapping_mul(2685821657736338717);
        expected.push(seed);
    }
    assert_eq!(rand64(1070372), expected[0]);
    assert_eq!(rand64(expected[0]), expected[1]);
    assert_eq!(keys.piece[0][0], expected[0]);
    assert_eq!(keys.piece[0][1], expected[1]);
    assert_eq!(keys.piece[1][0], expected[64]);
    assert_eq!(keys.piece[11][63], expected[767]);
    assert_eq!(keys.enpassant[0], expected[768]);
    assert_eq!(keys.enpassant[7], expected[775]);
    assert_eq!(keys.castling[0], expected[776]);
    assert_eq!(keys.castling[15], expected[791]);
    assert_eq!(keys.color, expected[792]);
    let mut sorted = expected.clone();
    sorted.sort();
    sorted.dedup();
    assert_eq!(sorted.len(), 793);
    assert!(!expected.contains(&0));
}

#[test]
fn changing_one_property_changes_the_hash() {
    let tables = Tables::new().unwrap();
    let fen = |rest: &str| format!("4k3/8/8/8/8/8/8/R3K2R {}", rest);
    let base = Board::from_fen(&tables, &fen("w KQ - 0 1")).unwrap();
    let same = Board::from_fen(&tables, &fen("w KQ - 31 9")).unwrap();
    assert_eq!(base.state.key(), same.state.key());
    let side = Board::from_fen(&tables, &fen("b KQ - 0 1")).unwrap();
    assert_ne!(base.state.key(), side.state.key());
    assert_eq!(base.state.key().main ^ side.state.key().main, tables.zobrist.color);
    let rights = Board::from_fen(&tables, &fen("w K - 0 1")).unwrap();
    assert_ne!(base.state.key(), rights.state.key());
    let target = Board::from_fen(&tables, &fen("w KQ e3 0 1")).unwrap();
    assert_ne!(base.state.key(), target.state.key());
    let other = Board::from_fen(&tables, &fen("w KQ d3 0 1")).unwrap();
    assert_ne!(target.state.key(), other.state.key());
    let placed = Board::from_fen(&tables, "4k3/8/8/8/8/8/8/RN2K2R w KQ - 0 1").unwrap();
    assert_ne!(base.state.key(), placed.state.key());
}

#[test]
fn slots_of_a_hash() {
    assert_eq!(hash_1(0xffff_ffff_ffff_ffff), 0x1fff);
    assert_eq!(hash_2(0xffff_ffff_ffff_ffff), 0x1fff);
    assert_eq!(hash_1(0x0000_0000_1234_5678), 0x1678);
    assert_eq!(hash_2(0x0000_0000_1234_5678), 0x1234);
    assert_eq!(hash_1(0x2000), 0);
    assert_eq!(hash_2(0x2000_0000), 0);
}

#[test]
fn moves_that_can_be_taken_back() {
    let tables = Tables::new().unwrap();
    assert!(is_reversible(&tables, PieceKind::Knight, Square::G1, Square::F3));
    assert!(!is_reversible(&tables, PieceKind::Knight, Square::G1, Square::G3));
    assert!(is_reversible(&tables, PieceKind::Rook, Square::A1, Square::A8));
    assert!(!is_reversible(&tables, PieceKind::Rook, Square::A1, Square::B2));
    assert!(is_reversible(&tables, PieceKind::Bishop, Square::A1, Square::H8));
    assert!(is_reversible(&tables, PieceKind::Queen, Square::D1, Square::D8));
    assert!(is_reversible(&tables, PieceKind::Queen, Square::D1, Square::H5));
    assert!(!is_reversible(&tables, PieceKind::Queen, Square::D1, Square::E3));
    assert!(is_reversible(&tables, PieceKind::King, Square::E1, Square::E2));
    assert!(!is_reversible(&tables, PieceKind::King, Square::E1, Square::E3));
    assert!(!is_reversible(&tables, PieceKind::Pawn, Square::E2, Square::E3));
    assert!(!is_reversible(&tables, PieceKind::Pawn, Square::E2, Square::D3));
}

#[test]
fn every_move_entered_in_the_table_is_found_by_its_hash() {
    let tables = Tables::new().unwrap();
    let cuckoo = Cuckoo::new(&tables).unwrap();
    assert_eq!(cuckoo.hash.len(), 8192);
    assert_eq!(cuckoo.mv.len(), 8192);
    let keys = &tables.zobrist;
    let mut entered = 0;
    for value in 2..12u8 {
        let piece = Piece::from_raw(value);
        for from in Square::all() {
            for to in Square::all() {
                if from.index() < to.index() && is_reversible(&tables, piece.kind(), from, to) {
                    let hash = keys.piece[piece.index()][from.index()]
                        ^ keys.piece[piece.index()][to.index()]
                        ^ keys.color;
                    assert_eq!(
                        cuckoo.find(hash),
                        Some(Move::new(from, to, MoveKind::Normal))
                    );
                    entered += 1;
                }
            }
        }
    }
    assert_eq!(entered, 3668);
    assert_eq!(cuckoo.mv.iter().filter(|mv| mv.is_some()).count(), 3668);
    for (slot, mv) in cuckoo.mv.iter().enumerate() {
        if mv.is_some() {
            let hash = cuckoo.hash[slot];
            assert!(slot as u64 == hash_1(hash) || slot as u64 == hash_2(hash));
        }
    }
    assert_eq!(cuckoo.find(0), None);
}

#[test]
fn a_line_of_play() {
    assert_eq!(MAX_PLY, 128);
    assert_eq!(MAX_STACK, 136);
    let mut tail = Pv::new();
    assert_eq!(tail.size, 0);
    assert!(tail.front().is_null());
    let first = Move::new(Square::E2, Square::E4, MoveKind::Normal);
    let second = Move::new(Square::E7, Square::E5, MoveKind::Normal);
    let third = Move::new(Square::G1, Square::F3, MoveKind::Normal);
    let empty = Pv::new();
    tail.update(third, &empty);
    assert_eq!(tail.size, 1);
    assert_eq!(tail.front(), third);
    let mut middle = Pv::new();
    middle.update(second, &tail);
    let mut line = Pv::new();
    line.update(first, &middle);
    assert_eq!(line.size, 3);
    assert_eq!(line.front(), first);
    assert_eq!(line.index(0), first);
    assert_eq!(line.index(1), second);
    assert_eq!(line.index(2), third);
    assert!(line.index(3).is_null());
    line.clear();
    assert_eq!(line.size, 3);
    assert!(line.front().is_null());
    assert!(line.index(2).is_null());
}

#[test]
fn a_fresh_search_stack() {
    let stack = Stack::new();
    for i in 0..MAX_STACK {
        let entry = stack.index(i);
        assert!(entry.mv.is_null());
        assert_eq!(entry.eval, None);
        assert_eq!(entry.pv.size, 0);
        assert!(entry.pv.front().is_null());
    }
}

#[test]
fn a_position_as_text() {
    let tables = Tables::new().unwrap();
    let board = Board::startpos(&tables).unwrap();
    let expected = "r n b q k b n r \n\
                    p p p p p p p p \n\
                    . . . . . . . . \n\
                    . . . . . . . . \n\
                    . . . . . . . . \n\
                    . . . . . . . . \n\
                    P P P P P P P P \n\
                    R N B Q K B N R \n\
                    color: w\n";
    assert_eq!(board.to_string(), expected);
}

#[test]
fn no_castling_when_the_king_has_left_home() {
    let tables = Tables::new().unwrap();
    let board = Board::from_fen(&tables, "4k3/8/8/8/8/8/8/R4K1R w KQ - 0 1").unwrap();
    let moves = board.generate_moves().iter_moves();
    assert!(moves.iter().all(|mv| !mv.is_castling()));
    assert!(!board.is_pseudo_legal(Move::new(Square::F1, Square::G1, MoveKind::Castling)));
    let home = Board::from_fen(&tables, "4k3/8/8/8/8/8/8/R3K2R w KQ - 0 1").unwrap();
    let moves = home.generate_moves().iter_moves();
    assert!(moves.contains(&Move::new(Square::E1, Square::G1, MoveKind::Castling)));
    assert!(moves.contains(&Move::new(Square::E1, Square::C1, MoveKind::Castling)));
    let quiet = home.generate_quiet_moves().iter_moves();
    assert!(quiet.contains(&Move::new(Square::E1, Square::G1, MoveKind::Castling)));
    let noisy = home.generate_noisy_moves().iter_moves();
    assert!(noisy.is_empty());
}

#[test]
fn no_capture_in_passing_onto_a_piece_of_ones_own() {
    let tables = Tables::new().unwrap();
    let board = Board::from_fen(&tables, "4k3/8/4N3/3P4/8/8/8/4K3 w - e6 0 1").unwrap();
    let moves = board.generate_moves().iter_moves();
    assert!(moves.iter().all(|mv| !mv.is_enpassant()));
    for mv in moves {
        assert!(board.is_pseudo_legal(mv));
    }
}

#[test]
fn promotions_come_in_fours() {
    let tables = Tables::new().unwrap();
    let board = Board::from_fen(&tables, "1n2k3/P7/8/8/8/8/8/4K3 w - - 0 1").unwrap();
    let moves = board.generate_moves().iter_moves();
    for kind in [
        MoveKind::PromotionQueen,
        MoveKind::PromotionRook,
        MoveKind::PromotionBishop,
        MoveKind::PromotionKnight,
    ] {
        assert!(moves.contains(&Move::new(Square::A7, Square::A8, kind)));
        assert!(moves.contains(&Move::new(Square::A7, Square::B8, kind)));
    }
    assert!(!moves.contains(&Move::new(Square::A7, Square::A8, MoveKind::Normal)));
    let noisy = board.generate_noisy_moves().iter_moves();
    assert_eq!(noisy.len(), 8);
    let quiet = board.generate_quiet_moves().iter_moves();
    assert_eq!(quiet.len(), 5);
}

#[test]
fn stages_come_in_their_order() {
    let stages = [Stage::Hasher, Stage::NoisyGen, Stage::Noisy, Stage::QuietGen, Stage::Quiet];
    for (i, a) in stages.iter().enumerate() {
        for (j, b) in stages.iter().enumerate() {
            assert_eq!(a < b, i < j);
            assert_eq!(a == b, i == j);
            assert_eq!(a >= b, i >= j);
        }
    }
}
