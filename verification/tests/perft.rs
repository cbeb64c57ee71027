use chess_core::board::Board;
use chess_core::moves::{Move, MoveKind};
use chess_core::perft::{perft, perft_divide, sum_counts};
use chess_core::square::Square;
use chess_core::tables::Tables;

#[test]
fn starpos() {
    let tables = Tables::new().unwrap();
    let mut board = Board::startpos(&tables).unwrap();
    assert_eq!(perft(&mut board, 6), 119060324);
}

#[test]
fn kiwipete() {
    let tables = Tables::new().unwrap();
    let mut board = Board::from_fen(
        &tables,
        "r3k2r/p1ppqpb1/bn2pnp1/3PN3/1p2P3/2N2Q1p/PPPBBPPP/R3K2R w KQkq - 0 1",
    )
    .unwrap();
    assert_eq!(perft(&mut board, 5), 193690690);
}

#[test]
fn position_3() {
    let tables = Tables::new().unwrap();
    let mut board = Board::from_fen(&tables, "8/2p5/3p4/KP5r/1R3p1k/8/4P1P1/8 w - - 0 1").unwrap();
    assert_eq!(perft(&mut board, 7), 178633661);
}

#[test]
fn position_4() {
    let tables = Tables::new().unwrap();
    let mut board = Board::from_fen(
        &tables,
        "r3k2r/Pppp1ppp/1b3nbN/nP6/BBP1P3/q4N2/Pp1P2PP/R2Q1RK1 w kq - 0 1",
    )
    .unwrap();
    assert_eq!(perft(&mut board, 5), 15833292);
}

#[test]
fn position_5() {
    let tables = Tables::new().unwrap();
    let mut board =
        Board::from_fen(&tables, "rnbq1k1r/pp1Pbppp/2p5/8/2B5/8/PPP1NnPP/RNBQK2R w KQ - 1 8")
            .unwrap();
    assert_eq!(perft(&mut board, 5), 89941194);
}

#[test]
fn position_6() {
    let tables = Tables::new().unwrap();
    let mut board = Board::from_fen(
        &tables,
        "r4rk1/1pp1qppp/p1np1n2/2b1p1B1/2B1P1b1/P1NP1N2/1PP1QPPP/R4RK1 w - - 0 10",
    )
    .unwrap();
    assert_eq!(perft(&mut board, 5), 164075551);
}

#[test]
fn shallow_counts_from_the_start() {
    let tables = Tables::new().unwrap();
    let mut board = Board::startpos(&tables).unwrap();
    assert_eq!(perft(&mut board, 1), 20);
    assert_eq!(perft(&mut board, 2), 400);
    assert_eq!(perft(&mut board, 3), 8902);
    assert_eq!(perft(&mut board, 4), 197281);
    assert_eq!(perft(&mut board, 5), 4865609);
}

#[test]
fn counts_that_are_not_sure_to_fit_are_not_taken() {
    let tables = Tables::new().unwrap();
    let mut board = Board::startpos(&tables).unwrap();
    assert_eq!(chess_core::perft::try_perft(&mut board, 3), Some(8902));
    assert_eq!(chess_core::perft::try_perft(&mut board, 0), Some(20));
    assert_eq!(chess_core::perft::try_perft(&mut board, 8), None);
    let mut late = Board::from_fen(&tables, "4k3/8/8/8/8/8/8/4K3 w - - 254 1").unwrap();
    assert_eq!(chess_core::perft::try_perft(&mut late, 1), Some(5));
    assert_eq!(chess_core::perft::try_perft(&mut late, 2), None);
}

#[test]
fn counts_move_by_move() {
    let tables = Tables::new().unwrap();
    let mut board = Board::startpos(&tables).unwrap();
    let before = board.state;
    let parts = perft_divide(&mut board, 3);
    assert_eq!(board.state, before);
    assert_eq!(parts.len(), 20);
    assert_eq!(parts.iter().map(|part| part.1).sum::<u64>(), 8902);
    assert_eq!(sum_counts(&parts), Some(8902));
    let moves: Vec<Move> = board
        .generate_moves()
        .iter_moves()
        .into_iter()
        .filter(|mv| board.is_legal(*mv))
        .collect();
    assert_eq!(parts.iter().map(|part| part.0).collect::<Vec<Move>>(), moves);
    for (mv, nodes) in parts.iter() {
        board.make(*mv);
        assert_eq!(perft(&mut board, 2), *nodes);
        board.unmake();
    }
    let count_of = |from: Square, to: Square| {
        let mv = Move::new(from, to, MoveKind::Normal);
        parts.iter().find(|part| part.0 == mv).unwrap().1
    };
    assert_eq!(count_of(Square::E2, Square::E4), 600);
    assert_eq!(count_of(Square::A2, Square::A3), 380);
    assert_eq!(count_of(Square::G1, Square::F3), 440);
    let ones = perft_divide(&mut board, 1);
    assert_eq!(ones.len(), 20);
    assert!(ones.iter().all(|part| part.1 == 1));
    let none = perft_divide(&mut board, 0);
    assert!(none.iter().all(|part| part.1 == 1));
    let mut pinned = Board::from_fen(&tables, "4k3/8/8/8/4r3/8/4N3/4K3 w - - 0 1").unwrap();
    let parts = perft_divide(&mut pinned, 2);
    assert!(parts.iter().all(|part| part.0.from() == Square::E1));
    assert_eq!(parts.iter().map(|part| part.1).sum::<u64>(), perft(&mut pinned, 2));
}

#[test]
fn a_sum_of_counts_that_does_not_fit() {
    let mv = Move::new(Square::E2, Square::E4, MoveKind::Normal);
    assert_eq!(sum_counts(&Vec::new()), Some(0));
    assert_eq!(sum_counts(&vec![(mv, 5), (mv, 7), (mv, 0)]), Some(12));
    assert_eq!(sum_counts(&vec![(mv, u64::MAX - 1), (mv, 1)]), Some(u64::MAX));
    assert_eq!(sum_counts(&vec![(mv, u64::MAX - 1), (mv, 2)]), None);
    assert_eq!(sum_counts(&vec![(mv, u64::MAX), (mv, 1), (mv, 3)]), None);
}
