use yukari::{Board, Move, Piece, Square};

fn find_move(board: &Board, cmd: &str) -> Move {
    let from = Square::from_str(&cmd[..2]).unwrap();
    let dest = Square::from_str(&cmd[2..4]).unwrap();
    let prom = if cmd.len() == 5 {
        match cmd.chars().nth(4).unwrap() {
            'n' => Some(Piece::Knight),
            'b' => Some(Piece::Bishop),
            'r' => Some(Piece::Rook),
            'q' => Some(Piece::Queen),
            _ => None,
        }
    } else {
        None
    };
    let mut moves = tinyvec::ArrayVec::new();
    board.generate(&mut moves);
    moves.into_iter().find(|&m| m.from() == from && m.dest() == dest && m.promotion_piece() == prom).unwrap()
}

#[test]
fn see_test0() {
    let board = Board::from_fen("6k1/1pp4p/p1pb4/6q1/3P1pRr/2P4P/PP1Br1P1/5RKN w - - ").unwrap();
    let m = find_move(&board, "f1f4");
    assert_eq!(board.static_exchange_evaluation(m), -1);
}

#[test]
fn see_test1() {
    let board = Board::from_fen("5rk1/1pp2q1p/p1pb4/8/3P1NP1/2P5/1P1BQ1P1/5RK1 b - - ").unwrap();
    let m = find_move(&board, "d6f4");
    assert_eq!(board.static_exchange_evaluation(m), 0);
}

#[test]
fn see_test2() {
    let board = Board::from_fen("4R3/2r3p1/5bk1/1p1r3p/p2PR1P1/P1BK1P2/1P6/8 b - - ").unwrap();
    let m = find_move(&board, "h5g4");
    assert_eq!(board.static_exchange_evaluation(m), 0);
}

#[test]
fn see_test3() {
    let board = Board::from_fen("4R3/2r3p1/5bk1/1p1r1p1p/p2PR1P1/P1BK1P2/1P6/8 b - - ").unwrap();
    let m = find_move(&board, "h5g4");
    assert_eq!(board.static_exchange_evaluation(m), 0);
}

#[test]
fn see_test4() {
    let board = Board::from_fen("4r1k1/5pp1/nbp4p/1p2p2q/1P2P1b1/1BP2N1P/1B2QPPK/3R4 b - - ").unwrap();
    let m = find_move(&board, "g4f3");
    assert_eq!(board.static_exchange_evaluation(m), 0);
}

#[test]
fn see_test5() {
    let board = Board::from_fen("2r1r1k1/pp1bppbp/3p1np1/q3P3/2P2P2/1P2B3/P1N1B1PP/2RQ1RK1 b - - ").unwrap();
    let m = find_move(&board, "d6e5");
    assert_eq!(board.static_exchange_evaluation(m), 1);
}

#[test]
fn see_test6() {
    let board = Board::from_fen("7r/5qpk/p1Qp1b1p/3r3n/BB3p2/5p2/P1P2P2/4RK1R w - - ").unwrap();
    let m = find_move(&board, "e1e8");
    assert_eq!(board.static_exchange_evaluation(m), 0);
}

#[test]
fn see_test7() {
    let board = Board::from_fen("6rr/6pk/p1Qp1b1p/2n5/1B3p2/5p2/P1P2P2/4RK1R w - - ").unwrap();
    let m = find_move(&board, "e1e8");
    assert_eq!(board.static_exchange_evaluation(m), -5);
}

#[test]
fn see_test8() {
    let board = Board::from_fen("7r/5qpk/2Qp1b1p/1N1r3n/BB3p2/5p2/P1P2P2/4RK1R w - - ").unwrap();
    let m = find_move(&board, "e1e8");
    assert_eq!(board.static_exchange_evaluation(m), -5);
}

#[test]
fn see_test9() {
    let board = Board::from_fen("6RR/4bP2/8/8/5r2/3K4/5p2/4k3 w - - ").unwrap();
    let m = find_move(&board, "f7f8q");
    assert_eq!(board.static_exchange_evaluation(m), 2);
}

#[test]
fn see_test10() {
    let board = Board::from_fen("6RR/4bP2/8/8/5r2/3K4/5p2/4k3 w - - ").unwrap();
    let m = find_move(&board, "f7f8n");
    assert_eq!(board.static_exchange_evaluation(m), 2);
}

#[test]
fn see_test11() {
    let board = Board::from_fen("7R/5P2/8/8/6r1/3K4/5p2/4k3 w - - ").unwrap();
    let m = find_move(&board, "f7f8q");
    assert_eq!(board.static_exchange_evaluation(m), 8);
}

#[test]
fn see_test12() {
    let board = Board::from_fen("7R/5P2/8/8/6r1/3K4/5p2/4k3 w - - ").unwrap();
    let m = find_move(&board, "f7f8b");
    assert_eq!(board.static_exchange_evaluation(m), 2);
}

#[test]
fn see_test13() {
    let board = Board::from_fen("7R/4bP2/8/8/1q6/3K4/5p2/4k3 w - - ").unwrap();
    let m = find_move(&board, "f7f8r");
    assert_eq!(board.static_exchange_evaluation(m), -1);
}

#[test]
fn see_test14() {
    let board = Board::from_fen("8/4kp2/2npp3/1Nn5/1p2PQP1/7q/1PP1B3/4KR1r b - - ").unwrap();
    let m = find_move(&board, "h1f1");
    assert_eq!(board.static_exchange_evaluation(m), 0);
}

#[test]
fn see_test15() {
    let board = Board::from_fen("8/4kp2/2npp3/1Nn5/1p2P1P1/7q/1PP1B3/4KR1r b - - ").unwrap();
    let m = find_move(&board, "h1f1");
    assert_eq!(board.static_exchange_evaluation(m), 0);
}

#[test]
fn see_test16() {
    let board = Board::from_fen("2r2r1k/6bp/p7/2q2p1Q/3PpP2/1B6/P5PP/2RR3K b - - ").unwrap();
    let m = find_move(&board, "c5c1");
    assert_eq!(board.static_exchange_evaluation(m), 1);
}

#[test]
fn see_test17() {
    let board = Board::from_fen("r2qk1nr/pp2ppbp/2b3p1/2p1p3/8/2N2N2/PPPP1PPP/R1BQR1K1 w kq - ").unwrap();
    let m = find_move(&board, "f3e5");
    assert_eq!(board.static_exchange_evaluation(m), 1);
}

#[test]
fn see_test18() {
    let board = Board::from_fen("6r1/4kq2/b2p1p2/p1pPb3/p1P2B1Q/2P4P/2B1R1P1/6K1 w - - ").unwrap();
    let m = find_move(&board, "f4e5");
    assert_eq!(board.static_exchange_evaluation(m), 0);
}

#[test]
fn see_test19() {
    let board = Board::from_fen("3q2nk/pb1r1p2/np6/3P2Pp/2p1P3/2R4B/PQ3P1P/3R2K1 w - h6 ").unwrap();
    let m = find_move(&board, "g5h6");
    assert_eq!(board.static_exchange_evaluation(m), 0);
}

#[test]
fn see_test20() {
    let board = Board::from_fen("3q2nk/pb1r1p2/np6/3P2Pp/2p1P3/2R1B2B/PQ3P1P/3R2K1 w - h6 ").unwrap();
    let m = find_move(&board, "g5h6");
    assert_eq!(board.static_exchange_evaluation(m), 1);
}

#[test]
fn see_test21() {
    let board = Board::from_fen("2r4r/1P4pk/p2p1b1p/7n/BB3p2/2R2p2/P1P2P2/4RK2 w - - ").unwrap();
    let m = find_move(&board, "c3c8");
    assert_eq!(board.static_exchange_evaluation(m), 5);
}

#[test]
fn see_test22() {
    let board = Board::from_fen("2r5/1P4pk/p2p1b1p/5b1n/BB3p2/2R2p2/P1P2P2/4RK2 w - - ").unwrap();
    let m = find_move(&board, "c3c8");
    assert_eq!(board.static_exchange_evaluation(m), 5);
}

#[test]
fn see_test23() {
    let board = Board::from_fen("2r4k/2r4p/p7/2b2p1b/4pP2/1BR5/P1R3PP/2Q4K w - - ").unwrap();
    let m = find_move(&board, "c3c5");
    assert_eq!(board.static_exchange_evaluation(m), 3);
}

#[test]
fn see_test24() {
    let board = Board::from_fen("8/pp6/2pkp3/4bp2/2R3b1/2P5/PP4B1/1K6 w - - ").unwrap();
    let m = find_move(&board, "g2c6");
    assert_eq!(board.static_exchange_evaluation(m), -2);
}

#[test]
fn see_test25() {
    let board = Board::from_fen("4q3/1p1pr1k1/1B2rp2/6p1/p3PP2/P3R1P1/1P2R1K1/4Q3 b - - ").unwrap();
    let m = find_move(&board, "e6e4");
    assert_eq!(board.static_exchange_evaluation(m), -4);
}

#[test]
fn see_test26() {
    let board = Board::from_fen("4q3/1p1pr1kb/1B2rp2/6p1/p3PP2/P3R1P1/1P2R1K1/4Q3 b - - ").unwrap();
    let m = find_move(&board, "h7e4");
    assert_eq!(board.static_exchange_evaluation(m), 1);
}

#[test]
fn see_test27() {
    let board = Board::from_fen("3r3k/3r4/2n1n3/8/3p4/2PR4/1B1Q4/3R3K w - - ").unwrap();
    let m = find_move(&board, "d3d4");
    assert_eq!(board.static_exchange_evaluation(m), -1);
}

#[test]
fn see_test28() {
    let board = Board::from_fen("1k1r4/1ppn3p/p4b2/4n3/8/P2N2P1/1PP1R1BP/2K1Q3 w - - ").unwrap();
    let m = find_move(&board, "d3e5");
    assert_eq!(board.static_exchange_evaluation(m), 1);
}

#[test]
fn see_test29() {
    let board = Board::from_fen("1k1r3q/1ppn3p/p4b2/4p3/8/P2N2P1/1PP1R1BP/2K1Q3 w - - ").unwrap();
    let m = find_move(&board, "d3e5");
    assert_eq!(board.static_exchange_evaluation(m), -2);
}

#[test]
fn see_test30() {
    let board = Board::from_fen("rnb2b1r/ppp2kpp/5n2/4P3/q2P3B/5R2/PPP2PPP/RN1QKB2 w Q - ").unwrap();
    let m = find_move(&board, "h4f6");
    assert_eq!(board.static_exchange_evaluation(m), 1);
}

#[test]
fn see_test31() {
    let board = Board::from_fen("r2q1rk1/2p1bppp/p2p1n2/1p2P3/4P1b1/1nP1BN2/PP3PPP/RN1QR1K1 b - - ").unwrap();
    let m = find_move(&board, "g4f3");
    assert_eq!(board.static_exchange_evaluation(m), 0);
}

#[test]
fn see_test32() {
    let board = Board::from_fen("r1bqkb1r/2pp1ppp/p1n5/1p2p3/3Pn3/1B3N2/PPP2PPP/RNBQ1RK1 b kq - ").unwrap();
    let m = find_move(&board, "c6d4");
    assert_eq!(board.static_exchange_evaluation(m), 0);
}

#[test]
fn see_test33() {
    let board = Board::from_fen("r1bq1r2/pp1ppkbp/4N1p1/n3P1B1/8/2N5/PPP2PPP/R2QK2R w KQ - ").unwrap();
    let m = find_move(&board, "e6g7");
    assert_eq!(board.static_exchange_evaluation(m), 0);
}

#[test]
fn see_test34() {
    let board = Board::from_fen("r1bq1r2/pp1ppkbp/4N1pB/n3P3/8/2N5/PPP2PPP/R2QK2R w KQ - ").unwrap();
    let m = find_move(&board, "e6g7");
    assert_eq!(board.static_exchange_evaluation(m), 3);
}

#[test]
fn see_test35() {
    let board = Board::from_fen("rnq1k2r/1b3ppp/p2bpn2/1p1p4/3N4/1BN1P3/PPP2PPP/R1BQR1K1 b kq - ").unwrap();
    let m = find_move(&board, "d6h2");
    assert_eq!(board.static_exchange_evaluation(m), -2);
}

#[test]
fn see_test36() {
    let board = Board::from_fen("rn2k2r/1bq2ppp/p2bpn2/1p1p4/3N4/1BN1P3/PPP2PPP/R1BQR1K1 b kq - ").unwrap();
    let m = find_move(&board, "d6h2");
    assert_eq!(board.static_exchange_evaluation(m), 1);
}

#[test]
fn see_test37() {
    let board = Board::from_fen("r2qkbn1/ppp1pp1p/3p1rp1/3Pn3/4P1b1/2N2N2/PPP2PPP/R1BQKB1R b KQq - ").unwrap();
    let m = find_move(&board, "g4f3");
    assert_eq!(board.static_exchange_evaluation(m), 1);
}

#[test]
fn see_test38() {
    let board = Board::from_fen("rnbq1rk1/pppp1ppp/4pn2/8/1bPP4/P1N5/1PQ1PPPP/R1B1KBNR b KQ - ").unwrap();
    let m = find_move(&board, "b4c3");
    assert_eq!(board.static_exchange_evaluation(m), 0);
}

#[test]
fn see_test39() {
    let board = Board::from_fen("r4rk1/3nppbp/bq1p1np1/2pP4/8/2N2NPP/PP2PPB1/R1BQR1K1 b - - ").unwrap();
    let m = find_move(&board, "b6b2");
    assert_eq!(board.static_exchange_evaluation(m), -8);
}

#[test]
fn see_test40() {
    let board = Board::from_fen("r4rk1/1q1nppbp/b2p1np1/2pP4/8/2N2NPP/PP2PPB1/R1BQR1K1 b - - ").unwrap();
    let m = find_move(&board, "f6d5");
    assert_eq!(board.static_exchange_evaluation(m), -2);
}

#[test]
fn see_test41() {
    let board = Board::from_fen("1r3r2/5p2/4p2p/2k1n1P1/2PN1nP1/1P3P2/8/2KR1B1R b - - ").unwrap();
    let m = find_move(&board, "b8b3");
    assert_eq!(board.static_exchange_evaluation(m), -4);
}

#[test]
fn see_test42() {
    let board = Board::from_fen("1r3r2/5p2/4p2p/4n1P1/kPPN1nP1/5P2/8/2KR1B1R b - - ").unwrap();
    let m = find_move(&board, "b8b4");
    assert_eq!(board.static_exchange_evaluation(m), 1);
}

#[test]
fn see_test43() {
    let board = Board::from_fen("2r2rk1/5pp1/pp5p/q2p4/P3n3/1Q3NP1/1P2PP1P/2RR2K1 b - - ").unwrap();
    let m = find_move(&board, "c8c1");
    assert_eq!(board.static_exchange_evaluation(m), 0);
}

#[test]
fn see_test44() {
    let board = Board::from_fen("5rk1/5pp1/2r4p/5b2/2R5/6Q1/R1P1qPP1/5NK1 b - - ").unwrap();
    let m = find_move(&board, "f5c2");
    assert_eq!(board.static_exchange_evaluation(m), -1);
}

#[test]
fn see_test45() {
    let board = Board::from_fen("1r3r1k/p4pp1/2p1p2p/qpQP3P/2P5/3R4/PP3PP1/1K1R4 b - - ").unwrap();
    let m = find_move(&board, "a5a2");
    assert_eq!(board.static_exchange_evaluation(m), -8);
}

#[test]
fn see_test46() {
    let board = Board::from_fen("1r5k/p4pp1/2p1p2p/qpQP3P/2P2P2/1P1R4/P4rP1/1K1R4 b - - ").unwrap();
    let m = find_move(&board, "a5a2");
    assert_eq!(board.static_exchange_evaluation(m), 1);
}

#[test]
fn see_test47() {
    let board = Board::from_fen("r2q1rk1/1b2bppp/p2p1n2/1ppNp3/3nP3/P2P1N1P/BPP2PP1/R1BQR1K1 w - - ").unwrap();
    let m = find_move(&board, "d5e7");
    assert_eq!(board.static_exchange_evaluation(m), 0);
}

#[test]
fn see_test48() {
    let board = Board::from_fen("rnbqrbn1/pp3ppp/3p4/2p2k2/4p3/3B1K2/PPP2PPP/RNB1Q1NR w - - ").unwrap();
    let m = find_move(&board, "d3e4");
    assert_eq!(board.static_exchange_evaluation(m), 1);
}

#[test]
fn see_test49() {
    let board = Board::from_fen("rnb1k2r/p3p1pp/1p3p1b/7n/1N2N3/3P1PB1/PPP1P1PP/R2QKB1R w KQkq - ").unwrap();
    let m = find_move(&board, "e4d6");
    assert_eq!(board.static_exchange_evaluation(m), -2);
}

#[test]
fn see_test50() {
    let board = Board::from_fen("r1b1k2r/p4npp/1pp2p1b/7n/1N2N3/3P1PB1/PPP1P1PP/R2QKB1R w KQkq - ").unwrap();
    let m = find_move(&board, "e4d6");
    assert_eq!(board.static_exchange_evaluation(m), 0);
}

#[test]
fn see_test51() {
    let board = Board::from_fen("2r1k2r/pb4pp/5p1b/2KB3n/4N3/2NP1PB1/PPP1P1PP/R2Q3R w k - ").unwrap();
    let m = find_move(&board, "d5c6");
    assert_eq!(board.static_exchange_evaluation(m), -3);
}

#[test]
fn see_test52() {
    let board = Board::from_fen("2r1k2r/pb4pp/5p1b/2KB3n/1N2N3/3P1PB1/PPP1P1PP/R2Q3R w k - ").unwrap();
    let m = find_move(&board, "d5c6");
    assert_eq!(board.static_exchange_evaluation(m), 0);
}

#[test]
fn see_test53() {
    let board = Board::from_fen("2r1k3/pbr3pp/5p1b/2KB3n/1N2N3/3P1PB1/PPP1P1PP/R2Q3R w - - ").unwrap();
    let m = find_move(&board, "d5c6");
    assert_eq!(board.static_exchange_evaluation(m), -3);
}

#[test]
fn see_test54() {
    let board = Board::from_fen("5k2/p2P2pp/8/1pb5/1Nn1P1n1/6Q1/PPP4P/R3K1NR w KQ - ").unwrap();
    let m = find_move(&board, "d7d8q");
    assert_eq!(board.static_exchange_evaluation(m), 8);
}

#[test]
fn see_test55() {
    let board = Board::from_fen("r4k2/p2P2pp/8/1pb5/1Nn1P1n1/6Q1/PPP4P/R3K1NR w KQ - ").unwrap();
    let m = find_move(&board, "d7d8q");
    assert_eq!(board.static_exchange_evaluation(m), -1);
}

#[test]
fn see_test56() {
    let board = Board::from_fen("5k2/p2P2pp/1b6/1p6/1Nn1P1n1/8/PPP4P/R2QK1NR w KQ - ").unwrap();
    let m = find_move(&board, "d7d8q");
    assert_eq!(board.static_exchange_evaluation(m), 2);
}

#[test]
fn see_test57() {
    let board = Board::from_fen("4kbnr/p1P1pppp/b7/4q3/7n/8/PP1PPPPP/RNBQKBNR w KQk - ").unwrap();
    let m = find_move(&board, "c7c8q");
    assert_eq!(board.static_exchange_evaluation(m), -1);
}

#[test]
fn see_test58() {
    let board = Board::from_fen("4kbnr/p1P1pppp/b7/4q3/7n/8/PPQPPPPP/RNB1KBNR w KQk - ").unwrap();
    let m = find_move(&board, "c7c8q");
    assert_eq!(board.static_exchange_evaluation(m), 2);
}

#[test]
fn see_test59() {
    let board = Board::from_fen("4kbnr/p1P1pppp/b7/4q3/7n/8/PPQPPPPP/RNB1KBNR w KQk - ").unwrap();
    let m = find_move(&board, "c7c8q");
    assert_eq!(board.static_exchange_evaluation(m), 2);
}

#[test]
fn see_test60() {
    let board = Board::from_fen("4kbnr/p1P4p/b1q5/5pP1/4n3/5Q2/PP1PPP1P/RNB1KBNR w KQk f6 ").unwrap();
    let m = find_move(&board, "g5f6");
    assert_eq!(board.static_exchange_evaluation(m), 0);
}

#[test]
fn see_test61() {
    let board = Board::from_fen("4kbnr/p1P4p/b1q5/5pP1/4n3/5Q2/PP1PPP1P/RNB1KBNR w KQk f6 ").unwrap();
    let m = find_move(&board, "g5f6");
    assert_eq!(board.static_exchange_evaluation(m), 0);
}

#[test]
fn see_test62() {
    let board = Board::from_fen("4kbnr/p1P4p/b1q5/5pP1/4n2Q/8/PP1PPP1P/RNB1KBNR w KQk f6 ").unwrap();
    let m = find_move(&board, "g5f6");
    assert_eq!(board.static_exchange_evaluation(m), 0);
}

#[test]
fn see_test63() {
    let board = Board::from_fen("1n2kb1r/p1P4p/2qb4/5pP1/4n2Q/8/PP1PPP1P/RNB1KBNR w KQk - ").unwrap();
    let m = find_move(&board, "c7b8q");
    assert_eq!(board.static_exchange_evaluation(m), 2);
}

#[test]
fn see_test64() {
    let board = Board::from_fen("rnbqk2r/pp3ppp/2p1pn2/3p4/3P4/N1P1BN2/PPB1PPPb/R2Q1RK1 w kq - ").unwrap();
    let m = find_move(&board, "g1h2");
    assert_eq!(board.static_exchange_evaluation(m), 3);
}

#[test]
fn see_test65() {
    let board = Board::from_fen("3N4/2K5/2n5/1k6/8/8/8/8 b - - ").unwrap();
    let m = find_move(&board, "c6d8");
    assert_eq!(board.static_exchange_evaluation(m), 0);
}

#[test]
fn see_test66() {
    let board = Board::from_fen("3n3r/2P5/8/1k6/8/8/3Q4/4K3 w - - ").unwrap();
    let m = find_move(&board, "c7d8q");
    assert_eq!(board.static_exchange_evaluation(m), 7);
}

#[test]
fn see_test67() {
    let board = Board::from_fen("r2n3r/2P1P3/4N3/1k6/8/8/8/4K3 w - - ").unwrap();
    let m = find_move(&board, "e6d8");
    assert_eq!(board.static_exchange_evaluation(m), 3);
}

#[test]
fn see_test68() {
    let board = Board::from_fen("8/8/8/1k6/6b1/4N3/2p3K1/3n4 w - - ").unwrap();
    let m = find_move(&board, "e3d1");
    assert_eq!(board.static_exchange_evaluation(m), 0);
}

#[test]
fn see_test69() {
    let board = Board::from_fen("8/8/1k6/8/8/2N1N3/4p1K1/3n4 w - - ").unwrap();
    let m = find_move(&board, "c3d1");
    assert_eq!(board.static_exchange_evaluation(m), 1);
}

#[test]
fn see_test70() {
    let board = Board::from_fen("r1bqk1nr/pppp1ppp/2n5/1B2p3/1b2P3/5N2/PPPP1PPP/RNBQK2R w KQkq - ").unwrap();
    let m = find_move(&board, "e1g1");
    assert_eq!(board.static_exchange_evaluation(m), 0);
}
