use yukari::Board;

fn perft(board: &Board, depth: u32) -> u64 {
    if depth == 0 {
        return 1;
    }
    let mut moves = tinyvec::ArrayVec::new();
    board.generate(&mut moves);
    if depth == 1 {
        return moves.len() as u64;
    }
    let mut count = 0;
    for m in moves {
        count += perft(&board.make(m), depth - 1);
    }
    count
}

#[test]
fn shallow_perft_1() {
    let board = Board::from_fen("rnbqkbnr/pppppppp/8/8/8/8/PPPPPPPP/RNBQKBNR w KQkq - 0 1").unwrap();
    assert_eq!(perft(&board, 1), 20);
    assert_eq!(perft(&board, 2), 400);
    assert_eq!(perft(&board, 3), 8902);
}

#[test]
fn shallow_perft_2() {
    let board = Board::from_fen("r3k2r/p1ppqpb1/bn2pnp1/3PN3/1p2P3/2N2Q1p/PPPBBPPP/R3K2R w KQkq - 0 1").unwrap();
    assert_eq!(perft(&board, 1), 48);
    assert_eq!(perft(&board, 2), 2039);
}

#[test]
fn shallow_perft_3() {
    let board = Board::from_fen("4k3/8/8/8/8/8/8/4K2R w K - 0 1").unwrap();
    assert_eq!(perft(&board, 1), 15);
    assert_eq!(perft(&board, 2), 66);
    assert_eq!(perft(&board, 3), 1197);
    assert_eq!(perft(&board, 4), 7059);
}

#[test]
fn shallow_perft_4() {
    let board = Board::from_fen("4k3/8/8/8/8/8/8/R3K3 w Q - 0 1").unwrap();
    assert_eq!(perft(&board, 1), 16);
    assert_eq!(perft(&board, 2), 71);
    assert_eq!(perft(&board, 3), 1287);
    assert_eq!(perft(&board, 4), 7626);
}

#[test]
fn shallow_perft_5() {
    let board = Board::from_fen("4k2r/8/8/8/8/8/8/4K3 w k - 0 1").unwrap();
    assert_eq!(perft(&board, 1), 5);
    assert_eq!(perft(&board, 2), 75);
    assert_eq!(perft(&board, 3), 459);
    assert_eq!(perft(&board, 4), 8290);
}

#[test]
fn shallow_perft_6() {
    let board = Board::from_fen("r3k3/8/8/8/8/8/8/4K3 w q - 0 1").unwrap();
    assert_eq!(perft(&board, 1), 5);
    assert_eq!(perft(&board, 2), 80);
    assert_eq!(perft(&board, 3), 493);
    assert_eq!(perft(&board, 4), 8897);
}

#[test]
fn shallow_perft_7() {
    let board = Board::from_fen("4k3/8/8/8/8/8/8/R3K2R w KQ - 0 1").unwrap();
    assert_eq!(perft(&board, 1), 26);
    assert_eq!(perft(&board, 2), 112);
    assert_eq!(perft(&board, 3), 3189);
    assert_eq!(perft(&board, 4), 17945);
}

#[test]
fn shallow_perft_8() {
    let board = Board::from_fen("r3k2r/8/8/8/8/8/8/4K3 w kq - 0 1").unwrap();
    assert_eq!(perft(&board, 1), 5);
    assert_eq!(perft(&board, 2), 130);
    assert_eq!(perft(&board, 3), 782);
}

#[test]
fn shallow_perft_9() {
    let board = Board::from_fen("8/8/8/8/8/8/6k1/4K2R w K - 0 1").unwrap();
    assert_eq!(perft(&board, 1), 12);
    assert_eq!(perft(&board, 2), 38);
    assert_eq!(perft(&board, 3), 564);
    assert_eq!(perft(&board, 4), 2219);
}

#[test]
fn shallow_perft_10() {
    let board = Board::from_fen("8/8/8/8/8/8/1k6/R3K3 w Q - 0 1").unwrap();
    assert_eq!(perft(&board, 1), 15);
    assert_eq!(perft(&board, 2), 65);
    assert_eq!(perft(&board, 3), 1018);
    assert_eq!(perft(&board, 4), 4573);
}

#[test]
fn shallow_perft_11() {
    let board = Board::from_fen("4k2r/6K1/8/8/8/8/8/8 w k - 0 1").unwrap();
    assert_eq!(perft(&board, 1), 3);
    assert_eq!(perft(&board, 2), 32);
    assert_eq!(perft(&board, 3), 134);
    assert_eq!(perft(&board, 4), 2073);
    assert_eq!(perft(&board, 5), 10485);
}

#[test]
fn shallow_perft_12() {
    let board = Board::from_fen("r3k3/1K6/8/8/8/8/8/8 w q - 0 1").unwrap();
    assert_eq!(perft(&board, 1), 4);
    assert_eq!(perft(&board, 2), 49);
    assert_eq!(perft(&board, 3), 243);
    assert_eq!(perft(&board, 4), 3991);
}

#[test]
fn shallow_perft_13() {
    let board = Board::from_fen("r3k2r/8/8/8/8/8/8/R3K2R w KQkq - 0 1").unwrap();
    assert_eq!(perft(&board, 1), 26);
    assert_eq!(perft(&board, 2), 568);
    assert_eq!(perft(&board, 3), 13744);
}

#[test]
fn shallow_perft_14() {
    let board = Board::from_fen("r3k2r/8/8/8/8/8/8/1R2K2R w Kkq - 0 1").unwrap();
    assert_eq!(perft(&board, 1), 25);
    assert_eq!(perft(&board, 2), 567);
    assert_eq!(perft(&board, 3), 14095);
}

#[test]
fn shallow_perft_15() {
    let board = Board::from_fen("r3k2r/8/8/8/8/8/8/2R1K2R w Kkq - 0 1").unwrap();
    assert_eq!(perft(&board, 1), 25);
    assert_eq!(perft(&board, 2), 548);
    assert_eq!(perft(&board, 3), 13502);
}

#[test]
fn shallow_perft_16() {
    let board = Board::from_fen("r3k2r/8/8/8/8/8/8/R3K1R1 w Qkq - 0 1").unwrap();
    assert_eq!(perft(&board, 1), 25);
    assert_eq!(perft(&board, 2), 547);
    assert_eq!(perft(&board, 3), 13579);
}

#[test]
fn shallow_perft_17() {
    let board = Board::from_fen("1r2k2r/8/8/8/8/8/8/R3K2R w KQk - 0 1").unwrap();
    assert_eq!(perft(&board, 1), 26);
    assert_eq!(perft(&board, 2), 583);
    assert_eq!(perft(&board, 3), 14252);
}

#[test]
fn shallow_perft_18() {
    let board = Board::from_fen("2r1k2r/8/8/8/8/8/8/R3K2R w KQk - 0 1").unwrap();
    assert_eq!(perft(&board, 1), 25);
    assert_eq!(perft(&board, 2), 560);
    assert_eq!(perft(&board, 3), 13592);
}

#[test]
fn shallow_perft_19() {
    let board = Board::from_fen("r3k1r1/8/8/8/8/8/8/R3K2R w KQq - 0 1").unwrap();
    assert_eq!(perft(&board, 1), 25);
    assert_eq!(perft(&board, 2), 560);
    assert_eq!(perft(&board, 3), 13607);
}

#[test]
fn shallow_perft_20() {
    let board = Board::from_fen("4k3/8/8/8/8/8/8/4K2R b K - 0 1").unwrap();
    assert_eq!(perft(&board, 1), 5);
    assert_eq!(perft(&board, 2), 75);
    assert_eq!(perft(&board, 3), 459);
    assert_eq!(perft(&board, 4), 8290);
}

#[test]
fn shallow_perft_21() {
    let board = Board::from_fen("4k3/8/8/8/8/8/8/R3K3 b Q - 0 1").unwrap();
    assert_eq!(perft(&board, 1), 5);
    assert_eq!(perft(&board, 2), 80);
    assert_eq!(perft(&board, 3), 493);
    assert_eq!(perft(&board, 4), 8897);
}

#[test]
fn shallow_perft_22() {
    let board = Board::from_fen("4k2r/8/8/8/8/8/8/4K3 b k - 0 1").unwrap();
    assert_eq!(perft(&board, 1), 15);
    assert_eq!(perft(&board, 2), 66);
    assert_eq!(perft(&board, 3), 1197);
    assert_eq!(perft(&board, 4), 7059);
}

#[test]
fn shallow_perft_23() {
    let board = Board::from_fen("r3k3/8/8/8/8/8/8/4K3 b q - 0 1").unwrap();
    assert_eq!(perft(&board, 1), 16);
    assert_eq!(perft(&board, 2), 71);
    assert_eq!(perft(&board, 3), 1287);
    assert_eq!(perft(&board, 4), 7626);
}

#[test]
fn shallow_perft_24() {
    let board = Board::from_fen("4k3/8/8/8/8/8/8/R3K2R b KQ - 0 1").unwrap();
    assert_eq!(perft(&board, 1), 5);
    assert_eq!(perft(&board, 2), 130);
    assert_eq!(perft(&board, 3), 782);
}

#[test]
fn shallow_perft_25() {
    let board = Board::from_fen("r3k2r/8/8/8/8/8/8/4K3 b kq - 0 1").unwrap();
    assert_eq!(perft(&board, 1), 26);
    assert_eq!(perft(&board, 2), 112);
    assert_eq!(perft(&board, 3), 3189);
    assert_eq!(perft(&board, 4), 17945);
}

#[test]
fn shallow_perft_26() {
    let board = Board::from_fen("8/8/8/8/8/8/6k1/4K2R b K - 0 1").unwrap();
    assert_eq!(perft(&board, 1), 3);
    assert_eq!(perft(&board, 2), 32);
    assert_eq!(perft(&board, 3), 134);
    assert_eq!(perft(&board, 4), 2073);
    assert_eq!(perft(&board, 5), 10485);
}

#[test]
fn shallow_perft_27() {
    let board = Board::from_fen("8/8/8/8/8/8/1k6/R3K3 b Q - 0 1").unwrap();
    assert_eq!(perft(&board, 1), 4);
    assert_eq!(perft(&board, 2), 49);
    assert_eq!(perft(&board, 3), 243);
    assert_eq!(perft(&board, 4), 3991);
}

#[test]
fn shallow_perft_28() {
    let board = Board::from_fen("4k2r/6K1/8/8/8/8/8/8 b k - 0 1").unwrap();
    assert_eq!(perft(&board, 1), 12);
    assert_eq!(perft(&board, 2), 38);
    assert_eq!(perft(&board, 3), 564);
    assert_eq!(perft(&board, 4), 2219);
}

#[test]
fn shallow_perft_29() {
    let board = Board::from_fen("r3k3/1K6/8/8/8/8/8/8 b q - 0 1").unwrap();
    assert_eq!(perft(&board, 1), 15);
    assert_eq!(perft(&board, 2), 65);
    assert_eq!(perft(&board, 3), 1018);
    assert_eq!(perft(&board, 4), 4573);
}

#[test]
fn shallow_perft_30() {
    let board = Board::from_fen("r3k2r/8/8/8/8/8/8/R3K2R b KQkq - 0 1").unwrap();
    assert_eq!(perft(&board, 1), 26);
    assert_eq!(perft(&board, 2), 568);
    assert_eq!(perft(&board, 3), 13744);
}

#[test]
fn shallow_perft_31() {
    let board = Board::from_fen("r3k2r/8/8/8/8/8/8/1R2K2R b Kkq - 0 1").unwrap();
    assert_eq!(perft(&board, 1), 26);
    assert_eq!(perft(&board, 2), 583);
    assert_eq!(perft(&board, 3), 14252);
}

#[test]
fn shallow_perft_32() {
    let board = Board::from_fen("r3k2r/8/8/8/8/8/8/2R1K2R b Kkq - 0 1").unwrap();
    assert_eq!(perft(&board, 1), 25);
    assert_eq!(perft(&board, 2), 560);
    assert_eq!(perft(&board, 3), 13592);
}

#[test]
fn shallow_perft_33() {
    let board = Board::from_fen("r3k2r/8/8/8/8/8/8/R3K1R1 b Qkq - 0 1").unwrap();
    assert_eq!(perft(&board, 1), 25);
    assert_eq!(perft(&board, 2), 560);
    assert_eq!(perft(&board, 3), 13607);
}

#[test]
fn shallow_perft_34() {
    let board = Board::from_fen("1r2k2r/8/8/8/8/8/8/R3K2R b KQk - 0 1").unwrap();
    assert_eq!(perft(&board, 1), 25);
    assert_eq!(perft(&board, 2), 567);
    assert_eq!(perft(&board, 3), 14095);
}

#[test]
fn shallow_perft_35() {
    let board = Board::from_fen("2r1k2r/8/8/8/8/8/8/R3K2R b KQk - 0 1").unwrap();
    assert_eq!(perft(&board, 1), 25);
    assert_eq!(perft(&board, 2), 548);
    assert_eq!(perft(&board, 3), 13502);
}

#[test]
fn shallow_perft_36() {
    let board = Board::from_fen("r3k1r1/8/8/8/8/8/8/R3K2R b KQq - 0 1").unwrap();
    assert_eq!(perft(&board, 1), 25);
    assert_eq!(perft(&board, 2), 547);
    assert_eq!(perft(&board, 3), 13579);
}

#[test]
fn shallow_perft_37() {
    let board = Board::from_fen("8/1n4N1/2k5/8/8/5K2/1N4n1/8 w - - 0 1").unwrap();
    assert_eq!(perft(&board, 1), 14);
    assert_eq!(perft(&board, 2), 195);
    assert_eq!(perft(&board, 3), 2760);
}

#[test]
fn shallow_perft_38() {
    let board = Board::from_fen("8/1k6/8/5N2/8/4n3/8/2K5 w - - 0 1").unwrap();
    assert_eq!(perft(&board, 1), 11);
    assert_eq!(perft(&board, 2), 156);
    assert_eq!(perft(&board, 3), 1636);
}

#[test]
fn shallow_perft_39() {
    let board = Board::from_fen("8/8/4k3/3Nn3/3nN3/4K3/8/8 w - - 0 1").unwrap();
    assert_eq!(perft(&board, 1), 19);
    assert_eq!(perft(&board, 2), 289);
    assert_eq!(perft(&board, 3), 4442);
}

#[test]
fn shallow_perft_40() {
    let board = Board::from_fen("K7/8/2n5/1n6/8/8/8/k6N w - - 0 1").unwrap();
    assert_eq!(perft(&board, 1), 3);
    assert_eq!(perft(&board, 2), 51);
    assert_eq!(perft(&board, 3), 345);
    assert_eq!(perft(&board, 4), 5301);
}

#[test]
fn shallow_perft_41() {
    let board = Board::from_fen("k7/8/2N5/1N6/8/8/8/K6n w - - 0 1").unwrap();
    assert_eq!(perft(&board, 1), 17);
    assert_eq!(perft(&board, 2), 54);
    assert_eq!(perft(&board, 3), 835);
    assert_eq!(perft(&board, 4), 5910);
}

#[test]
fn shallow_perft_42() {
    let board = Board::from_fen("8/1n4N1/2k5/8/8/5K2/1N4n1/8 b - - 0 1").unwrap();
    assert_eq!(perft(&board, 1), 15);
    assert_eq!(perft(&board, 2), 193);
    assert_eq!(perft(&board, 3), 2816);
}

#[test]
fn shallow_perft_43() {
    let board = Board::from_fen("8/1k6/8/5N2/8/4n3/8/2K5 b - - 0 1").unwrap();
    assert_eq!(perft(&board, 1), 16);
    assert_eq!(perft(&board, 2), 180);
    assert_eq!(perft(&board, 3), 2290);
}

#[test]
fn shallow_perft_44() {
    let board = Board::from_fen("8/8/3K4/3Nn3/3nN3/4k3/8/8 b - - 0 1").unwrap();
    assert_eq!(perft(&board, 1), 4);
    assert_eq!(perft(&board, 2), 68);
    assert_eq!(perft(&board, 3), 1118);
    assert_eq!(perft(&board, 4), 16199);
}

#[test]
fn shallow_perft_45() {
    let board = Board::from_fen("K7/8/2n5/1n6/8/8/8/k6N b - - 0 1").unwrap();
    assert_eq!(perft(&board, 1), 17);
    assert_eq!(perft(&board, 2), 54);
    assert_eq!(perft(&board, 3), 835);
    assert_eq!(perft(&board, 4), 5910);
}

#[test]
fn shallow_perft_46() {
    let board = Board::from_fen("k7/8/2N5/1N6/8/8/8/K6n b - - 0 1").unwrap();
    assert_eq!(perft(&board, 1), 3);
    assert_eq!(perft(&board, 2), 51);
    assert_eq!(perft(&board, 3), 345);
    assert_eq!(perft(&board, 4), 5301);
}

#[test]
fn shallow_perft_47() {
    let board = Board::from_fen("B6b/8/8/8/2K5/4k3/8/b6B w - - 0 1").unwrap();
    assert_eq!(perft(&board, 1), 17);
    assert_eq!(perft(&board, 2), 278);
    assert_eq!(perft(&board, 3), 4607);
}

#[test]
fn shallow_perft_48() {
    let board = Board::from_fen("8/8/1B6/7b/7k/8/2B1b3/7K w - - 0 1").unwrap();
    assert_eq!(perft(&board, 1), 21);
    assert_eq!(perft(&board, 2), 316);
    assert_eq!(perft(&board, 3), 5744);
}

#[test]
fn shallow_perft_49() {
    let board = Board::from_fen("k7/B7/1B6/1B6/8/8/8/K6b w - - 0 1").unwrap();
    assert_eq!(perft(&board, 1), 21);
    assert_eq!(perft(&board, 2), 144);
    assert_eq!(perft(&board, 3), 3242);
}

#[test]
fn shallow_perft_50() {
    let board = Board::from_fen("K7/b7/1b6/1b6/8/8/8/k6B w - - 0 1").unwrap();
    assert_eq!(perft(&board, 1), 7);
    assert_eq!(perft(&board, 2), 143);
    assert_eq!(perft(&board, 3), 1416);
}

#[test]
fn shallow_perft_51() {
    let board = Board::from_fen("B6b/8/8/8/2K5/5k2/8/b6B b - - 0 1").unwrap();
    assert_eq!(perft(&board, 1), 6);
    assert_eq!(perft(&board, 2), 106);
    assert_eq!(perft(&board, 3), 1829);
}

#[test]
fn shallow_perft_52() {
    let board = Board::from_fen("8/8/1B6/7b/7k/8/2B1b3/7K b - - 0 1").unwrap();
    assert_eq!(perft(&board, 1), 17);
    assert_eq!(perft(&board, 2), 309);
    assert_eq!(perft(&board, 3), 5133);
}

#[test]
fn shallow_perft_53() {
    let board = Board::from_fen("k7/B7/1B6/1B6/8/8/8/K6b b - - 0 1").unwrap();
    assert_eq!(perft(&board, 1), 7);
    assert_eq!(perft(&board, 2), 143);
    assert_eq!(perft(&board, 3), 1416);
}

#[test]
fn shallow_perft_54() {
    let board = Board::from_fen("K7/b7/1b6/1b6/8/8/8/k6B b - - 0 1").unwrap();
    assert_eq!(perft(&board, 1), 21);
    assert_eq!(perft(&board, 2), 144);
    assert_eq!(perft(&board, 3), 3242);
}

#[test]
fn shallow_perft_55() {
    let board = Board::from_fen("7k/RR6/8/8/8/8/rr6/7K w - - 0 1").unwrap();
    assert_eq!(perft(&board, 1), 19);
    assert_eq!(perft(&board, 2), 275);
    assert_eq!(perft(&board, 3), 5300);
}

#[test]
fn shallow_perft_56() {
    let board = Board::from_fen("R6r/8/8/2K5/5k2/8/8/r6R w - - 0 1").unwrap();
    assert_eq!(perft(&board, 1), 36);
    assert_eq!(perft(&board, 2), 1027);
}

#[test]
fn shallow_perft_57() {
    let board = Board::from_fen("7k/RR6/8/8/8/8/rr6/7K b - - 0 1").unwrap();
    assert_eq!(perft(&board, 1), 19);
    assert_eq!(perft(&board, 2), 275);
    assert_eq!(perft(&board, 3), 5300);
}

#[test]
fn shallow_perft_58() {
    let board = Board::from_fen("R6r/8/8/2K5/5k2/8/8/r6R b - - 0 1").unwrap();
    assert_eq!(perft(&board, 1), 36);
    assert_eq!(perft(&board, 2), 1027);
}

#[test]
fn shallow_perft_59() {
    let board = Board::from_fen("6kq/8/8/8/8/8/8/7K w - - 0 1").unwrap();
    assert_eq!(perft(&board, 1), 2);
    assert_eq!(perft(&board, 2), 36);
    assert_eq!(perft(&board, 3), 143);
    assert_eq!(perft(&board, 4), 3637);
    assert_eq!(perft(&board, 5), 14893);
}

#[test]
fn shallow_perft_60() {
    let board = Board::from_fen("6KQ/8/8/8/8/8/8/7k b - - 0 1").unwrap();
    assert_eq!(perft(&board, 1), 2);
    assert_eq!(perft(&board, 2), 36);
    assert_eq!(perft(&board, 3), 143);
    assert_eq!(perft(&board, 4), 3637);
    assert_eq!(perft(&board, 5), 14893);
}

#[test]
fn shallow_perft_61() {
    let board = Board::from_fen("K7/8/8/3Q4/4q3/8/8/7k w - - 0 1").unwrap();
    assert_eq!(perft(&board, 1), 6);
    assert_eq!(perft(&board, 2), 35);
    assert_eq!(perft(&board, 3), 495);
    assert_eq!(perft(&board, 4), 8349);
}

#[test]
fn shallow_perft_62() {
    let board = Board::from_fen("6qk/8/8/8/8/8/8/7K b - - 0 1").unwrap();
    assert_eq!(perft(&board, 1), 22);
    assert_eq!(perft(&board, 2), 43);
    assert_eq!(perft(&board, 3), 1015);
    assert_eq!(perft(&board, 4), 4167);
}

#[test]
fn shallow_perft_63() {
    let board = Board::from_fen("6KQ/8/8/8/8/8/8/7k b - - 0 1").unwrap();
    assert_eq!(perft(&board, 1), 2);
    assert_eq!(perft(&board, 2), 36);
    assert_eq!(perft(&board, 3), 143);
    assert_eq!(perft(&board, 4), 3637);
    assert_eq!(perft(&board, 5), 14893);
}

#[test]
fn shallow_perft_64() {
    let board = Board::from_fen("K7/8/8/3Q4/4q3/8/8/7k b - - 0 1").unwrap();
    assert_eq!(perft(&board, 1), 6);
    assert_eq!(perft(&board, 2), 35);
    assert_eq!(perft(&board, 3), 495);
    assert_eq!(perft(&board, 4), 8349);
}

#[test]
fn shallow_perft_65() {
    let board = Board::from_fen("8/8/8/8/8/K7/P7/k7 w - - 0 1").unwrap();
    assert_eq!(perft(&board, 1), 3);
    assert_eq!(perft(&board, 2), 7);
    assert_eq!(perft(&board, 3), 43);
    assert_eq!(perft(&board, 4), 199);
    assert_eq!(perft(&board, 5), 1347);
    assert_eq!(perft(&board, 6), 6249);
}

#[test]
fn shallow_perft_66() {
    let board = Board::from_fen("8/8/8/8/8/7K/7P/7k w - - 0 1").unwrap();
    assert_eq!(perft(&board, 1), 3);
    assert_eq!(perft(&board, 2), 7);
    assert_eq!(perft(&board, 3), 43);
    assert_eq!(perft(&board, 4), 199);
    assert_eq!(perft(&board, 5), 1347);
    assert_eq!(perft(&board, 6), 6249);
}

#[test]
fn shallow_perft_67() {
    let board = Board::from_fen("K7/p7/k7/8/8/8/8/8 w - - 0 1").unwrap();
    assert_eq!(perft(&board, 1), 1);
    assert_eq!(perft(&board, 2), 3);
    assert_eq!(perft(&board, 3), 12);
    assert_eq!(perft(&board, 4), 80);
    assert_eq!(perft(&board, 5), 342);
    assert_eq!(perft(&board, 6), 2343);
}

#[test]
fn shallow_perft_68() {
    let board = Board::from_fen("7K/7p/7k/8/8/8/8/8 w - - 0 1").unwrap();
    assert_eq!(perft(&board, 1), 1);
    assert_eq!(perft(&board, 2), 3);
    assert_eq!(perft(&board, 3), 12);
    assert_eq!(perft(&board, 4), 80);
    assert_eq!(perft(&board, 5), 342);
    assert_eq!(perft(&board, 6), 2343);
}

#[test]
fn shallow_perft_69() {
    let board = Board::from_fen("8/2k1p3/3pP3/3P2K1/8/8/8/8 w - - 0 1").unwrap();
    assert_eq!(perft(&board, 1), 7);
    assert_eq!(perft(&board, 2), 35);
    assert_eq!(perft(&board, 3), 210);
    assert_eq!(perft(&board, 4), 1091);
    assert_eq!(perft(&board, 5), 7028);
}

#[test]
fn shallow_perft_70() {
    let board = Board::from_fen("8/8/8/8/8/K7/P7/k7 b - - 0 1").unwrap();
    assert_eq!(perft(&board, 1), 1);
    assert_eq!(perft(&board, 2), 3);
    assert_eq!(perft(&board, 3), 12);
    assert_eq!(perft(&board, 4), 80);
    assert_eq!(perft(&board, 5), 342);
    assert_eq!(perft(&board, 6), 2343);
}

#[test]
fn shallow_perft_71() {
    let board = Board::from_fen("8/8/8/8/8/7K/7P/7k b - - 0 1").unwrap();
    assert_eq!(perft(&board, 1), 1);
    assert_eq!(perft(&board, 2), 3);
    assert_eq!(perft(&board, 3), 12);
    assert_eq!(perft(&board, 4), 80);
    assert_eq!(perft(&board, 5), 342);
    assert_eq!(perft(&board, 6), 2343);
}

#[test]
fn shallow_perft_72() {
    let board = Board::from_fen("K7/p7/k7/8/8/8/8/8 b - - 0 1").unwrap();
    assert_eq!(perft(&board, 1), 3);
    assert_eq!(perft(&board, 2), 7);
    assert_eq!(perft(&board, 3), 43);
    assert_eq!(perft(&board, 4), 199);
    assert_eq!(perft(&board, 5), 1347);
    assert_eq!(perft(&board, 6), 6249);
}

#[test]
fn shallow_perft_73() {
    let board = Board::from_fen("7K/7p/7k/8/8/8/8/8 b - - 0 1").unwrap();
    assert_eq!(perft(&board, 1), 3);
    assert_eq!(perft(&board, 2), 7);
    assert_eq!(perft(&board, 3), 43);
    assert_eq!(perft(&board, 4), 199);
    assert_eq!(perft(&board, 5), 1347);
    assert_eq!(perft(&board, 6), 6249);
}

#[test]
fn shallow_perft_74() {
    let board = Board::from_fen("8/2k1p3/3pP3/3P2K1/8/8/8/8 b - - 0 1").unwrap();
    assert_eq!(perft(&board, 1), 5);
    assert_eq!(perft(&board, 2), 35);
    assert_eq!(perft(&board, 3), 182);
    assert_eq!(perft(&board, 4), 1091);
    assert_eq!(perft(&board, 5), 5408);
}

#[test]
fn shallow_perft_75() {
    let board = Board::from_fen("8/8/8/8/8/4k3/4P3/4K3 w - - 0 1").unwrap();
    assert_eq!(perft(&board, 1), 2);
    assert_eq!(perft(&board, 2), 8);
    assert_eq!(perft(&board, 3), 44);
    assert_eq!(perft(&board, 4), 282);
    assert_eq!(perft(&board, 5), 1814);
    assert_eq!(perft(&board, 6), 11848);
}

#[test]
fn shallow_perft_76() {
    let board = Board::from_fen("4k3/4p3/4K3/8/8/8/8/8 b - - 0 1").unwrap();
    assert_eq!(perft(&board, 1), 2);
    assert_eq!(perft(&board, 2), 8);
    assert_eq!(perft(&board, 3), 44);
    assert_eq!(perft(&board, 4), 282);
    assert_eq!(perft(&board, 5), 1814);
    assert_eq!(perft(&board, 6), 11848);
}

#[test]
fn shallow_perft_77() {
    let board = Board::from_fen("8/8/7k/7p/7P/7K/8/8 w - - 0 1").unwrap();
    assert_eq!(perft(&board, 1), 3);
    assert_eq!(perft(&board, 2), 9);
    assert_eq!(perft(&board, 3), 57);
    assert_eq!(perft(&board, 4), 360);
    assert_eq!(perft(&board, 5), 1969);
    assert_eq!(perft(&board, 6), 10724);
}

#[test]
fn shallow_perft_78() {
    let board = Board::from_fen("8/8/k7/p7/P7/K7/8/8 w - - 0 1").unwrap();
    assert_eq!(perft(&board, 1), 3);
    assert_eq!(perft(&board, 2), 9);
    assert_eq!(perft(&board, 3), 57);
    assert_eq!(perft(&board, 4), 360);
    assert_eq!(perft(&board, 5), 1969);
    assert_eq!(perft(&board, 6), 10724);
}

#[test]
fn shallow_perft_79() {
    let board = Board::from_fen("8/8/3k4/3p4/3P4/3K4/8/8 w - - 0 1").unwrap();
    assert_eq!(perft(&board, 1), 5);
    assert_eq!(perft(&board, 2), 25);
    assert_eq!(perft(&board, 3), 180);
    assert_eq!(perft(&board, 4), 1294);
    assert_eq!(perft(&board, 5), 8296);
}

#[test]
fn shallow_perft_80() {
    let board = Board::from_fen("8/3k4/3p4/8/3P4/3K4/8/8 w - - 0 1").unwrap();
    assert_eq!(perft(&board, 1), 8);
    assert_eq!(perft(&board, 2), 61);
    assert_eq!(perft(&board, 3), 483);
    assert_eq!(perft(&board, 4), 3213);
}

#[test]
fn shallow_perft_81() {
    let board = Board::from_fen("8/8/3k4/3p4/8/3P4/3K4/8 w - - 0 1").unwrap();
    assert_eq!(perft(&board, 1), 8);
    assert_eq!(perft(&board, 2), 61);
    assert_eq!(perft(&board, 3), 411);
    assert_eq!(perft(&board, 4), 3213);
}

#[test]
fn shallow_perft_82() {
    let board = Board::from_fen("k7/8/3p4/8/3P4/8/8/7K w - - 0 1").unwrap();
    assert_eq!(perft(&board, 1), 4);
    assert_eq!(perft(&board, 2), 15);
    assert_eq!(perft(&board, 3), 90);
    assert_eq!(perft(&board, 4), 534);
    assert_eq!(perft(&board, 5), 3450);
}

#[test]
fn shallow_perft_83() {
    let board = Board::from_fen("8/8/7k/7p/7P/7K/8/8 b - - 0 1").unwrap();
    assert_eq!(perft(&board, 1), 3);
    assert_eq!(perft(&board, 2), 9);
    assert_eq!(perft(&board, 3), 57);
    assert_eq!(perft(&board, 4), 360);
    assert_eq!(perft(&board, 5), 1969);
    assert_eq!(perft(&board, 6), 10724);
}

#[test]
fn shallow_perft_84() {
    let board = Board::from_fen("8/8/k7/p7/P7/K7/8/8 b - - 0 1").unwrap();
    assert_eq!(perft(&board, 1), 3);
    assert_eq!(perft(&board, 2), 9);
    assert_eq!(perft(&board, 3), 57);
    assert_eq!(perft(&board, 4), 360);
    assert_eq!(perft(&board, 5), 1969);
    assert_eq!(perft(&board, 6), 10724);
}

#[test]
fn shallow_perft_85() {
    let board = Board::from_fen("8/8/3k4/3p4/3P4/3K4/8/8 b - - 0 1").unwrap();
    assert_eq!(perft(&board, 1), 5);
    assert_eq!(perft(&board, 2), 25);
    assert_eq!(perft(&board, 3), 180);
    assert_eq!(perft(&board, 4), 1294);
    assert_eq!(perft(&board, 5), 8296);
}

#[test]
fn shallow_perft_86() {
    let board = Board::from_fen("8/3k4/3p4/8/3P4/3K4/8/8 b - - 0 1").unwrap();
    assert_eq!(perft(&board, 1), 8);
    assert_eq!(perft(&board, 2), 61);
    assert_eq!(perft(&board, 3), 411);
    assert_eq!(perft(&board, 4), 3213);
}

#[test]
fn shallow_perft_87() {
    let board = Board::from_fen("8/8/3k4/3p4/8/3P4/3K4/8 b - - 0 1").unwrap();
    assert_eq!(perft(&board, 1), 8);
    assert_eq!(perft(&board, 2), 61);
    assert_eq!(perft(&board, 3), 483);
    assert_eq!(perft(&board, 4), 3213);
}

#[test]
fn shallow_perft_88() {
    let board = Board::from_fen("k7/8/3p4/8/3P4/8/8/7K b - - 0 1").unwrap();
    assert_eq!(perft(&board, 1), 4);
    assert_eq!(perft(&board, 2), 15);
    assert_eq!(perft(&board, 3), 89);
    assert_eq!(perft(&board, 4), 537);
    assert_eq!(perft(&board, 5), 3309);
}

#[test]
fn shallow_perft_89() {
    let board = Board::from_fen("7k/3p4/8/8/3P4/8/8/K7 w - - 0 1").unwrap();
    assert_eq!(perft(&board, 1), 4);
    assert_eq!(perft(&board, 2), 19);
    assert_eq!(perft(&board, 3), 117);
    assert_eq!(perft(&board, 4), 720);
    assert_eq!(perft(&board, 5), 4661);
}

#[test]
fn shallow_perft_90() {
    let board = Board::from_fen("7k/8/8/3p4/8/8/3P4/K7 w - - 0 1").unwrap();
    assert_eq!(perft(&board, 1), 5);
    assert_eq!(perft(&board, 2), 19);
    assert_eq!(perft(&board, 3), 116);
    assert_eq!(perft(&board, 4), 716);
    assert_eq!(perft(&board, 5), 4786);
}

#[test]
fn shallow_perft_91() {
    let board = Board::from_fen("k7/8/8/7p/6P1/8/8/K7 w - - 0 1").unwrap();
    assert_eq!(perft(&board, 1), 5);
    assert_eq!(perft(&board, 2), 22);
    assert_eq!(perft(&board, 3), 139);
    assert_eq!(perft(&board, 4), 877);
    assert_eq!(perft(&board, 5), 6112);
}

#[test]
fn shallow_perft_92() {
    let board = Board::from_fen("k7/8/7p/8/8/6P1/8/K7 w - - 0 1").unwrap();
    assert_eq!(perft(&board, 1), 4);
    assert_eq!(perft(&board, 2), 16);
    assert_eq!(perft(&board, 3), 101);
    assert_eq!(perft(&board, 4), 637);
    assert_eq!(perft(&board, 5), 4354);
}

#[test]
fn shallow_perft_93() {
    let board = Board::from_fen("k7/8/8/6p1/7P/8/8/K7 w - - 0 1").unwrap();
    assert_eq!(perft(&board, 1), 5);
    assert_eq!(perft(&board, 2), 22);
    assert_eq!(perft(&board, 3), 139);
    assert_eq!(perft(&board, 4), 877);
    assert_eq!(perft(&board, 5), 6112);
}

#[test]
fn shallow_perft_94() {
    let board = Board::from_fen("k7/8/6p1/8/8/7P/8/K7 w - - 0 1").unwrap();
    assert_eq!(perft(&board, 1), 4);
    assert_eq!(perft(&board, 2), 16);
    assert_eq!(perft(&board, 3), 101);
    assert_eq!(perft(&board, 4), 637);
    assert_eq!(perft(&board, 5), 4354);
}

#[test]
fn shallow_perft_95() {
    let board = Board::from_fen("k7/8/8/3p4/4p3/8/8/7K w - - 0 1").unwrap();
    assert_eq!(perft(&board, 1), 3);
    assert_eq!(perft(&board, 2), 15);
    assert_eq!(perft(&board, 3), 84);
    assert_eq!(perft(&board, 4), 573);
    assert_eq!(perft(&board, 5), 3013);
}

#[test]
fn shallow_perft_96() {
    let board = Board::from_fen("k7/8/3p4/8/8/4P3/8/7K w - - 0 1").unwrap();
    assert_eq!(perft(&board, 1), 4);
    assert_eq!(perft(&board, 2), 16);
    assert_eq!(perft(&board, 3), 101);
    assert_eq!(perft(&board, 4), 637);
    assert_eq!(perft(&board, 5), 4271);
}

#[test]
fn shallow_perft_97() {
    let board = Board::from_fen("7k/3p4/8/8/3P4/8/8/K7 b - - 0 1").unwrap();
    assert_eq!(perft(&board, 1), 5);
    assert_eq!(perft(&board, 2), 19);
    assert_eq!(perft(&board, 3), 117);
    assert_eq!(perft(&board, 4), 720);
    assert_eq!(perft(&board, 5), 5014);
}

#[test]
fn shallow_perft_98() {
    let board = Board::from_fen("7k/8/8/3p4/8/8/3P4/K7 b - - 0 1").unwrap();
    assert_eq!(perft(&board, 1), 4);
    assert_eq!(perft(&board, 2), 19);
    assert_eq!(perft(&board, 3), 117);
    assert_eq!(perft(&board, 4), 712);
    assert_eq!(perft(&board, 5), 4658);
}

#[test]
fn shallow_perft_99() {
    let board = Board::from_fen("k7/8/8/7p/6P1/8/8/K7 b - - 0 1").unwrap();
    assert_eq!(perft(&board, 1), 5);
    assert_eq!(perft(&board, 2), 22);
    assert_eq!(perft(&board, 3), 139);
    assert_eq!(perft(&board, 4), 877);
    assert_eq!(perft(&board, 5), 6112);
}

#[test]
fn shallow_perft_100() {
    let board = Board::from_fen("k7/8/7p/8/8/6P1/8/K7 b - - 0 1").unwrap();
    assert_eq!(perft(&board, 1), 4);
    assert_eq!(perft(&board, 2), 16);
    assert_eq!(perft(&board, 3), 101);
    assert_eq!(perft(&board, 4), 637);
    assert_eq!(perft(&board, 5), 4354);
}

#[test]
fn shallow_perft_101() {
    let board = Board::from_fen("k7/8/8/6p1/7P/8/8/K7 b - - 0 1").unwrap();
    assert_eq!(perft(&board, 1), 5);
    assert_eq!(perft(&board, 2), 22);
    assert_eq!(perft(&board, 3), 139);
    assert_eq!(perft(&board, 4), 877);
    assert_eq!(perft(&board, 5), 6112);
}

#[test]
fn shallow_perft_102() {
    let board = Board::from_fen("k7/8/6p1/8/8/7P/8/K7 b - - 0 1").unwrap();
    assert_eq!(perft(&board, 1), 4);
    assert_eq!(perft(&board, 2), 16);
    assert_eq!(perft(&board, 3), 101);
    assert_eq!(perft(&board, 4), 637);
    assert_eq!(perft(&board, 5), 4354);
}

#[test]
fn shallow_perft_103() {
    let board = Board::from_fen("k7/8/8/3p4/4p3/8/8/7K b - - 0 1").unwrap();
    assert_eq!(perft(&board, 1), 5);
    assert_eq!(perft(&board, 2), 15);
    assert_eq!(perft(&board, 3), 102);
    assert_eq!(perft(&board, 4), 569);
    assert_eq!(perft(&board, 5), 4337);
}

#[test]
fn shallow_perft_104() {
    let board = Board::from_fen("k7/8/3p4/8/8/4P3/8/7K b - - 0 1").unwrap();
    assert_eq!(perft(&board, 1), 4);
    assert_eq!(perft(&board, 2), 16);
    assert_eq!(perft(&board, 3), 101);
    assert_eq!(perft(&board, 4), 637);
    assert_eq!(perft(&board, 5), 4271);
}

#[test]
fn shallow_perft_105() {
    let board = Board::from_fen("7k/8/8/p7/1P6/8/8/7K w - - 0 1").unwrap();
    assert_eq!(perft(&board, 1), 5);
    assert_eq!(perft(&board, 2), 22);
    assert_eq!(perft(&board, 3), 139);
    assert_eq!(perft(&board, 4), 877);
    assert_eq!(perft(&board, 5), 6112);
}

#[test]
fn shallow_perft_106() {
    let board = Board::from_fen("7k/8/p7/8/8/1P6/8/7K w - - 0 1").unwrap();
    assert_eq!(perft(&board, 1), 4);
    assert_eq!(perft(&board, 2), 16);
    assert_eq!(perft(&board, 3), 101);
    assert_eq!(perft(&board, 4), 637);
    assert_eq!(perft(&board, 5), 4354);
}

#[test]
fn shallow_perft_107() {
    let board = Board::from_fen("7k/8/8/1p6/P7/8/8/7K w - - 0 1").unwrap();
    assert_eq!(perft(&board, 1), 5);
    assert_eq!(perft(&board, 2), 22);
    assert_eq!(perft(&board, 3), 139);
    assert_eq!(perft(&board, 4), 877);
    assert_eq!(perft(&board, 5), 6112);
}

#[test]
fn shallow_perft_108() {
    let board = Board::from_fen("7k/8/1p6/8/8/P7/8/7K w - - 0 1").unwrap();
    assert_eq!(perft(&board, 1), 4);
    assert_eq!(perft(&board, 2), 16);
    assert_eq!(perft(&board, 3), 101);
    assert_eq!(perft(&board, 4), 637);
    assert_eq!(perft(&board, 5), 4354);
}

#[test]
fn shallow_perft_109() {
    let board = Board::from_fen("k7/7p/8/8/8/8/6P1/K7 w - - 0 1").unwrap();
    assert_eq!(perft(&board, 1), 5);
    assert_eq!(perft(&board, 2), 25);
    assert_eq!(perft(&board, 3), 161);
    assert_eq!(perft(&board, 4), 1035);
    assert_eq!(perft(&board, 5), 7574);
}

#[test]
fn shallow_perft_110() {
    let board = Board::from_fen("k7/6p1/8/8/8/8/7P/K7 w - - 0 1").unwrap();
    assert_eq!(perft(&board, 1), 5);
    assert_eq!(perft(&board, 2), 25);
    assert_eq!(perft(&board, 3), 161);
    assert_eq!(perft(&board, 4), 1035);
    assert_eq!(perft(&board, 5), 7574);
}

#[test]
fn shallow_perft_111() {
    let board = Board::from_fen("3k4/3pp3/8/8/8/8/3PP3/3K4 w - - 0 1").unwrap();
    assert_eq!(perft(&board, 1), 7);
    assert_eq!(perft(&board, 2), 49);
    assert_eq!(perft(&board, 3), 378);
    assert_eq!(perft(&board, 4), 2902);
}

#[test]
fn shallow_perft_112() {
    let board = Board::from_fen("7k/8/8/p7/1P6/8/8/7K b - - 0 1").unwrap();
    assert_eq!(perft(&board, 1), 5);
    assert_eq!(perft(&board, 2), 22);
    assert_eq!(perft(&board, 3), 139);
    assert_eq!(perft(&board, 4), 877);
    assert_eq!(perft(&board, 5), 6112);
}

#[test]
fn shallow_perft_113() {
    let board = Board::from_fen("7k/8/p7/8/8/1P6/8/7K b - - 0 1").unwrap();
    assert_eq!(perft(&board, 1), 4);
    assert_eq!(perft(&board, 2), 16);
    assert_eq!(perft(&board, 3), 101);
    assert_eq!(perft(&board, 4), 637);
    assert_eq!(perft(&board, 5), 4354);
}

#[test]
fn shallow_perft_114() {
    let board = Board::from_fen("7k/8/8/1p6/P7/8/8/7K b - - 0 1").unwrap();
    assert_eq!(perft(&board, 1), 5);
    assert_eq!(perft(&board, 2), 22);
    assert_eq!(perft(&board, 3), 139);
    assert_eq!(perft(&board, 4), 877);
    assert_eq!(perft(&board, 5), 6112);
}

#[test]
fn shallow_perft_115() {
    let board = Board::from_fen("7k/8/1p6/8/8/P7/8/7K b - - 0 1").unwrap();
    assert_eq!(perft(&board, 1), 4);
    assert_eq!(perft(&board, 2), 16);
    assert_eq!(perft(&board, 3), 101);
    assert_eq!(perft(&board, 4), 637);
    assert_eq!(perft(&board, 5), 4354);
}

#[test]
fn shallow_perft_116() {
    let board = Board::from_fen("k7/7p/8/8/8/8/6P1/K7 b - - 0 1").unwrap();
    assert_eq!(perft(&board, 1), 5);
    assert_eq!(perft(&board, 2), 25);
    assert_eq!(perft(&board, 3), 161);
    assert_eq!(perft(&board, 4), 1035);
    assert_eq!(perft(&board, 5), 7574);
}

#[test]
fn shallow_perft_117() {
    let board = Board::from_fen("k7/6p1/8/8/8/8/7P/K7 b - - 0 1").unwrap();
    assert_eq!(perft(&board, 1), 5);
    assert_eq!(perft(&board, 2), 25);
    assert_eq!(perft(&board, 3), 161);
    assert_eq!(perft(&board, 4), 1035);
    assert_eq!(perft(&board, 5), 7574);
}

#[test]
fn shallow_perft_118() {
    let board = Board::from_fen("3k4/3pp3/8/8/8/8/3PP3/3K4 b - - 0 1").unwrap();
    assert_eq!(perft(&board, 1), 7);
    assert_eq!(perft(&board, 2), 49);
    assert_eq!(perft(&board, 3), 378);
    assert_eq!(perft(&board, 4), 2902);
}

#[test]
fn shallow_perft_119() {
    let board = Board::from_fen("8/Pk6/8/8/8/8/6Kp/8 w - - 0 1").unwrap();
    assert_eq!(perft(&board, 1), 11);
    assert_eq!(perft(&board, 2), 97);
    assert_eq!(perft(&board, 3), 887);
    assert_eq!(perft(&board, 4), 8048);
}

#[test]
fn shallow_perft_120() {
    let board = Board::from_fen("n1n5/1Pk5/8/8/8/8/5Kp1/5N1N w - - 0 1").unwrap();
    assert_eq!(perft(&board, 1), 24);
    assert_eq!(perft(&board, 2), 421);
    assert_eq!(perft(&board, 3), 7421);
}

#[test]
fn shallow_perft_121() {
    let board = Board::from_fen("8/PPPk4/8/8/8/8/4Kppp/8 w - - 0 1").unwrap();
    assert_eq!(perft(&board, 1), 18);
    assert_eq!(perft(&board, 2), 270);
    assert_eq!(perft(&board, 3), 4699);
}

#[test]
fn shallow_perft_122() {
    let board = Board::from_fen("n1n5/PPPk4/8/8/8/8/4Kppp/5N1N w - - 0 1").unwrap();
    assert_eq!(perft(&board, 1), 24);
    assert_eq!(perft(&board, 2), 496);
    assert_eq!(perft(&board, 3), 9483);
}

#[test]
fn shallow_perft_123() {
    let board = Board::from_fen("8/Pk6/8/8/8/8/6Kp/8 b - - 0 1").unwrap();
    assert_eq!(perft(&board, 1), 11);
    assert_eq!(perft(&board, 2), 97);
    assert_eq!(perft(&board, 3), 887);
    assert_eq!(perft(&board, 4), 8048);
}

#[test]
fn shallow_perft_124() {
    let board = Board::from_fen("n1n5/1Pk5/8/8/8/8/5Kp1/5N1N b - - 0 1").unwrap();
    assert_eq!(perft(&board, 1), 24);
    assert_eq!(perft(&board, 2), 421);
    assert_eq!(perft(&board, 3), 7421);
}

#[test]
fn shallow_perft_125() {
    let board = Board::from_fen("8/PPPk4/8/8/8/8/4Kppp/8 b - - 0 1").unwrap();
    assert_eq!(perft(&board, 1), 18);
    assert_eq!(perft(&board, 2), 270);
    assert_eq!(perft(&board, 3), 4699);
}

#[test]
fn shallow_perft_126() {
    let board = Board::from_fen("n1n5/PPPk4/8/8/8/8/4Kppp/5N1N b - - 0 1").unwrap();
    assert_eq!(perft(&board, 1), 24);
    assert_eq!(perft(&board, 2), 496);
    assert_eq!(perft(&board, 3), 9483);
}
