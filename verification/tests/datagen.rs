use yukari::datagen::{
    opening_accepted, repetitions, white_relative, Adjudication, MarlinFormat, MarlinWdl, ViriFormat,
};
use yukari::{Board, Colour, Move, MoveType, Square};

fn square(name: &str) -> Square {
    Square::from_str(name).unwrap()
}

fn startpos() -> Board {
    Board::from_fen("rnbqkbnr/pppppppp/8/8/8/8/PPPPPPPP/RNBQKBNR w KQkq - 0 1").unwrap()
}

const STARTPOS_RECORD: [u8; 32] = [
    0xFF, 0xFF, 0x00, 0x00, 0x00, 0x00, 0xFF, 0xFF, // occupancy
    0x16, 0x42, 0x25, 0x61, 0x00, 0x00, 0x00, 0x00, // white pieces, rooks keeping their rights as 6
    0x88, 0x88, 0x88, 0x88, 0x9E, 0xCA, 0xAD, 0xE9, // black pieces
    0x40, 0x00, // white to move, no en-passant square
    0x00, 0x00, // fullmove number
    0x00, 0x00, // evaluation
    0x01, 0x00, // draw, extra byte
];

#[test]
fn marlinformat_of_the_start_position() {
    let record = MarlinFormat::from_board(&startpos());
    assert_eq!(record.occupancy, 0xFFFF_0000_0000_FFFF);
    assert_eq!(record.stm_ep_square, 64);
    assert!(record.wdl == MarlinWdl::Draw);
    let mut buf = Vec::new();
    record.write(&mut buf);
    assert_eq!(buf, STARTPOS_RECORD.to_vec());
}

#[test]
fn marlinformat_rooks_without_rights_keep_their_code() {
    let board = Board::from_fen("r3k2r/8/8/8/8/8/8/R3K2R w - - 0 1").unwrap();
    let record = MarlinFormat::from_board(&board);
    let mut buf = vec![0xAA];
    record.write(&mut buf);
    let mut expected = vec![0xAA, 0x91, 0, 0, 0, 0, 0, 0, 0x91, 0x53, 0xB3, 0xBD];
    expected.extend_from_slice(&[0; 13]);
    expected.extend_from_slice(&[0x40, 0, 0, 0, 0, 0, 1, 0]);
    assert_eq!(buf, expected);
}

#[test]
fn marlinformat_black_to_move_with_en_passant() {
    let board = Board::from_fen("4k3/8/8/8/3Pp3/8/8/4K3 b - d3 0 1").unwrap();
    let record = MarlinFormat::from_board(&board);
    assert_eq!(record.stm_ep_square, 128 + 19);
}

#[test]
fn viriformat_move_encoding() {
    let mut game = ViriFormat::new(&startpos());
    game.push(Move::new(square("e2"), square("e4"), MoveType::DoublePush), 0);
    let mut expected = STARTPOS_RECORD.to_vec();
    expected[30] = 2;
    expected.extend_from_slice(&[0x0C, 0x07, 0, 0, 0, 0, 0, 0]);
    assert_eq!(game.finish(MarlinWdl::WhiteWin), expected);

    let mut game = ViriFormat::new(&startpos());
    game.push(Move::new(square("b7"), square("b8"), MoveType::PromotionQueen), 1);
    game.push(Move::new(square("e1"), square("g1"), MoveType::KingsideCastle), 2);
    game.push(Move::new(square("e5"), square("d6"), MoveType::EnPassant), 3);
    game.push(Move::new(square("a7"), square("b8"), MoveType::CapturePromotionKnight), 4);
    let bytes = game.finish(MarlinWdl::Draw);
    assert_eq!(
        bytes[32..],
        [0x71, 0xFE, 1, 0, 0x84, 0x81, 2, 0, 0xE4, 0x4A, 3, 0, 0x70, 0xCE, 4, 0, 0, 0, 0, 0]
    );
}

#[test]
fn viriformat_game_stream() {
    let mut game = ViriFormat::new(&startpos());
    game.push(Move::new(square("e2"), square("e4"), MoveType::DoublePush), 25);
    game.push(Move::new(square("e7"), square("e5"), MoveType::DoublePush), -30);
    let bytes = game.finish(MarlinWdl::BlackWin);
    let mut expected = STARTPOS_RECORD.to_vec();
    expected[30] = 0;
    expected.extend_from_slice(&[0x0C, 0x07, 25, 0, 0x34, 0x09, 0xE2, 0xFF, 0, 0, 0, 0]);
    assert_eq!(bytes, expected);
}

#[test]
fn viriformat_empty_game_is_header_and_sentinel() {
    let game = ViriFormat::new(&startpos());
    let bytes = game.finish(MarlinWdl::Draw);
    let mut expected = STARTPOS_RECORD.to_vec();
    expected.extend_from_slice(&[0, 0, 0, 0]);
    assert_eq!(bytes, expected);
}

#[test]
fn adjudication_of_game_ends() {
    let state = Adjudication::new();
    assert!(state.verdict(true, true, Colour::White, false, 0, 0) == Some(MarlinWdl::BlackWin));
    assert!(state.verdict(true, true, Colour::Black, false, 0, 0) == Some(MarlinWdl::WhiteWin));
    assert!(state.verdict(true, false, Colour::White, false, 0, 0) == Some(MarlinWdl::Draw));
    assert!(state.verdict(false, false, Colour::White, true, 0, 0) == Some(MarlinWdl::Draw));
    assert!(state.verdict(false, false, Colour::White, false, 3, 0) == Some(MarlinWdl::Draw));
    assert!(state.verdict(false, false, Colour::White, false, 2, 100) == Some(MarlinWdl::Draw));
    assert!(state.verdict(false, true, Colour::White, false, 2, 99) == None);
}

#[test]
fn adjudication_of_a_winning_run() {
    let mut state = Adjudication::new();
    for _ in 0..5 {
        state.record(450);
    }
    assert!(state.verdict(false, false, Colour::White, false, 0, 0) == None);
    // A sign flip restarts the run on the other side.
    state.record(-500);
    assert_eq!(state.win_adj_counter, 1);
    assert!(!state.win_adj_white);
    for _ in 0..5 {
        state.record(-400);
    }
    assert!(state.verdict(false, false, Colour::White, false, 0, 0) == Some(MarlinWdl::BlackWin));
    state.record(399);
    assert_eq!(state.win_adj_counter, 0);
    assert_eq!(state.positions, 12);
}

#[test]
fn adjudication_of_a_drawish_run() {
    let mut state = Adjudication::new();
    for _ in 0..39 {
        state.record(10);
    }
    assert!(state.verdict(false, false, Colour::White, false, 0, 0) == None);
    state.record(-10);
    assert!(state.verdict(false, false, Colour::White, false, 0, 0) == Some(MarlinWdl::Draw));
    state.record(11);
    assert_eq!(state.draw_adj_counter, 0);
    assert!(state.verdict(false, false, Colour::White, false, 0, 0) == None);
}

#[test]
fn opening_verdicts_and_scores() {
    assert!(opening_accepted(999));
    assert!(opening_accepted(-999));
    assert!(!opening_accepted(1000));
    assert!(!opening_accepted(-1000));
    assert_eq!(white_relative(35, Colour::Black), -35);
    assert_eq!(white_relative(35, Colour::White), 35);
}

#[test]
fn repetitions_stop_counting_at_three() {
    assert_eq!(repetitions(&[1, 2, 1, 3], 1), 2);
    assert_eq!(repetitions(&[1, 1, 1, 1, 1], 1), 3);
    assert_eq!(repetitions(&[], 7), 0);
}

#[test]
fn viriformat_takes_four_bytes_a_move() {
    let mut game = ViriFormat::new(&startpos());
    game.push(Move::new(square("g1"), square("f3"), MoveType::Normal), 10);
    game.push(Move::new(square("g8"), square("f6"), MoveType::Normal), -10);
    game.push(Move::new(square("b1"), square("c3"), MoveType::Normal), 12);
    let bytes = game.finish(MarlinWdl::Draw);
    assert_eq!(bytes.len(), 32 + 4 * 3 + 4);
    assert_eq!(&bytes[bytes.len() - 4..], &[0, 0, 0, 0]);
}
