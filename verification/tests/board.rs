use yukari::board::bitlist::Bitlist;
use yukari::board::pins::PinInfo;
use yukari::square::Direction;
use yukari::search::is_repetition_draw;
use yukari::{Board, Colour, Move, MoveType, Piece, PieceIndex, Square};

fn perft(board: &Board, depth: u32) -> u64 {
    if depth == 0 {
        return 1;
    }
    let mut moves = tinyvec::ArrayVec::new();
    board.generate(&mut moves);
    if depth == 1 {
        return moves.len() as u64;
    }
    let mut count = 0;
    for m in moves {
        count += perft(&board.make(m), depth - 1);
    }
    count
}

fn square(name: &str) -> Square {
    Square::from_str(name).unwrap()
}

#[test]
fn start_position_has_twenty_moves() {
    let board = Board::from_fen("rnbqkbnr/pppppppp/8/8/8/8/PPPPPPPP/RNBQKBNR w KQkq - 0 1").unwrap();
    assert_eq!(perft(&board, 1), 20);
    assert_eq!(perft(&board, 2), 400);
    assert_eq!(perft(&board, 3), 8902);
}

#[test]
fn kiwipete_counts() {
    let board =
        Board::from_fen("r3k2r/p1ppqpb1/bn2pnp1/3PN3/1p2P3/2N2Q1p/PPPBBPPP/R3K2R w KQkq - 0 1").unwrap();
    assert_eq!(perft(&board, 1), 48);
    assert_eq!(perft(&board, 2), 2039);
}

#[test]
fn endgame_counts() {
    let board = Board::from_fen("8/2p5/3p4/KP5r/1R3p1k/8/4P1P1/8 w - - 0 1").unwrap();
    assert_eq!(perft(&board, 1), 14);
    assert_eq!(perft(&board, 2), 191);
    assert_eq!(perft(&board, 3), 2812);
}

#[test]
fn from_fen_reads_the_fields() {
    let board = Board::from_fen("4k3/8/8/3pP3/8/8/8/R3K2R w KQ d6 0 1").unwrap();
    assert_eq!(board.side(), Colour::White);
    assert_eq!(board.castle(), (true, true, false, false));
    assert_eq!(board.ep(), Some(square("d6")));
    assert_eq!(board.piece_from_square(square("e5")), Some(Piece::Pawn));
    assert_eq!(board.piece_from_square(square("a1")), Some(Piece::Rook));
    assert_eq!(board.piece_from_square(square("e4")), None);
}

#[test]
fn from_fen_refuses_a_missing_king() {
    assert!(Board::from_fen("8/8/8/8/8/8/8/4K3 w - - 0 1").is_none());
}

#[test]
fn from_fen_refuses_a_capturable_king() {
    // White to move and the black king stands in check from the rook.
    assert!(Board::from_fen("4k3/8/8/8/8/8/8/K3R3 w - - 0 1").is_none());
}

#[test]
fn from_fen_refuses_a_bad_letter() {
    assert!(Board::from_fen("4k3/8/8/8/8/8/8/4K2X w - - 0 1").is_none());
}

#[test]
fn from_fen_refuses_a_bad_side() {
    assert!(Board::from_fen("4k3/8/8/8/8/8/8/4K3 x - - 0 1").is_none());
}

#[test]
fn from_fen_refuses_seventeen_pieces_of_a_colour() {
    assert!(Board::from_fen("4k3/8/8/8/8/PPPPPPPP/PPPPPPPP/PPPPKPPP w - - 0 1").is_none());
}

#[test]
fn new_board_is_empty() {
    let board = Board::new();
    assert_eq!(board.side(), Colour::White);
    assert_eq!(board.ep(), None);
    assert_eq!(board.castle(), (false, false, false, false));
    for i in 0..64u8 {
        assert_eq!(board.piece_from_square(Square::from_u8_unchecked(i)), None);
    }
}

#[test]
fn illegal_when_the_mover_left_its_king_attacked() {
    let board = Board::from_fen("4k3/8/8/8/8/8/3q4/4K3 w - - 0 1").unwrap();
    assert!(!board.illegal());
    assert!(board.in_check());
    // Stepping next to the queen keeps the king in check.
    let m = Move::new(square("e1"), square("d1"), MoveType::Normal);
    assert!(board.make(m).illegal());
}

#[test]
fn in_check_reports_the_check() {
    let board = Board::from_fen("4k3/8/8/8/8/8/8/R3K3 b - - 0 1").unwrap();
    assert!(!board.in_check());
    let board = Board::from_fen("4k3/8/8/8/8/8/8/4K2R b - - 0 1").unwrap();
    assert!(!board.in_check());
    let board = Board::from_fen("4k3/8/8/8/8/8/8/4RK2 b - - 0 1").unwrap();
    assert!(board.in_check());
}

#[test]
fn make_moves_the_piece_and_passes_the_turn() {
    let board = Board::from_fen("rnbqkbnr/pppppppp/8/8/8/8/PPPPPPPP/RNBQKBNR w KQkq - 0 1").unwrap();
    let child = board.make(Move::new(square("g1"), square("f3"), MoveType::Normal));
    assert_eq!(child.side(), Colour::Black);
    assert_eq!(child.piece_from_square(square("g1")), None);
    assert_eq!(child.piece_from_square(square("f3")), Some(Piece::Knight));
    assert_eq!(child.castle(), (true, true, true, true));
    assert_eq!(child.ep(), None);
}

#[test]
fn double_push_sets_en_passant_only_when_a_pawn_can_take() {
    let board = Board::from_fen("4k3/8/8/8/3p4/8/4P3/4K3 w - - 0 1").unwrap();
    let child = board.make(Move::new(square("e2"), square("e4"), MoveType::DoublePush));
    assert_eq!(child.ep(), Some(square("e3")));
    let board = Board::from_fen("4k3/8/8/8/8/8/4P3/4K3 w - - 0 1").unwrap();
    let child = board.make(Move::new(square("e2"), square("e4"), MoveType::DoublePush));
    assert_eq!(child.ep(), None);
}

#[test]
fn en_passant_removes_the_pawn_behind() {
    let board = Board::from_fen("4k3/8/8/3pP3/8/8/8/4K3 w - d6 0 1").unwrap();
    let child = board.make(Move::new(square("e5"), square("d6"), MoveType::EnPassant));
    assert_eq!(child.piece_from_square(square("d5")), None);
    assert_eq!(child.piece_from_square(square("d6")), Some(Piece::Pawn));
    assert_eq!(child.piece_from_square(square("e5")), None);
}

#[test]
fn castling_moves_king_and_rook_and_drops_rights() {
    let board = Board::from_fen("r3k2r/8/8/8/8/8/8/R3K2R w KQkq - 0 1").unwrap();
    let child = board.make(Move::new(square("e1"), square("g1"), MoveType::KingsideCastle));
    assert_eq!(child.piece_from_square(square("g1")), Some(Piece::King));
    assert_eq!(child.piece_from_square(square("f1")), Some(Piece::Rook));
    assert_eq!(child.piece_from_square(square("h1")), None);
    assert_eq!(child.castle(), (false, false, true, true));
    let child = board.make(Move::new(square("e1"), square("c1"), MoveType::QueensideCastle));
    assert_eq!(child.piece_from_square(square("c1")), Some(Piece::King));
    assert_eq!(child.piece_from_square(square("d1")), Some(Piece::Rook));
    assert_eq!(child.piece_from_square(square("a1")), None);
}

#[test]
fn capturing_a_rook_drops_its_right() {
    let board = Board::from_fen("r3k2r/8/8/8/8/8/8/R3K2R w KQkq - 0 1").unwrap();
    let child = board.make(Move::new(square("a1"), square("a8"), MoveType::Capture));
    assert_eq!(child.castle(), (true, false, true, false));
    assert_eq!(child.piece_from_square(square("a8")), Some(Piece::Rook));
}

#[test]
fn promotion_replaces_the_pawn() {
    let board = Board::from_fen("4k3/1P6/8/8/8/8/8/4K3 w - - 0 1").unwrap();
    let child = board.make(Move::new(square("b7"), square("b8"), MoveType::PromotionKnight));
    assert_eq!(child.piece_from_square(square("b8")), Some(Piece::Knight));
    assert_eq!(child.piece_from_square(square("b7")), None);
}

#[test]
fn make_null_passes_the_turn() {
    let board = Board::from_fen("4k3/8/8/3pP3/8/8/8/4K3 w - d6 0 1").unwrap();
    let child = board.make_null();
    assert_eq!(child.side(), Colour::Black);
    assert_eq!(child.ep(), None);
    assert_eq!(child.piece_from_square(square("e5")), Some(Piece::Pawn));
}

#[test]
fn insufficient_material_cases() {
    assert!(Board::from_fen("4k3/8/8/8/8/8/8/4K3 w - - 0 1").unwrap().insufficient_material());
    assert!(Board::from_fen("4k3/8/8/8/8/8/8/4KN2 w - - 0 1").unwrap().insufficient_material());
    assert!(Board::from_fen("4kb2/8/8/8/8/8/8/4K3 w - - 0 1").unwrap().insufficient_material());
    assert!(!Board::from_fen("4k3/8/8/8/8/8/8/4KR2 w - - 0 1").unwrap().insufficient_material());
    assert!(!Board::from_fen("4k3/8/8/8/8/8/4P3/4K3 w - - 0 1").unwrap().insufficient_material());
}

#[test]
fn captures_are_generated_victim_first() {
    let board = Board::from_fen("4k3/8/8/3q4/4P3/8/5n2/4K3 w - - 0 1").unwrap();
    let mut moves = tinyvec::ArrayVec::new();
    board.generate_captures(&mut moves);
    // The queen is taken first, then the knight (by the king, as it is not defended).
    assert_eq!(moves.len(), 2);
    assert_eq!(moves[0], Move::new(square("e4"), square("d5"), MoveType::Capture));
    assert_eq!(moves[1], Move::new(square("e1"), square("f2"), MoveType::Capture));
}

#[test]
fn captures_come_knight_then_pawn_then_en_passant() {
    let board = Board::from_fen("4k3/8/8/1n1pP3/2Q5/8/8/4K3 w - d6 0 1").unwrap();
    let mut moves = tinyvec::ArrayVec::new();
    board.generate_captures(&mut moves);
    assert_eq!(moves.len(), 3);
    assert_eq!(moves[0], Move::new(square("c4"), square("b5"), MoveType::Capture));
    assert_eq!(moves[1], Move::new(square("c4"), square("d5"), MoveType::Capture));
    assert_eq!(moves[2], Move::new(square("e5"), square("d6"), MoveType::EnPassant));
}

#[test]
fn castling_both_ways_is_listed_when_open() {
    let board = Board::from_fen("r3k2r/8/8/8/8/8/8/R3K2R w KQkq - 0 1").unwrap();
    let mut moves = tinyvec::ArrayVec::new();
    board.generate(&mut moves);
    assert!(moves.contains(&Move::new(square("e1"), square("g1"), MoveType::KingsideCastle)));
    assert!(moves.contains(&Move::new(square("e1"), square("c1"), MoveType::QueensideCastle)));
    assert_eq!(moves.len(), 26);
}

#[test]
fn castling_through_an_attacked_square_is_not_listed() {
    let board = Board::from_fen("4k3/8/8/8/8/8/5r2/R3K2R w KQ - 0 1").unwrap();
    let mut moves = tinyvec::ArrayVec::new();
    board.generate(&mut moves);
    assert!(!moves.iter().any(|m| m.kind() == MoveType::KingsideCastle));
    assert!(moves.contains(&Move::new(square("e1"), square("c1"), MoveType::QueensideCastle)));
}

#[test]
fn quiesce_in_check_keeps_only_captures() {
    let board = Board::from_fen("4k3/8/8/8/8/8/4r3/4K3 w - - 0 1").unwrap();
    let mut moves = tinyvec::ArrayVec::new();
    board.generate_quiesce(&mut moves);
    assert_eq!(moves.len(), 1);
    assert_eq!(moves[0], Move::new(square("e1"), square("e2"), MoveType::Capture));
}

#[test]
fn double_check_allows_only_king_moves() {
    let board = Board::from_fen("4k3/8/8/8/8/3n4/8/R3K2r w - - 0 1").unwrap();
    let mut moves = tinyvec::ArrayVec::new();
    board.generate(&mut moves);
    assert!(moves.iter().all(|m| m.from() == square("e1")));
}

#[test]
fn pinned_piece_moves_only_along_the_pin() {
    let board = Board::from_fen("4k3/4r3/8/8/8/8/4R3/4K3 w - - 0 1").unwrap();
    let mut moves = tinyvec::ArrayVec::new();
    board.generate(&mut moves);
    assert!(moves.iter().filter(|m| m.from() == square("e2")).all(|m| m.dest().into_inner() % 8 == 4));
    assert!(moves.iter().any(|m| m.from() == square("e2")));
}

#[test]
fn repetition_needs_two_earlier_occurrences() {
    assert!(!is_repetition_draw(&[1, 2, 3], 1));
    assert!(is_repetition_draw(&[1, 2, 1], 1));
    assert!(!is_repetition_draw(&[], 1));
}

#[test]
fn move_packs_its_parts() {
    let m = Move::new(square("e2"), square("e4"), MoveType::DoublePush);
    assert_eq!(m.from(), square("e2"));
    assert_eq!(m.dest(), square("e4"));
    assert_eq!(m.kind(), MoveType::DoublePush);
    assert_eq!(m.into_inner(), 12 | (28 << 6) | (1 << 12));
    assert!(!m.is_capture());
    let p = Move::new(square("a7"), square("b8"), MoveType::CapturePromotionQueen);
    assert!(p.is_capture());
    assert!(p.is_promotion());
    assert_eq!(p.promotion_piece(), Some(Piece::Queen));
}

#[test]
fn default_move_is_all_ones() {
    assert_eq!(Move::default().into_inner(), 0xFFFF);
}

#[test]
fn square_parsing() {
    assert_eq!(square("a1").into_inner(), 0);
    assert_eq!(square("h8").into_inner(), 63);
    assert_eq!(square("e4").into_inner(), 28);
    assert!(Square::from_str("i1").is_err());
    assert!(Square::from_str("a9").is_err());
}

#[test]
fn bitlist_operations() {
    let a = Bitlist::from_u32(0b1011);
    assert_eq!(a.count_ones(), 3);
    assert_eq!(a.peek(), Some(PieceIndex::new_unchecked(0)));
    let mut b = a;
    assert_eq!(b.pop(), Some(PieceIndex::new_unchecked(0)));
    assert_eq!(b.into_inner(), 0b1010);
    assert!(Bitlist::new().empty());
    assert_eq!(a.and(Bitlist::from_u32(0b0010)).into_inner(), 0b0010);
    assert_eq!(a.or(Bitlist::from_u32(0b0100)).into_inner(), 0b1111);
    assert_eq!(Bitlist::white().into_inner(), 0x0000_FFFF);
    assert_eq!(Bitlist::black().into_inner(), 0xFFFF_0000);
}

#[test]
fn san_of_simple_moves() {
    let board = Board::from_fen("rnbqkbnr/pppppppp/8/8/8/8/PPPPPPPP/RNBQKBNR w KQkq - 0 1").unwrap();
    assert_eq!(board.to_san(Move::new(square("g1"), square("f3"), MoveType::Normal)), "Nf3");
    assert_eq!(board.to_san(Move::new(square("e2"), square("e4"), MoveType::DoublePush)), "e4");
}

#[test]
fn san_of_castling_capture_promotion_and_mate() {
    let board = Board::from_fen("r3k2r/8/8/8/8/8/8/R3K2R w KQkq - 0 1").unwrap();
    assert_eq!(board.to_san(Move::new(square("e1"), square("g1"), MoveType::KingsideCastle)), "O-O");
    assert_eq!(board.to_san(Move::new(square("e1"), square("c1"), MoveType::QueensideCastle)), "O-O-O");
    assert_eq!(board.to_san(Move::new(square("a1"), square("a8"), MoveType::Capture)), "Rxa8+");
    let board = Board::from_fen("4k3/8/8/3p4/4P3/8/8/4K3 w - - 0 1").unwrap();
    assert_eq!(board.to_san(Move::new(square("e4"), square("d5"), MoveType::Capture)), "exd5");
    let board = Board::from_fen("7k/1P6/8/8/8/8/8/4K3 w - - 0 1").unwrap();
    assert_eq!(board.to_san(Move::new(square("b7"), square("b8"), MoveType::PromotionQueen)), "b8=Q+");
    let board = Board::from_fen("6k1/5ppp/8/8/8/8/8/R3K3 w - - 0 1").unwrap();
    assert_eq!(board.to_san(Move::new(square("a1"), square("a8"), MoveType::Normal)), "Ra8#");
}

#[test]
fn san_disambiguates_by_file() {
    let board = Board::from_fen("4k3/8/8/8/8/8/4K3/R6R w - - 0 1").unwrap();
    assert_eq!(board.to_san(Move::new(square("a1"), square("d1"), MoveType::Normal)), "Rad1");
}

#[test]
fn pv_to_san_writes_one_word_per_move() {
    let board = Board::from_fen("rnbqkbnr/pppppppp/8/8/8/8/PPPPPPPP/RNBQKBNR w KQkq - 0 1").unwrap();
    let pv = [
        Move::new(square("e2"), square("e4"), MoveType::DoublePush),
        Move::new(square("e7"), square("e5"), MoveType::DoublePush),
    ];
    let s = board.pv_to_san(&pv);
    assert_eq!(s.matches(' ').count(), 2);
    assert!(s.contains("e4"));
    assert!(s.contains("e5"));
}

#[test]
fn see_of_an_undefended_capture_is_the_victim() {
    let board = Board::from_fen("4k3/8/8/3r4/8/8/8/3RK3 w - - 0 1").unwrap();
    assert_eq!(board.static_exchange_evaluation(Move::new(square("d1"), square("d5"), MoveType::Capture)), 5);
}

#[test]
fn startpos_matches_its_fen() {
    let built = Board::startpos();
    let parsed = Board::from_fen("rnbqkbnr/pppppppp/8/8/8/8/PPPPPPPP/RNBQKBNR w KQkq - 0 1").unwrap();
    for sq in 0..64u8 {
        let s = Square::from_u8_unchecked(sq);
        assert_eq!(built.piece_from_square(s), parsed.piece_from_square(s));
        assert_eq!(built.data().piece_index(s), parsed.data().piece_index(s));
    }
    assert_eq!(built.side(), Colour::White);
    assert_eq!(built.castle(), (true, true, true, true));
    assert_eq!(built.ep(), None);
    let mut a = tinyvec::ArrayVec::new();
    let mut b = tinyvec::ArrayVec::new();
    built.generate(&mut a);
    parsed.generate(&mut b);
    assert_eq!(a.as_slice(), b.as_slice());
    assert_eq!(perft(&built, 3), 8902);
}

#[test]
fn fen_readable_tells_which_records_parse_to_the_end() {
    assert!(Board::fen_readable(b"rnbqkbnr/pppppppp/8/8/8/8/PPPPPPPP/RNBQKBNR w KQkq - 0 1"));
    assert!(Board::fen_readable(b"4k3/8/8/8/8/8/8/4K3 b - e3 0 1"));
    // A bad piece letter is refused, not unreadable.
    assert!(Board::fen_readable(b"x7/8/8/8/8/8/8/8 w - - 0 1"));
    assert!(Board::fen_readable(b"4k3/8/8/8/8/8/8/4K3 x - - 0 1"));
    assert!(!Board::fen_readable(b"8/8/8"));
    assert!(!Board::fen_readable(b""));
    assert!(!Board::fen_readable(b"4k3/8/8/8/8/8/8/4K3 w KQ"));
    assert!(!Board::fen_readable(b"4k3/8/8/8/8/8/8/4K3 w - e9 0 1"));
    assert!(!Board::fen_readable(b"4k3/8/8/8/8/8/8/4K3 w - i3 0 1"));
}

#[test]
fn can_generate_wants_a_king_and_room_to_castle() {
    let board = Board::startpos();
    assert!(board.can_generate());
    let cornered = Board::from_fen("4k3/8/8/8/8/8/8/7K w K - 0 1").unwrap();
    assert!(!cornered.can_generate());
    let fine = Board::from_fen("4k3/8/8/8/8/8/8/4K2R w K - 0 1").unwrap();
    assert!(fine.can_generate());
}

#[test]
fn can_make_checks_the_squares() {
    let board = Board::startpos();
    assert!(board.can_make(Move::new(square("e2"), square("e4"), MoveType::DoublePush)));
    assert!(!board.can_make(Move::new(square("e7"), square("e5"), MoveType::DoublePush)));
    assert!(!board.can_make(Move::new(square("e2"), square("e3"), MoveType::Capture)));
    assert!(!board.can_make(Move::new(square("d1"), square("d2"), MoveType::Normal)));
    assert!(!board.can_make(Move::new(square("e1"), square("g1"), MoveType::KingsideCastle)));
    let castle = Board::from_fen("4k3/8/8/8/8/8/8/4K2R w K - 0 1").unwrap();
    assert!(castle.can_make(Move::new(square("e1"), square("g1"), MoveType::KingsideCastle)));
}

#[test]
fn pv_valid_follows_the_line() {
    let board = Board::startpos();
    let e4 = Move::new(square("e2"), square("e4"), MoveType::DoublePush);
    let e5 = Move::new(square("e7"), square("e5"), MoveType::DoublePush);
    assert!(board.can_san(e4));
    assert!(!board.can_san(e5));
    assert!(board.pv_valid(&[e4, e5]));
    assert!(!board.pv_valid(&[e5]));
    assert!(!board.pv_valid(&[e4, e4]));
    assert!(board.pv_valid(&[]));
}

#[test]
fn material_counts_pawns_and_pieces() {
    assert_eq!(Board::startpos().material(), 78);
    let board = Board::from_fen("4k3/8/8/8/8/8/8/4K2R w K - 0 1").unwrap();
    assert_eq!(board.material(), 5);
}

#[test]
fn moves_in_coordinate_notation() {
    assert_eq!(Move::new(square("e2"), square("e4"), MoveType::DoublePush).to_text(), "e2e4");
    assert_eq!(Move::new(square("b7"), square("a8"), MoveType::CapturePromotionKnight).to_text(), "b7a8n");
    assert_eq!(Move::new(square("h2"), square("h1"), MoveType::PromotionQueen).to_text(), "h2h1q");
}

#[test]
fn discover_finds_pins_and_en_passant_pins() {
    let board = Board::from_fen("4k3/4r3/8/8/8/8/4N3/4K3 w - - 0 1").unwrap();
    let info = PinInfo::discover(&board);
    let knight = board.data().piece_index(square("e2")).unwrap();
    assert_eq!(info.pins[knight.into_inner() as usize], Some(Direction::South));
    assert_eq!(info.pins.iter().filter(|p| p.is_some()).count(), 1);
    assert!(info.enpassant_pinned.empty());

    // Two pieces between: no pin.
    let board = Board::from_fen("4k3/4r3/8/8/4B3/8/4N3/4K3 w - - 0 1").unwrap();
    let info = PinInfo::discover(&board);
    assert!(info.pins.iter().all(|p| p.is_none()));

    // A white and a black pawn between a rook and the king on a rank.
    let board = Board::from_fen("8/8/8/KPp4r/8/8/8/4k3 w - c6 0 1").unwrap();
    let info = PinInfo::discover(&board);
    let pawn = board.data().piece_index(square("b5")).unwrap();
    assert!(info.enpassant_pinned.contains(Bitlist::from_piece(pawn)));
    assert!(info.pins.iter().all(|p| p.is_none()));
}

fn king_stays_safe(fen: &str) -> usize {
    let board = Board::from_fen(fen).unwrap();
    let mut moves = tinyvec::ArrayVec::new();
    board.generate(&mut moves);
    let mut checked = 0;
    for m in moves {
        let kind = m.kind();
        if kind == MoveType::EnPassant || kind == MoveType::KingsideCastle || kind == MoveType::QueensideCastle {
            continue;
        }
        assert!(!board.make(m).illegal(), "{} leaves the king attacked after {:?}", fen, m);
        checked += 1;
    }
    checked
}

#[test]
fn generated_moves_leave_the_king_safe() {
    assert!(king_stays_safe("r3k2r/p1ppqpb1/bn2pnp1/3PN3/1p2P3/2N2Q1p/PPPBBPPP/R3K2R w KQkq - 0 1") > 40);
    assert!(king_stays_safe("4k3/4r3/8/8/1b6/8/3N4/4K3 w - - 0 1") > 0);
    assert!(king_stays_safe("8/2p5/3p4/KP5r/1R3p1k/8/4P1P1/8 w - - 0 1") > 0);
}

#[test]
fn moves_out_of_check_leave_the_king_safe() {
    // A single check by a rook that can be blocked, taken, or stepped away from.
    assert!(king_stays_safe("4k3/8/8/8/4r3/8/2B5/R3K3 w - - 0 1") > 0);
    // A knight check.
    assert!(king_stays_safe("4k3/8/8/8/8/3n4/8/R3K3 w - - 0 1") > 0);
    // A double check: only the king moves, and not along the rook's line.
    assert!(king_stays_safe("4k3/8/8/8/8/3n4/8/R3K2r w - - 0 1") > 0);
}

fn assert_distinct(fen: &str) {
    let board = Board::from_fen(fen).unwrap();
    let mut moves = tinyvec::ArrayVec::new();
    board.generate(&mut moves);
    for i in 0..moves.len() {
        for j in i + 1..moves.len() {
            assert_ne!(moves[i], moves[j], "{fen}");
        }
    }
}

#[test]
fn generated_moves_come_once_each() {
    assert_distinct("r3k2r/p1ppqpb1/bn2pnp1/3PN3/1p2P3/2N2Q1p/PPPBBPPP/R3K2R w KQkq - 0 1");
    assert_distinct("r3k2r/Pppp1ppp/1b3nbN/nP6/BBP1P3/q4N2/Pp1P2PP/R2Q1RK1 w kq - 0 1");
    assert_distinct("4k3/8/8/8/8/8/4r3/4K3 w - - 0 1");
    assert_distinct("4k3/8/8/8/8/3n4/8/R3K2r w - - 0 1");
    assert_distinct("n1n5/PPPk4/8/8/8/8/4Kppp/5N1N b - - 0 1");
}

#[test]
fn en_passant_is_listed_when_it_keeps_the_king_safe() {
    let board = Board::from_fen("4k3/8/8/3pP3/8/8/8/4K3 w - d6 0 1").unwrap();
    let mut moves = tinyvec::ArrayVec::new();
    board.generate(&mut moves);
    assert!(moves.contains(&Move::new(square("e5"), square("d6"), MoveType::EnPassant)));
}

#[test]
fn en_passant_that_opens_the_rank_to_the_king_is_not_listed() {
    let board = Board::from_fen("4k3/8/8/K2pP2r/8/8/8/8 w - d6 0 1").unwrap();
    let mut moves = tinyvec::ArrayVec::new();
    board.generate(&mut moves);
    assert!(!moves.iter().any(|m| m.kind() == MoveType::EnPassant));
}
