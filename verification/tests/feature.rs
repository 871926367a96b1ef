use yukari::board::eval::OutputBucket;
use yukari::board::feature::{index_pst, index_threat, mirror};
use yukari::{Piece, Square};

fn square(name: &str) -> Square {
    Square::from_str(name).unwrap()
}

#[test]
fn mirror_flips_for_kings_on_the_right_half() {
    assert_eq!(mirror(square("e1")), 7);
    assert_eq!(mirror(square("h8")), 7);
    assert_eq!(mirror(square("d1")), 0);
    assert_eq!(mirror(square("a5")), 0);
}

#[test]
fn piece_square_features() {
    assert_eq!(index_pst(Piece::Knight, square("b1"), square("e1"), true), 70);
    assert_eq!(index_pst(Piece::Knight, square("b1"), square("d1"), true), 65);
    assert_eq!(index_pst(Piece::Pawn, square("e4"), square("a1"), false), 412);
    assert_eq!(index_pst(Piece::King, square("h8"), square("a1"), false), 767);
}

#[test]
fn pawn_threat_features() {
    assert_eq!(index_threat(Piece::Pawn, square("e2"), square("d3"), square("a1"), true, true), 859);
    assert_eq!(index_threat(Piece::Pawn, square("e2"), square("d3"), square("h1"), true, true), 858);
    assert_eq!(index_threat(Piece::Pawn, square("b7"), square("a6"), square("a1"), true, false), 768 + 70 + 1);
}

#[test]
fn piece_threat_features() {
    assert_eq!(index_threat(Piece::Knight, square("b1"), square("c3"), square("a1"), true, false), 940);
    assert_eq!(index_threat(Piece::Queen, square("a1"), square("h8"), square("a1"), false, false), 12044);
    assert_eq!(index_threat(Piece::King, square("h8"), square("g8"), square("e1"), true, true), 8238);
}

#[test]
fn output_buckets_stop_at_eight() {
    assert_eq!(OutputBucket::new(7).map(|b| b.into_inner()), Some(7));
    assert!(OutputBucket::new(8).is_none());
}
