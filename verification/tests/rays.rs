use yukari::board::index::{PieceIndex, PieceIndexRays, RayMask};
use yukari::board::piecemask::Piecemask;
use yukari::{Colour, Piece};

#[test]
fn nearest_keeps_knight_squares_and_the_first_piece_of_each_ray() {
    // Ray 0: knight square, hops 2 and 5. Ray 1: nothing. Ray 2: only hop 7.
    let m = RayMask(0b0010_0101 | (0b1000_0000 << 16));
    let n = m.nearest();
    assert!(n.nth(0));
    assert!(n.nth(2));
    assert!(!n.nth(5));
    assert!(n.nth(23));
    let reach = m.mask_to_nearest();
    assert_eq!(reach.0 & 0xff, 0b0000_0111);
    assert_eq!((reach.0 >> 8) & 0xff, 0xff);
    assert_eq!((reach.0 >> 16) & 0xff, 0xff);
}

#[test]
fn ray_broadcast_spreads_the_first_piece() {
    let a = PieceIndex::new_unchecked(3);
    let b = PieceIndex::new_unchecked(20);
    let k = PieceIndex::new_unchecked(7);
    let mut rays = PieceIndexRays([None; 64]);
    rays.0[8] = Some(k);
    rays.0[11] = Some(a);
    rays.0[13] = Some(b);
    rays.ray_broadcast();
    assert_eq!(rays.0[8], Some(k));
    for hop in 1..8 {
        assert_eq!(rays.0[8 + hop], Some(a));
        assert_eq!(rays.0[hop], None);
    }
    rays.rotate_180();
    assert_eq!(rays.0[40], Some(k));
    assert_eq!(rays.0[41], Some(a));
    assert_eq!(rays.0[9], None);
}

#[test]
fn ray_masks_follow_the_pieces() {
    let mut pm = Piecemask::new();
    let rook = pm.add_piece(Piece::Rook, Colour::Black);
    let bishop = pm.add_piece(Piece::Bishop, Colour::White);
    let pawn = pm.add_piece(Piece::Pawn, Colour::Black);
    let knight = pm.add_piece(Piece::Knight, Colour::White);
    let mut rays = PieceIndexRays([None; 64]);
    rays.0[3] = Some(rook); // north, three squares away
    rays.0[12] = Some(bishop); // north-east, four squares away
    rays.0[9] = Some(pawn); // north-east, next to the centre
    rays.0[16] = Some(knight); // knight square of the east ray
    rays.0[18] = Some(bishop); // a bishop on a straight ray does not attack
    let attackers = rays.attackers(&pm);
    assert!(attackers.nth(3));
    assert!(attackers.nth(12));
    assert!(attackers.nth(9));
    assert!(attackers.nth(16));
    assert!(!attackers.nth(18));
    let sliders = rays.sliders(&pm);
    assert!(sliders.nth(3));
    assert!(sliders.nth(12));
    assert!(!sliders.nth(9));
    assert!(!sliders.nth(16));
    let occupied = rays.occupied();
    assert_eq!(occupied.0, (1 << 3) | (1 << 12) | (1 << 9) | (1 << 16) | (1 << 18));
    let black = rays.pieces_of_colour(Colour::Black);
    assert_eq!(black.0, (1 << 3) | (1 << 9));
    let pieces = rays.to_piece_rays(&pm);
    assert_eq!(pieces.0[3], Some(Piece::Rook));
    assert_eq!(pieces.0[0], None);
    rays.mask(black);
    assert_eq!(rays.0[3], Some(rook));
    assert_eq!(rays.0[12], None);
}
