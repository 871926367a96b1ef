use yukari::score::{mate_in, uci_score, xboard_score, UciScore};

#[test]
fn xboard_scores() {
    assert_eq!(xboard_score(35), 35);
    assert_eq!(xboard_score(-9499), -9499);
    assert_eq!(xboard_score(9999), 100000);
    assert_eq!(xboard_score(9997), 100001);
    assert_eq!(xboard_score(-9997), -100001);
    assert_eq!(xboard_score(-10001), -100000);
}

#[test]
fn uci_scores() {
    assert_eq!(uci_score(120), UciScore::Centipawns(120));
    assert_eq!(uci_score(9995), UciScore::Mate(5));
    assert_eq!(uci_score(-9995), UciScore::Mate(-19995));
}

#[test]
fn mate_distances() {
    assert_eq!(mate_in(9999), Some((true, 1)));
    assert_eq!(mate_in(9996), Some((true, 2)));
    assert_eq!(mate_in(-9998), Some((false, 1)));
    assert_eq!(mate_in(9499), None);
}
