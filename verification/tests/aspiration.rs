use yukari::aspiration::{Aspiration, WindowVerdict, INITIAL_HALF_WIDTH};

#[test]
fn a_new_window_reaches_fifty_either_side() {
    let w = Aspiration::new(30);
    assert_eq!(INITIAL_HALF_WIDTH, 50);
    assert_eq!(w.window(), (-20, 80));
}

#[test]
fn a_fail_low_doubles_the_reach_below_around_the_new_score() {
    let mut w = Aspiration::new(30);
    assert_eq!(w.step(-20), WindowVerdict::FailLow);
    assert_eq!(w, Aspiration { score: -20, below: 100, above: 50 });
    assert_eq!(w.window(), (-120, 30));
}

#[test]
fn a_fail_high_doubles_the_reach_above() {
    let mut w = Aspiration::new(0);
    assert_eq!(w.step(75), WindowVerdict::FailHigh);
    assert_eq!(w, Aspiration { score: 75, below: 50, above: 100 });
    assert_eq!(w.step(400), WindowVerdict::FailHigh);
    assert_eq!(w.window(), (350, 600));
}

#[test]
fn a_score_inside_the_window_stands() {
    let mut w = Aspiration::new(10);
    assert_eq!(w.step(59), WindowVerdict::Exact);
    assert_eq!(w, Aspiration { score: 59, below: 50, above: 50 });
}
