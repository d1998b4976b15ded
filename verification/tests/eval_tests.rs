use tabluter::board::State;
use tabluter::eval::evaluate;
use tabluter::weights::Weights;

const LINES: &str = "OOOBBBOOO\nOOBOBOOOO\nOBOOWOOOO\nBOOOWOOOB\nBBWWKWWBB\nBOOOWOOOB\nOOOOWOOOO\nOOOOBOOOO\nOOOBBBOOO\nturn: B";

#[test]
fn weights_for_each_side() {
    let w = Weights::new(true);
    assert_eq!(w.white_piece, -200);
    assert_eq!(w.black_piece, 150);
    assert_eq!(w.white_moves, -5);
    assert_eq!(w.distance_from_unblocked, 4);
    assert_eq!(w.quadrant_advantage, -10);
    assert_eq!(w.encirclement, 150);
    assert_eq!(w.square_formation, 1);
    assert_eq!(w.satisfaction_threshold, 1000000);
    let b = Weights::new(false);
    assert_eq!(b.white_piece, -100);
    assert_eq!(b.ready, 20);
    assert_eq!(b.balance, 5);
    assert_eq!(b.first_line, 400);
    assert_eq!(b.second_line, 600);
    assert_eq!(b.third_line, 800);
    assert_eq!(b.solid_control, 750);
    assert_eq!(b.white_out, -40);
    assert_eq!(b.white_moves, -400);
    assert_eq!(b.square_formation, 0);
}

#[test]
fn opening_evaluation() {
    let s = State::new();
    assert_eq!(evaluate(&s, &Weights::new(true)), -592);
    assert_eq!(evaluate(&s, &Weights::new(false)), 3020);
    let mut b = s;
    b.white_to_move = false;
    assert_eq!(evaluate(&b, &Weights::new(true)), 592);
}

#[test]
fn blocking_lines_count() {
    let s = State::from_position_string(LINES);
    assert_eq!(evaluate(&s, &Weights::new(false)), -2400);
    assert_eq!(evaluate(&s, &Weights::new(true)), 896);
}

#[test]
fn square_formation_clamps() {
    let text = "OOOOOOOOO\nOOOOOOOOO\nOWWOOOOOO\nOKWOOOOOO\nOWWOOOOOO\nOOOOOOOOO\nOOOOOOOOO\nOOOOOOOOO\nOOOOOOOOB\nturn: B";
    let s = State::from_position_string(text);
    let mut w = Weights::new(true);
    w.white_piece = 1000;
    assert_eq!(evaluate(&s, &w), 73);
    w.square_formation = 0;
    assert_eq!(evaluate(&s, &w), 6356);
}

#[test]
fn single_feature_weights() {
    let s = State::new();
    let zero = Weights {
        white_piece: 0,
        black_piece: 0,
        ready: 0,
        balance: 0,
        first_line: 0,
        second_line: 0,
        third_line: 0,
        solid_control: 0,
        black_in: 0,
        white_out: 0,
        white_moves: 0,
        distance_from_unblocked: 0,
        quadrant_advantage: 0,
        encirclement: 0,
        square_formation: 0,
        satisfaction_threshold: 0,
    };
    assert_eq!(evaluate(&s, &zero), 0);
    let mut d = zero;
    d.distance_from_unblocked = 1;
    assert_eq!(evaluate(&s, &d), -8);
    let mut q = zero;
    q.quadrant_advantage = 1;
    assert_eq!(evaluate(&s, &q), 1);
    let mut r = zero;
    r.ready = 1;
    assert_eq!(evaluate(&s, &r), -4);
}

#[test]
fn evaluation_is_zero_sum() {
    for text in [LINES, "OOOOOOOOO\nOOOOKOOOO\nOOOOOOOOO\nOOOOOOOOO\nOOOOOOOOO\nOOOOOOOOO\nOOOOOOOOO\nOOOOOOOBO\nOOOOOOOOO\nturn: W"] {
        let s = State::from_position_string(text);
        let mut t = s;
        t.white_to_move = !s.white_to_move;
        for w in [Weights::new(true), Weights::new(false)] {
            assert_eq!(evaluate(&t, &w), -evaluate(&s, &w));
        }
    }
}

fn only_encirclement() -> Weights {
    let mut w = Weights::new(true);
    w.white_piece = 0;
    w.black_piece = 0;
    w.ready = 0;
    w.balance = 0;
    w.first_line = 0;
    w.second_line = 0;
    w.third_line = 0;
    w.solid_control = 0;
    w.black_in = 0;
    w.white_out = 0;
    w.white_moves = 0;
    w.distance_from_unblocked = 0;
    w.quadrant_advantage = 0;
    w.encirclement = 1;
    w.square_formation = 0;
    w.satisfaction_threshold = 0;
    w
}

#[test]
fn encirclement_counts_only_neighbours_on_the_board() {
    let w = only_encirclement();
    let mut s = State::new();
    s.king = 1 << 9;
    s.white = 1 << 9;
    s.black = 1 << 8;
    s.white_to_move = false;
    assert_eq!(evaluate(&s, &w), 0);
    s.black = (1 << 0) | (1 << 18) | (1 << 10);
    assert_eq!(evaluate(&s, &w), 3);
    s.white_to_move = true;
    assert_eq!(evaluate(&s, &w), -3);
    s.king = 1 << 80;
    s.white = 1 << 80;
    s.black = (1 << 79) | (1 << 71) | (1 << 72);
    s.white_to_move = false;
    assert_eq!(evaluate(&s, &w), 2);
}

#[test]
fn square_formation_stays_within_the_kings_rows() {
    let mut w = only_encirclement();
    w.encirclement = 0;
    w.white_piece = 1000;
    w.square_formation = 1;
    let mut s = State::new();
    s.black = 0;
    s.white_to_move = false;
    s.king = 1 << 35;
    s.white = (1 << 0) | (1 << 35) | (1 << 36) | (1 << 44) | (1 << 45);
    assert_eq!(evaluate(&s, &w), 5000);
    s.king = 1 << 34;
    s.white = (1 << 0) | (1 << 34) | (1 << 35) | (1 << 43) | (1 << 44);
    assert_eq!(evaluate(&s, &w), 75);
}
