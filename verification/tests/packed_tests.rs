use tabluter::board::State;
use tabluter::packed::Packed;

#[test]
fn opening_position_packs() {
    let p = State::new().to_u256();
    assert_eq!(p, Packed { lo: 149455397314562577207000314211716825088, hi: 5568157712448 });
}

#[test]
fn packing_round_trip() {
    let s = State::new();
    let t = State::from_u256(s.to_u256());
    assert_eq!((t.white, t.black, t.king, t.white_to_move), (s.white, s.black, s.king, s.white_to_move));
    assert_eq!(t.hash, s.hash);
    assert!(!t.win && !t.draw);
}

#[test]
fn unpacking_reads_each_field() {
    let s = State::from_u256(Packed { lo: 16924961474604808445886469, hi: 858993459200 });
    assert_eq!((s.white, s.black, s.king), (5, 7, 1 << 21));
    assert!(!s.white_to_move);
    assert_eq!(s.king_position(), (2, 3));
}

#[test]
fn unpacking_ignores_high_bits() {
    let a = State::from_u256(Packed { lo: 16924961474604808445886469, hi: 858993459200 });
    let b = State::from_u256(Packed { lo: 16924961474604808445886469, hi: 4722366492524731695104 });
    assert_eq!((a.white, a.black, a.king, a.white_to_move), (b.white, b.black, b.king, b.white_to_move));
    let c = State::from_u256(Packed { lo: 5, hi: 1 << 42 });
    assert!(c.white_to_move);
    assert_eq!((c.white, c.black, c.king), (5, 0, 1));
}

#[test]
fn king_square_of_packed_positions() {
    use_square(Packed { lo: 16924961474604808445886469, hi: 858993459200 }, 21);
    use_square(Packed { lo: 0, hi: (15 << 34) | (15 << 38) }, 150);
    use_square(State::new().to_u256(), 40);
}

fn use_square(p: Packed, k: u8) {
    assert_eq!(tabluter::packed::packed_king_square(&p), k);
}
