use tabluter::board::{Move, State, CITADELS, THRONE};

const OPENING: &str = "OOOBBBOOO\nOOOOBOOOO\nOOOOWOOOO\nBOOOWOOOB\nBBWWKWWBB\nBOOOWOOOB\nOOOOWOOOO\nOOOOBOOOO\nOOOBBBOOO\nturn: W";

const CAPTURE: &str = "OOOOOOOOO\nOOOOOOOOO\nOOOOOOOOO\nOOOOOOOOO\nOOOOKOOOO\nOOOOOOOOO\nOBWOOOOOO\nOOOOOOOOO\nOOOBOOOOO\nturn: B";

const ESCAPE: &str = "OOOOOOOOO\nOOOOKOOOO\nOOOOOOOOO\nOOOOOOOOO\nOOOOOOOOO\nOOOOOOOOO\nOOOOOOOOO\nOOOOOOOBO\nOOOOOOOOO\nturn: W";

fn moves_of(s: &State) -> Vec<Move> {
    let mut v = Vec::new();
    s.generate_moves(&mut v);
    v
}

fn find(moves: &[Move], fr: u8, fc: u8, tr: u8, tc: u8) -> Move {
    *moves
        .iter()
        .find(|m| m.fr == fr && m.fc == fc && m.tr == tr && m.tc == tc)
        .expect("move exists")
}

#[test]
fn opening_matches_its_text() {
    let a = State::new();
    let b = State::from_position_string(OPENING);
    assert_eq!(a.white, b.white);
    assert_eq!(a.black, b.black);
    assert_eq!(a.king, b.king);
    assert_eq!(a.white_to_move, b.white_to_move);
    assert_eq!(a.hash, b.hash);
    assert_eq!(a.black, CITADELS);
    assert_eq!(a.king, THRONE);
    assert_eq!(a.white.count_ones(), 9);
}

#[test]
fn text_round_trip() {
    let s = State::from_position_string(OPENING);
    assert_eq!(s.to_position_string(), OPENING);
    let c = State::from_position_string(CAPTURE);
    assert_eq!(c.to_position_string(), CAPTURE);
    assert!(!c.white_to_move);
    let e = State::from_position_string(ESCAPE);
    assert_eq!(e.to_position_string(), ESCAPE);
    let kingless = "OOOOOOOOO\nOOOOOOOOO\nOOOOOOOOO\nOOOOOOOOO\nOOOOWOOOO\nOOOOOOOOO\nOOOOOOOOO\nOOOOOOOOO\nOOBOOOOOO\nturn: B";
    let k = State::from_position_string(kingless);
    assert_eq!(k.to_position_string(), kingless);
}

#[test]
fn parse_handles_crlf_and_missing_turn() {
    let crlf = OPENING.replace('\n', "\r\n");
    let s = State::from_position_string(&crlf);
    assert_eq!(s.white, State::new().white);
    assert!(s.white_to_move);
    let no_turn: String = OPENING.lines().take(9).collect::<Vec<_>>().join("\n");
    let t = State::from_position_string(&no_turn);
    assert!(!t.white_to_move);
    assert_eq!(t.black, CITADELS);
}

#[test]
fn last_king_wins_when_two_are_drawn() {
    let text = "KOOOOOOOO\nOOOOOOOOO\nOOOOOOOOO\nOOOOOOOOO\nOOOOOOOOO\nOOOOOOOOO\nOOOOOOOOO\nOOOOOOOOO\nOOOOOOOOK\nturn: B";
    let s = State::from_position_string(text);
    assert_eq!(s.king, 1u128 << 80);
    assert_eq!(s.white, 1u128 | (1u128 << 80));
}

#[test]
fn opening_move_counts() {
    let s = State::new();
    let moves = moves_of(&s);
    assert_eq!(moves.len(), 56);
    let first: Vec<(u8, u8, u8, u8)> = moves.iter().take(6).map(|m| (m.fr, m.fc, m.tr, m.tc)).collect();
    assert_eq!(first, vec![(2, 4, 2, 5), (2, 4, 2, 6), (2, 4, 2, 7), (2, 4, 2, 8), (2, 4, 2, 3), (2, 4, 2, 2)]);
    let mut b = s;
    b.white_to_move = false;
    let bm = moves_of(&b);
    assert_eq!(bm.len(), 80);
    let first: Vec<(u8, u8, u8, u8)> = bm.iter().take(4).map(|m| (m.fr, m.fc, m.tr, m.tc)).collect();
    assert_eq!(first, vec![(0, 3, 1, 3), (0, 3, 2, 3), (0, 3, 3, 3), (0, 3, 0, 2)]);
}

#[test]
fn generate_moves_appends() {
    let s = State::new();
    let mut v = vec![Move { fr: 9, fc: 9, tr: 9, tc: 9, captured: 7 }];
    s.generate_moves(&mut v);
    assert_eq!(v.len(), 57);
    assert_eq!(v[0].captured, 7);
}

#[test]
fn pawn_capture() {
    let s = State::from_position_string(CAPTURE);
    let moves = moves_of(&s);
    assert_eq!(moves.len(), 19);
    let capturing: Vec<&Move> = moves.iter().filter(|m| m.captured != 0).collect();
    assert_eq!(capturing.len(), 1);
    let m = *capturing[0];
    assert_eq!((m.fr, m.fc, m.tr, m.tc), (8, 3, 6, 3));
    assert_eq!(m.captured, 1u128 << 56);
    let mut after = s;
    after.apply_move(&m, &Vec::new());
    let expected = "OOOOOOOOO\nOOOOOOOOO\nOOOOOOOOO\nOOOOOOOOO\nOOOOKOOOO\nOOOOOOOOO\nOBOBOOOOO\nOOOOOOOOO\nOOOOOOOOO\nturn: W";
    assert_eq!(after.to_position_string(), expected);
    assert!(!after.win);
    assert!(!after.draw);
}

#[test]
fn king_on_throne_needs_four_attackers() {
    let three = "OOOOOOOOO\nOOOOOOOOO\nOOOOOOOOO\nOOOOBOOOO\nOOOBKOOOO\nOOOOBOOOO\nOOOOOOOOO\nOOOOOOOOO\nOOOOOBOOO\nturn: B";
    let s = State::from_position_string(three);
    let moves = moves_of(&s);
    let m = find(&moves, 8, 5, 4, 5);
    assert_eq!(m.captured, 1u128 << 40);
    let mut after = s;
    after.apply_move(&m, &Vec::new());
    assert_eq!(after.king, 0);
    assert!(after.win);
    assert_eq!(after.to_position_string(), "BLACK HAS WON THE GAME");
    let side = "OOOOOOOOO\nOOOOOOOOO\nOOOOOOOOO\nOOOOOOOOO\nOOOOOOOOO\nOOOOOOOOO\nOOOOOOOOO\nOOOOKOOOO\nOOOOBBOOO\nturn: B";
    let t = State::from_position_string(side);
    let tm = moves_of(&t);
    assert!(tm.iter().all(|m| m.captured == 0));
}

#[test]
fn king_next_to_throne_is_captured_against_it() {
    let text = "OOOOOOOOO\nOOOOOOOOO\nOOOOBOOOO\nOOOBKOOOO\nOOOOOOOOO\nOOOOOOOOO\nOOOOOOOOO\nOOOOOOOOO\nOOOOOBOOO\nturn: B";
    let s = State::from_position_string(text);
    let moves = moves_of(&s);
    let m = find(&moves, 8, 5, 3, 5);
    assert_eq!(m.captured, 1u128 << 31);
}

#[test]
fn king_escape_wins() {
    let s = State::from_position_string(ESCAPE);
    let moves = moves_of(&s);
    assert_eq!(moves.len(), 11);
    let m = find(&moves, 1, 4, 0, 4);
    let mut after = s;
    after.apply_move(&m, &Vec::new());
    assert!(after.win);
    assert!(!after.white_to_move);
    assert_eq!(after.to_position_string(), "WHITE HAS WON THE GAME");
}

#[test]
fn blocked_side_loses() {
    let text = "OOOOOOOOO\nOOOOOOOOO\nOOOOOOOOO\nOOOOOOOOO\nOOOOKOOOO\nOOOOOOOOO\nOOOOOOOOO\nOOOOOOOOO\nBOOOOOOOW\nturn: W";
    let s = State::from_position_string(text);
    assert!(s.has_moves());
    let mut no_black = s;
    no_black.white_to_move = false;
    no_black.black = 0;
    assert!(!no_black.has_moves());
}

#[test]
fn has_moves_agrees_with_generation_on_opening() {
    let s = State::new();
    assert!(s.has_moves());
    assert!(!moves_of(&s).is_empty());
}

#[test]
fn repetition_draws() {
    let s = State::new();
    let moves = moves_of(&s);
    let m = moves[0];
    let mut probe = s;
    probe.apply_move(&m, &Vec::new());
    assert!(!probe.draw);
    let history = vec![probe.hash()];
    let mut again = s;
    again.apply_move(&m, &history);
    assert!(again.draw);
    assert!(!again.win);
    assert_eq!(again.to_position_string(), "IT'S A DRAW");
}

#[test]
fn incremental_hash_matches_full_hash_for_pawn_moves() {
    let s = State::new();
    for m in moves_of(&s) {
        if m.fr == 4 && m.fc == 4 {
            continue;
        }
        let mut a = s;
        a.apply_move(&m, &Vec::new());
        let mut b = a;
        b.compute_full_hash();
        assert_eq!(a.hash, b.hash);
    }
    let c = State::from_position_string(CAPTURE);
    let m = find(&moves_of(&c), 8, 3, 6, 3);
    let mut a = c;
    a.apply_move(&m, &Vec::new());
    let mut b = a;
    b.compute_full_hash();
    assert_eq!(a.hash, b.hash);
}

#[test]
fn king_moves_and_king_captures_keep_the_hash_up_to_date() {
    let s = State::from_position_string(ESCAPE);
    for m in moves_of(&s) {
        let mut a = s;
        a.apply_move(&m, &Vec::new());
        let mut b = a;
        b.compute_full_hash();
        assert_eq!(a.hash, b.hash);
    }
    let k = State::from_position_string(
        "OOOOOOOOO\nOOBOOOOOO\nOOKOOOOOO\nOOOOOOOOO\nOOOOOOOOO\nOOBOOOOOO\nOOOOOOOOO\nOOOOOOOOO\nOOOOOOOOO\nturn: B",
    );
    let m = find(&moves_of(&k), 5, 2, 3, 2);
    assert!(m.captured != 0);
    let mut a = k;
    a.apply_move(&m, &Vec::new());
    let mut b = a;
    b.compute_full_hash();
    assert_eq!(a.hash, b.hash);
}

#[test]
fn hash_words_and_canonical_hash() {
    let s = State::from_position_string(CAPTURE);
    assert_eq!(s.hash(), s.hash[0]);
    assert_eq!(s.canonical_hash(), *s.hash.iter().min().unwrap());
    let mirrored: String = CAPTURE
        .lines()
        .enumerate()
        .map(|(i, l)| if i < 9 { l.chars().rev().collect::<String>() } else { l.to_string() })
        .collect::<Vec<_>>()
        .join("\n");
    let m = State::from_position_string(&mirrored);
    assert_ne!(m.white, s.white);
    assert_eq!(m.canonical_hash(), s.canonical_hash());
    let mut turned = s;
    turned.white_to_move = true;
    turned.compute_full_hash();
    assert_ne!(turned.hash[0], s.hash[0]);
}

#[test]
fn update_hash_changes_every_word_and_keeps_board() {
    let s = State::new();
    let m = moves_of(&s)[0];
    let mut a = s;
    a.update_hash(&m);
    assert_eq!(a.white, s.white);
    assert_eq!(a.black, s.black);
    for i in 0..8 {
        assert_ne!(a.hash[i], s.hash[i]);
    }
}

#[test]
fn square_queries_and_king_position() {
    let s = State::new();
    assert!(s.is_king(4, 4));
    assert!(s.is_white(4, 4));
    assert!(s.is_white(2, 4));
    assert!(s.is_black(0, 3));
    assert!(!s.is_black(4, 4));
    assert_eq!(s.king_position(), (4, 4));
    let mut none = s;
    none.king = 0;
    assert_eq!(none.king_position(), (14, 2));
}

#[test]
fn win_and_draw_flags() {
    let mut s = State::new();
    s.set_win();
    assert!(s.win);
    assert_eq!(s.to_position_string(), "BLACK HAS WON THE GAME");
    let mut d = State::new();
    d.set_draw();
    assert!(d.draw && !d.win);
}

#[test]
fn white_mobility_is_capped() {
    let s = State::new();
    assert_eq!(s.white_mobility(), 10);
    let e = State::from_position_string(ESCAPE);
    assert_eq!(e.white_mobility(), 10);
    let lone = "OOOOOOOOO\nOOOOOOOOO\nOOOOOOOOO\nOOOOOOOOO\nOOOOOOOOO\nOOOOOOOOO\nOOOOOOOOO\nWBOOOOOOO\nBOOOOOOOO\nturn: B";
    let l = State::from_position_string(lone);
    assert_eq!(l.white_mobility(), 1);
}

fn well_formed(s: &State) -> bool {
    s.white >> 81 == 0
        && s.black >> 81 == 0
        && s.king >> 81 == 0
        && s.white & s.black == 0
        && s.king & !s.white == 0
        && s.king.count_ones() <= 1
}

#[test]
fn moves_keep_positions_well_formed() {
    let start = State::new();
    assert!(well_formed(&start));
    for m in moves_of(&start) {
        let mut a = start;
        a.apply_move(&m, &Vec::new());
        assert!(well_formed(&a));
        for n in moves_of(&a).into_iter().take(12) {
            let mut b = a;
            b.apply_move(&n, &Vec::new());
            assert!(well_formed(&b));
        }
    }
}

#[test]
fn drawing_reads_back() {
    let start = State::new();
    for m in moves_of(&start).into_iter().take(20) {
        let mut a = start;
        a.apply_move(&m, &Vec::new());
        let back = State::from_position_string(&a.to_position_string());
        assert_eq!((back.white, back.black, back.king, back.white_to_move), (a.white, a.black, a.king, a.white_to_move));
    }
    let c = State::from_position_string(CAPTURE);
    let back = State::from_position_string(&c.to_position_string());
    assert_eq!((back.white, back.black, back.king, back.white_to_move), (c.white, c.black, c.king, c.white_to_move));
}

fn transformed(text: &str, t: usize) -> String {
    let lines: Vec<Vec<char>> = text.lines().take(9).map(|l| l.chars().collect()).collect();
    let mut out = vec![vec!['O'; 9]; 9];
    for r in 0..9 {
        for c in 0..9 {
            let (r2, c2) = match t {
                0 => (r, c),
                1 => (c, 8 - r),
                2 => (8 - r, 8 - c),
                3 => (8 - c, r),
                4 => (r, 8 - c),
                5 => (8 - r, c),
                6 => (c, r),
                _ => (8 - c, 8 - r),
            };
            out[r2][c2] = lines[r][c];
        }
    }
    let mut s: String = out.iter().map(|l| l.iter().collect::<String>() + "\n").collect();
    s.push_str(text.lines().nth(9).unwrap());
    s
}

#[test]
fn canonical_hash_of_symmetric_positions() {
    let asym = "OOOBBBOOO\nOOBOBOOOO\nOBOOWOOOO\nBOOOWOOOB\nBBWWKWWBB\nBOOOWOOOB\nOOOOWOOOO\nOOOOBOOOO\nOOOBBBOOW\nturn: B";
    for text in [asym, CAPTURE, ESCAPE] {
        let s = State::from_position_string(text);
        let mut hashes = Vec::new();
        for t in 0..8 {
            let u = State::from_position_string(&transformed(text, t));
            assert_eq!(u.canonical_hash(), s.canonical_hash());
            let mut words = u.hash.to_vec();
            words.sort();
            let mut own = s.hash.to_vec();
            own.sort();
            assert_eq!(words, own);
            hashes.push(u.hash());
        }
        hashes.sort();
        hashes.dedup();
        assert!(hashes.len() > 1);
    }
}

#[test]
fn moves_remove_exactly_the_captured_pieces() {
    for text in [OPENING, CAPTURE, ESCAPE] {
        let s = State::from_position_string(text);
        let before = (s.white | s.black).count_ones();
        for m in moves_of(&s) {
            let mut a = s;
            a.apply_move(&m, &Vec::new());
            let after = (a.white | a.black).count_ones();
            assert_eq!(after + m.captured.count_ones(), before);
        }
    }
    let s = State::from_position_string(CAPTURE);
    let moves = moves_of(&s);
    let m = find(&moves, 8, 3, 6, 3);
    let mut a = s;
    a.apply_move(&m, &Vec::new());
    assert_eq!((s.white | s.black).count_ones(), 4);
    assert_eq!((a.white | a.black).count_ones(), 3);
}
