use std::sync::atomic::AtomicBool;
use tabluter::board::State;
use tabluter::search::{
    alphabeta, order_by_keys, search, LevelStats, TranspositionTable, ALPHA_START, BETA_START, TT_SIZE,
    WIN_SCORE,
};
use tabluter::weights::Weights;

const ESCAPE: &str = "OOOOOOOOO\nOOOOKOOOO\nOOOOOOOOO\nOOOOOOOOO\nOOOOOOOOO\nOOOOOOOOO\nOOOOOOOOO\nOOOOOOOBO\nOOOOOOOOO\nturn: W";

fn stats(n: usize) -> Vec<LevelStats> {
    vec![LevelStats::default(); n]
}

#[test]
fn table_starts_empty() {
    let tt = TranspositionTable::new();
    assert_eq!(tt.table.len(), TT_SIZE);
    assert_eq!(tt.get(12345), None);
    assert_eq!(tt.get(0), Some((0, 999)));
}

#[test]
fn table_insert_get_and_collisions() {
    let mut tt = TranspositionTable::new();
    let mut st = stats(5);
    let a: u64 = 77;
    let b: u64 = 77 + (1u64 << 24);
    tt.insert(a, 10, 2, &mut st);
    assert_eq!(tt.get(a), Some((10, 2)));
    assert_eq!(tt.get(b), None);
    tt.insert(b, 20, 3, &mut st);
    assert_eq!(tt.get(a), Some((10, 2)));
    assert_eq!(st[3].tt_collisions, 1);
    tt.insert(a, 11, 4, &mut st);
    assert_eq!(tt.get(a), Some((10, 2)));
    assert_eq!(st[4].tt_collisions, 0);
    tt.insert(b, 30, 1, &mut st);
    assert_eq!(tt.get(b), Some((30, 1)));
    assert_eq!(tt.get(a), None);
    tt.clear();
    assert_eq!(tt.get(b), None);
    assert_eq!(tt.table[(b & 0xFF_FFFF) as usize].value, 30);
    assert_eq!(tt.table[(b & 0xFF_FFFF) as usize].depth_from_root, 999);
}

#[test]
fn stable_order_of_keys() {
    assert_eq!(order_by_keys(&vec![3, 1, 3, 0, 1]), vec![3, 1, 4, 0, 2]);
    assert_eq!(order_by_keys(&vec![]), Vec::<usize>::new());
    assert_eq!(order_by_keys(&vec![-5, 200000, -5]), vec![0, 2, 1]);
}

#[test]
fn stopped_search_returns_nothing() {
    let flag = AtomicBool::new(true);
    let s = State::new();
    let r = search(&s, &Vec::new(), &Weights::new(true), &flag);
    assert_eq!(r.value, 0);
    assert!(r.best_move.is_none());
    assert_eq!(r.stats.len(), 21);
}

#[test]
fn search_finds_the_escape() {
    let flag = AtomicBool::new(false);
    let s = State::from_position_string(ESCAPE);
    let r = search(&s, &Vec::new(), &Weights::new(true), &flag);
    assert_eq!(r.value, WIN_SCORE - 1);
    let m = r.best_move.expect("a move");
    assert_eq!((m.fr, m.fc, m.tr, m.tc), (1, 4, 0, 4));
    assert_eq!(r.stats.len(), 4);
    assert_eq!(r.stats[0].nodes_visited, 1);
}

#[test]
fn alphabeta_one_ply() {
    let flag = AtomicBool::new(false);
    let s = State::from_position_string(ESCAPE);
    let mut history = vec![1, 2, 3];
    let mut tt = TranspositionTable::new();
    let prev = TranspositionTable::new();
    let mut st = stats(2);
    let r = alphabeta(s, 0, 1, ALPHA_START, BETA_START, &mut history, &mut tt, &prev, &Weights::new(true), true, &mut st, None, &flag);
    let (v, m) = r.expect("not stopped");
    assert_eq!(v, WIN_SCORE - 1);
    let m = m.expect("a move");
    assert_eq!((m.fr, m.fc, m.tr, m.tc), (1, 4, 0, 4));
    assert_eq!(history, vec![1, 2, 3]);
    assert_eq!(st[0].nodes_visited, 1);
    assert_eq!(st[1].nodes_visited, 11);
    assert_eq!(tt.get(s.hash()), Some((WIN_SCORE - 1, 0)));
}

#[test]
fn alphabeta_leaf_and_terminal_values() {
    let flag = AtomicBool::new(false);
    let s = State::new();
    let w = Weights::new(true);
    let mut tt = TranspositionTable::new();
    let prev = TranspositionTable::new();
    let mut st = stats(1);
    let r = alphabeta(s, 0, 0, ALPHA_START, BETA_START, &mut vec![], &mut tt, &prev, &w, true, &mut st, None, &flag);
    assert_eq!(r.unwrap().0, tabluter::eval::evaluate(&s, &w));
    let mut won = s;
    won.set_win();
    let r = alphabeta(won, 0, 3, ALPHA_START, BETA_START, &mut vec![], &mut tt, &prev, &w, true, &mut stats(4), None, &flag);
    assert_eq!(r.unwrap().0, -WIN_SCORE);
    let mut drawn = s;
    drawn.set_draw();
    let r = alphabeta(drawn, 0, 3, ALPHA_START, BETA_START, &mut vec![], &mut tt, &prev, &w, true, &mut stats(4), None, &flag);
    assert_eq!(r.unwrap().0, -50_000);
    let r = alphabeta(drawn, 0, 3, ALPHA_START, BETA_START, &mut vec![], &mut tt, &prev, &w, false, &mut stats(4), None, &flag);
    assert_eq!(r.unwrap().0, 50_000);
    let stop = AtomicBool::new(true);
    let r = alphabeta(s, 0, 3, ALPHA_START, BETA_START, &mut vec![], &mut tt, &prev, &w, true, &mut stats(4), None, &stop);
    assert!(r.is_none());
}

#[test]
fn search_of_a_finished_game() {
    let flag = AtomicBool::new(false);
    let mut won = State::new();
    won.win = true;
    let r = search(&won, &Vec::new(), &Weights::new(true), &flag);
    assert_eq!(r.value, -WIN_SCORE);
    assert!(r.best_move.is_none());
    assert_eq!(r.stats.len(), 4);
}

#[test]
fn search_of_a_drawn_game() {
    let flag = AtomicBool::new(false);
    let mut drawn = State::new();
    drawn.draw = true;
    let r = search(&drawn, &Vec::new(), &Weights::new(true), &flag);
    assert_eq!(r.value, tabluter::search::DRAW_SCORE);
    assert!(r.best_move.is_none());
    assert_eq!(r.stats.len(), 21);
}

#[test]
fn alphabeta_without_moves() {
    let flag = AtomicBool::new(false);
    let s = State::from_position_string(
        "OOOOOOOOO\nOOOOOOOOO\nOOOOOOOOO\nOOOOOOOOO\nOOOOKOOOO\nOOOOOOOOO\nOOOOOOOOO\nOOOOOOOOO\nOOOOOOOOO\nturn: B",
    );
    let mut tt = TranspositionTable::new();
    let prev = TranspositionTable::new();
    let r = alphabeta(s, 0, 2, ALPHA_START, BETA_START, &mut vec![], &mut tt, &prev, &Weights::new(false), false, &mut stats(3), None, &flag);
    let (v, m) = r.expect("not stopped");
    assert_eq!(v, ALPHA_START);
    assert!(m.is_none());
}

#[test]
fn stop_flag_is_read_only_at_checkpoints() {
    let stop = AtomicBool::new(true);
    let s = State::new();
    let w = Weights::new(true);
    let mut tt = TranspositionTable::new();
    let prev = TranspositionTable::new();
    let mut st = stats(2);
    st[1].nodes_visited = 1;
    let r = alphabeta(s, 1, 1, ALPHA_START, BETA_START, &mut vec![], &mut tt, &prev, &w, true, &mut st, None, &stop);
    assert_eq!(r.map(|x| x.0), Some(tabluter::eval::evaluate(&s, &w)));
    let mut st = stats(2);
    st[1].nodes_visited = 65536;
    let r = alphabeta(s, 1, 1, ALPHA_START, BETA_START, &mut vec![], &mut tt, &prev, &w, true, &mut st, None, &stop);
    assert!(r.is_none());
    assert_eq!(st[1].nodes_visited, 65536);
}

#[test]
fn immediate_returns_count_one_node() {
    let flag = AtomicBool::new(false);
    let s = State::new();
    let w = Weights::new(true);
    let mut tt = TranspositionTable::new();
    let prev = TranspositionTable::new();
    let mut st = stats(3);
    st[2].nodes_visited = 7;
    let r = alphabeta(s, 2, 2, ALPHA_START, BETA_START, &mut vec![], &mut tt, &prev, &w, true, &mut st, None, &flag);
    assert!(r.is_some());
    assert_eq!(st[2].nodes_visited, 8);
    assert_eq!((st[2].tt_hits, st[1].nodes_visited, st[0].nodes_visited), (0, 0, 0));
    let mut st2 = stats(3);
    let _ = alphabeta(s, 0, 1, ALPHA_START, BETA_START, &mut vec![], &mut tt, &prev, &w, true, &mut st2, None, &flag);
    let mut st3 = stats(3);
    st3[0].nodes_visited = 1;
    let r = alphabeta(s, 0, 1, ALPHA_START, BETA_START, &mut vec![], &mut tt, &prev, &w, true, &mut st3, None, &flag);
    assert!(r.is_some());
    assert_eq!((st3[0].nodes_visited, st3[0].tt_hits), (2, 1));
    assert_eq!(st3[1].nodes_visited, 0);
}
