use tabluter::board::State;
use tabluter::game::{turn_action, TurnAction};
use tabluter::stats::{log_line, DepthStats, MAX_DEPTH};
use tabluter::text::{contains_chars, push_decimal, split_lines, text_chars};
use tabluter::abort::should_abort;
use std::sync::atomic::AtomicBool;

#[test]
fn depth_counters() {
    let mut s = DepthStats::new();
    assert_eq!(s.nodes.len(), MAX_DEPTH + 1);
    s.inc_nodes(3);
    s.inc_nodes(3);
    s.inc_nodes(25);
    s.inc_tt_hits(3);
    s.inc_tt_hits(20);
    assert_eq!(s.nodes[3], 2);
    assert_eq!(s.hits[3], 1);
    assert_eq!(s.hits[20], 1);
    assert_eq!(s.nodes.iter().sum::<u64>(), 2);
    s.reset_stats();
    assert!(s.nodes.iter().all(|&n| n == 0) && s.hits.iter().all(|&n| n == 0));
}

#[test]
fn log_lines() {
    assert_eq!(log_line(2, "depth"), "\t\tdepth\n");
    assert_eq!(log_line(0, ""), "\n");
}

#[test]
fn lines_and_patterns() {
    let chars = text_chars("a\r\nb\n\nc\r");
    let lines = split_lines(&chars);
    let as_strings: Vec<String> = lines.iter().map(|l| l.iter().collect()).collect();
    assert_eq!(as_strings, vec!["a", "b", "", "c\r"]);
    let trailing = split_lines(&text_chars("x\n"));
    assert_eq!(trailing.len(), 1);
    assert!(split_lines(&text_chars("")).is_empty());
    let line: Vec<char> = "xx turn: W".chars().collect();
    let pat: Vec<char> = "turn: W".chars().collect();
    assert!(contains_chars(&line, &pat));
    let other: Vec<char> = "turn: B".chars().collect();
    assert!(!contains_chars(&other, &pat));
}

#[test]
fn decimals() {
    let mut out = vec!['#'];
    push_decimal(&mut out, 1234);
    assert_eq!(out.iter().collect::<String>(), "#1234");
    let mut z = Vec::new();
    push_decimal(&mut z, 0);
    assert_eq!(z, vec!['0']);
}

#[test]
fn abort_flag() {
    assert!(should_abort(&AtomicBool::new(true)));
    assert!(!should_abort(&AtomicBool::new(false)));
}

#[test]
fn stats_summary_rows_and_totals() {
    let mut s = DepthStats::new();
    let empty = s.summary();
    assert!(empty.rows.is_empty());
    assert_eq!((empty.total_nodes, empty.total_hits), (0, 0));
    s.inc_nodes(0);
    s.inc_nodes(2);
    s.inc_nodes(2);
    s.inc_tt_hits(2);
    s.inc_tt_hits(5);
    s.inc_nodes(20);
    let r = s.summary();
    assert_eq!(r.rows, vec![(0, 1, 0), (2, 2, 1), (20, 1, 0)]);
    assert_eq!(r.total_nodes, 4);
    assert_eq!(r.total_hits, 1);
}

#[test]
fn answers_to_received_positions() {
    let s = State::new();
    assert!(turn_action(&s, true) == TurnAction::Play);
    assert!(turn_action(&s, false) == TurnAction::Wait);
    let mut w = s;
    w.white_to_move = false;
    w.win = true;
    assert!(turn_action(&w, true) == TurnAction::WhiteWon);
    let mut b = s;
    b.win = true;
    assert!(turn_action(&b, false) == TurnAction::BlackWon);
    let mut d = s;
    d.draw = true;
    assert!(turn_action(&d, true) == TurnAction::Drawn);
}
