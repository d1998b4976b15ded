use tabluter::ui::{cell_background, cell_brackets, is_citadel, is_escape, is_throne, key_of, outcome_message, CellBackground, Ui, UiAction, UiKey};
use tabluter::board::State;

#[test]
fn keys() {
    assert!(key_of('q') == UiKey::Quit);
    assert!(key_of('r') == UiKey::Reset);
    assert!(key_of('g') == UiKey::Search);
    assert!(key_of('u') == UiKey::Undo);
    assert!(key_of('w') == UiKey::Up && key_of('k') == UiKey::Up);
    assert!(key_of('s') == UiKey::Down && key_of('j') == UiKey::Down);
    assert!(key_of('a') == UiKey::Left && key_of('h') == UiKey::Left);
    assert!(key_of('d') == UiKey::Right && key_of('l') == UiKey::Right);
    assert!(key_of(' ') == UiKey::Select);
    assert!(key_of('x') == UiKey::Other);
}

#[test]
fn play_and_undo() {
    let mut ui = Ui::new();
    assert_eq!((ui.cursor_r, ui.cursor_c), (4, 4));
    assert!(ui.handle_key(UiKey::Up) == UiAction::Continue);
    ui.handle_key(UiKey::Up);
    assert_eq!((ui.cursor_r, ui.cursor_c), (2, 4));
    ui.handle_key(UiKey::Select);
    assert_eq!(ui.selected, Some((2, 4)));
    ui.handle_key(UiKey::Right);
    let (targets, capture) = ui.selection_view();
    assert_eq!(targets, vec![(2, 5), (2, 6), (2, 7), (2, 8), (2, 3), (2, 2), (2, 1), (2, 0)]);
    assert_eq!(capture, 0);
    let before = ui.state;
    ui.handle_key(UiKey::Select);
    assert_eq!(ui.history.len(), 1);
    assert_eq!(ui.history_real, vec![before.hash()]);
    assert!(!ui.state.white_to_move);
    assert!(ui.state.is_white(2, 5));
    assert_eq!(ui.selected, None);
    ui.handle_key(UiKey::Undo);
    assert_eq!(ui.state.white, before.white);
    assert_eq!(ui.state.black, before.black);
    assert_eq!(ui.state.king, before.king);
    assert_eq!(ui.state.hash, before.hash);
    assert_eq!(ui.selected, None);
    assert_eq!(ui.search_val, None);
    assert!(ui.state.white_to_move);
    assert!(ui.history.is_empty() && ui.history_real.is_empty());
}

#[test]
fn selection_rules() {
    let mut ui = Ui::new();
    ui.handle_key(UiKey::Up);
    ui.handle_key(UiKey::Up);
    ui.handle_key(UiKey::Up);
    ui.handle_key(UiKey::Up);
    assert_eq!(ui.cursor_r, 0);
    ui.handle_key(UiKey::Up);
    assert_eq!(ui.cursor_r, 0);
    ui.handle_key(UiKey::Select);
    assert_eq!(ui.selected, None);
    ui.handle_key(UiKey::Down);
    ui.handle_key(UiKey::Down);
    ui.handle_key(UiKey::Select);
    assert_eq!(ui.selected, Some((2, 4)));
    ui.handle_key(UiKey::Down);
    ui.handle_key(UiKey::Select);
    assert_eq!(ui.selected, None);
    assert!(ui.history.is_empty());
    ui.search_val = Some(5);
    assert!(ui.handle_key(UiKey::Search) == UiAction::Search);
    assert!(ui.handle_key(UiKey::Quit) == UiAction::Quit);
    assert!(ui.handle_key(UiKey::Other) == UiAction::Continue);
    assert_eq!(ui.search_val, Some(5));
    ui.handle_key(UiKey::Reset);
    assert_eq!(ui.search_val, None);
    assert_eq!((ui.cursor_r, ui.cursor_c), (4, 4));
}

#[test]
fn suggestion_moves_cursor() {
    let mut ui = Ui::new();
    let mut moves = Vec::new();
    ui.state.generate_moves(&mut moves);
    ui.accept_search(Some(moves[3]), 42);
    assert_eq!(ui.selected, Some((2, 4)));
    assert_eq!((ui.cursor_r, ui.cursor_c), (2, 8));
    assert_eq!(ui.search_val, Some(42));
    ui.accept_search(None, 7);
    assert_eq!(ui.search_val, Some(42));
}

#[test]
fn squares_and_outcomes() {
    assert!(is_throne(4, 4) && !is_throne(4, 3));
    assert!(is_citadel(0, 3) && is_citadel(4, 1) && !is_citadel(4, 4));
    assert!(is_escape(0, 1) && is_escape(2, 8) && !is_escape(0, 0));
    assert!(cell_background(4, 4, false, false, false) == CellBackground::Throne);
    assert!(cell_background(0, 3, false, false, false) == CellBackground::Citadel);
    assert!(cell_background(0, 1, false, false, false) == CellBackground::Escape);
    assert!(cell_background(0, 0, false, false, false) == CellBackground::Plain);
    assert!(cell_background(4, 4, true, true, true) == CellBackground::Captured);
    assert!(cell_background(4, 4, false, true, true) == CellBackground::Cursor);
    assert!(cell_background(4, 4, false, false, true) == CellBackground::Target);
    assert_eq!(cell_brackets(true, true), ('>', '<'));
    assert_eq!(cell_brackets(false, true), ('[', ']'));
    assert_eq!(cell_brackets(false, false), (' ', ' '));
    let mut s = State::new();
    assert_eq!(outcome_message(&s), "");
    s.set_win();
    assert_eq!(outcome_message(&s), "VITTORIA NERO");
    s.white_to_move = false;
    assert_eq!(outcome_message(&s), "VITTORIA BIANCO");
    s.set_draw();
    assert_eq!(outcome_message(&s), "PATTA");
}

#[test]
fn cell_piece_letters() {
    let s = tabluter::board::State::new();
    assert_eq!(tabluter::ui::cell_piece(&s, 4, 4), 'K');
    assert_eq!(tabluter::ui::cell_piece(&s, 4, 3), 'W');
    assert_eq!(tabluter::ui::cell_piece(&s, 0, 4), 'B');
    assert_eq!(tabluter::ui::cell_piece(&s, 0, 0), 'O');
}
