//! The decisions of the interactive board: keys, cursor, selection,
//! moves, undo, and what each square shows.
use vstd::prelude::*;
use crate::bitops::bit;
use crate::board::{State, Move, square_char, legal_moves, move_from, move_to, played, lemma_played, CITADELS, THRONE};
use crate::laws::{board_ok, lemma_legal_move_facts, lemma_move_keeps_board};

verus! {

/// Escape squares of the board edge.
pub const ESCAPE: u128 = 937403599922078434067142;

/// Whether (row, col) is a citadel.
pub fn is_citadel(row: u8, col: u8) -> (r: bool)
    requires
        9 * row + col < 128,
    ensures
        r == bit(CITADELS, 9 * row + col),
{
    proof {
        crate::bitops::lemma_and_masks(CITADELS >> ((row * 9 + col) as u128), 0);
    }
    ((CITADELS >> ((row * 9 + col) as u128)) & 1) != 0
}

/// Whether (row, col) is the throne.
pub fn is_throne(row: u8, col: u8) -> (r: bool)
    requires
        9 * row + col < 128,
    ensures
        r == bit(THRONE, 9 * row + col),
{
    proof {
        crate::bitops::lemma_and_masks(THRONE >> ((row * 9 + col) as u128), 0);
    }
    ((THRONE >> ((row * 9 + col) as u128)) & 1) != 0
}

/// Whether (row, col) is an escape square.
pub fn is_escape(row: u8, col: u8) -> (r: bool)
    requires
        9 * row + col < 128,
    ensures
        r == bit(ESCAPE, 9 * row + col),
{
    proof {
        crate::bitops::lemma_and_masks(ESCAPE >> ((row * 9 + col) as u128), 0);
    }
    ((ESCAPE >> ((row * 9 + col) as u128)) & 1) != 0
}

/// A key of the interactive board.
#[derive(Clone, Copy, PartialEq, Eq, Structural)]
pub enum UiKey {
    Quit,
    Reset,
    Search,
    Undo,
    Up,
    Down,
    Left,
    Right,
    Select,
    Other,
}

/// The key a typed character stands for.
pub fn key_of(c: char) -> (k: UiKey)
    ensures
        k == (if c == 'q' {
            UiKey::Quit
        } else if c == 'r' {
            UiKey::Reset
        } else if c == 'g' {
            UiKey::Search
        } else if c == 'u' {
            UiKey::Undo
        } else if c == 'w' || c == 'k' {
            UiKey::Up
        } else if c == 's' || c == 'j' {
            UiKey::Down
        } else if c == 'a' || c == 'h' {
            UiKey::Left
        } else if c == 'd' || c == 'l' {
            UiKey::Right
        } else if c == ' ' {
            UiKey::Select
        } else {
            UiKey::Other
        }),
{
    if c == 'q' {
        UiKey::Quit
    } else if c == 'r' {
        UiKey::Reset
    } else if c == 'g' {
        UiKey::Search
    } else if c == 'u' {
        UiKey::Undo
    } else if c == 'w' || c == 'k' {
        UiKey::Up
    } else if c == 's' || c == 'j' {
        UiKey::Down
    } else if c == 'a' || c == 'h' {
        UiKey::Left
    } else if c == 'd' || c == 'l' {
        UiKey::Right
    } else if c == ' ' {
        UiKey::Select
    } else {
        UiKey::Other
    }
}

/// What the caller does after a key.
#[derive(Clone, Copy, PartialEq, Eq, Structural)]
pub enum UiAction {
    Continue,
    Quit,
    Search,
}

/// The state of the interactive board.
pub struct Ui {
    pub state: State,
    pub history: Vec<State>,
    pub history_real: Vec<u64>,
    pub cursor_r: i8,
    pub cursor_c: i8,
    pub selected: Option<(u8, u8)>,
    pub search_val: Option<i32>,
}

/// Index of the first move in `moves`, from index `i` on, that goes from
/// (sr, sc) to (r, c), if any.
pub open spec fn find_move_from(moves: Seq<Move>, sr: u8, sc: u8, r: u8, c: u8, i: int) -> Option<int>
    decreases moves.len() - i,
{
    if i < 0 || i >= moves.len() {
        None
    } else if matches_move(moves[i], sr, sc, r, c) {
        Some(i)
    } else {
        find_move_from(moves, sr, sc, r, c, i + 1)
    }
}

/// Index of the first move in `moves` from (sr, sc) to (r, c), if any.
pub open spec fn find_move(moves: Seq<Move>, sr: u8, sc: u8, r: u8, c: u8) -> Option<int> {
    find_move_from(moves, sr, sc, r, c, 0)
}

pub proof fn lemma_find_move_from(moves: Seq<Move>, sr: u8, sc: u8, r: u8, c: u8, i: int)
    requires
        0 <= i,
    ensures
        find_move_from(moves, sr, sc, r, c, i) matches Some(k) ==> i <= k < moves.len() && matches_move(
            moves[k],
            sr,
            sc,
            r,
            c,
        ),
    decreases moves.len() - i,
{
    if i < moves.len() && !matches_move(moves[i], sr, sc, r, c) {
        lemma_find_move_from(moves, sr, sc, r, c, i + 1);
    }
}

pub open spec fn matches_move(m: Move, sr: u8, sc: u8, r: u8, c: u8) -> bool {
    m.fr == sr && m.fc == sc && m.tr == r && m.tc == c
}

/// The targets of the moves from (sr, sc), in move order.
pub open spec fn targets_from(moves: Seq<Move>, sr: u8, sc: u8) -> Seq<(u8, u8)>
    decreases moves.len(),
{
    if moves.len() == 0 {
        seq![]
    } else {
        let rest = targets_from(moves.drop_last(), sr, sc);
        let m = moves.last();
        if m.fr == sr && m.fc == sc {
            rest.push((m.tr, m.tc))
        } else {
            rest
        }
    }
}

fn targets_of(moves: &Vec<Move>, sr: u8, sc: u8) -> (targets: Vec<(u8, u8)>)
    ensures
        targets@ == targets_from(moves@, sr, sc),
{
    let mut targets: Vec<(u8, u8)> = Vec::new();
    let mut i: usize = 0;
    while i < moves.len()
        invariant
            i <= moves.len(),
            targets@ == targets_from(moves@.subrange(0, i as int), sr, sc),
        decreases moves.len() - i,
    {
        let m = moves[i];
        assert(moves@.subrange(0, i + 1).drop_last() =~= moves@.subrange(0, i as int));
        if m.fr == sr && m.fc == sc {
            targets.push((m.tr, m.tc));
        }
        i += 1;
    }
    assert(moves@.subrange(0, moves@.len() as int) =~= moves@);
    targets
}

fn find_move_exec(moves: &Vec<Move>, sr: u8, sc: u8, r: u8, c: u8) -> (res: Option<usize>)
    ensures
        match find_move(moves@, sr, sc, r, c) {
            Some(i) => res == Some(i as usize) && 0 <= i < moves.len(),
            None => res is None,
        },
{
    let mut i: usize = 0;
    while i < moves.len()
        invariant
            i <= moves.len(),
            find_move(moves@, sr, sc, r, c) == find_move_from(moves@, sr, sc, r, c, i as int),
        decreases moves.len() - i,
    {
        let m = moves[i];
        if m.fr == sr && m.fc == sc && m.tr == r && m.tc == c {
            return Some(i);
        }
        i += 1;
    }
    None
}

/// The message shown for a finished game.
pub open spec fn outcome_text(s: State) -> Seq<char> {
    if s.draw {
        "PATTA"@
    } else if s.win && s.white_to_move {
        "VITTORIA NERO"@
    } else if s.win {
        "VITTORIA BIANCO"@
    } else {
        ""@
    }
}

/// The message shown for a finished game ("" while it goes on).
pub fn outcome_message(s: &State) -> (r: String)
    ensures
        r@ == outcome_text(*s),
{
    if s.draw {
        String::from_str("PATTA")
    } else if s.win && s.white_to_move {
        String::from_str("VITTORIA NERO")
    } else if s.win {
        String::from_str("VITTORIA BIANCO")
    } else {
        String::from_str("")
    }
}

/// Background of a square, by priority.
#[derive(Clone, Copy, PartialEq, Eq, Structural)]
pub enum CellBackground {
    Captured,
    Cursor,
    Target,
    Throne,
    Citadel,
    Escape,
    Plain,
}

/// Background of (row, col) given what is drawn over it.
pub fn cell_background(row: u8, col: u8, is_captured: bool, is_cursor: bool, is_target: bool) -> (b: CellBackground)
    requires
        9 * row + col < 128,
    ensures
        b == (if is_captured {
            CellBackground::Captured
        } else if is_cursor {
            CellBackground::Cursor
        } else if is_target {
            CellBackground::Target
        } else if bit(THRONE, 9 * row + col) {
            CellBackground::Throne
        } else if bit(CITADELS, 9 * row + col) {
            CellBackground::Citadel
        } else if bit(ESCAPE, 9 * row + col) {
            CellBackground::Escape
        } else {
            CellBackground::Plain
        }),
{
    if is_captured {
        CellBackground::Captured
    } else if is_cursor {
        CellBackground::Cursor
    } else if is_target {
        CellBackground::Target
    } else if is_throne(row, col) {
        CellBackground::Throne
    } else if is_citadel(row, col) {
        CellBackground::Citadel
    } else if is_escape(row, col) {
        CellBackground::Escape
    } else {
        CellBackground::Plain
    }
}

/// Brackets around a square: '>' '<' for the selected piece, '[' ']' for
/// the cursor, spaces otherwise.
pub fn cell_brackets(is_selected: bool, is_cursor: bool) -> (r: (char, char))
    ensures
        r == (if is_selected {
            ('>', '<')
        } else if is_cursor {
            ('[', ']')
        } else {
            (' ', ' ')
        }),
{
    if is_selected {
        ('>', '<')
    } else if is_cursor {
        ('[', ']')
    } else {
        (' ', ' ')
    }
}

/// Letter drawn on a square: 'K' for the king, 'W' for a white piece, 'B'
/// for a black one, 'O' for an empty square.
pub fn cell_piece(state: &State, row: u8, col: u8) -> (p: char)
    requires
        9 * row + col < 128,
    ensures
        p == square_char(*state, 9 * row + col),
{
    if state.is_king(row, col) {
        'K'
    } else if state.is_white(row, col) {
        'W'
    } else if state.is_black(row, col) {
        'B'
    } else {
        'O'
    }
}

/// What the select key does: with a piece selected, plays its move to the
/// cursor (the first such legal move) or drops the selection; without one,
/// selects a piece of the side to move under the cursor.
pub open spec fn select_result(before: Ui, after: Ui) -> bool {
    let r = before.cursor_r as u8;
    let c = before.cursor_c as u8;
    let s = before.state;
    match before.selected {
        Some((sr, sc)) => match find_move(legal_moves(s), sr, sc, r, c) {
            Some(i) => {
                let mv = legal_moves(s)[i];
                &&& after.history@ == before.history@.push(s)
                &&& after.history_real@ == before.history_real@.push(s.hash[0])
                &&& after.state == played(s, mv, before.history_real@)
                &&& after.selected is None
                &&& after.search_val is None
                &&& after.cursor_r == before.cursor_r
                &&& after.cursor_c == before.cursor_c
            },
            None => after == (Ui { selected: None, search_val: None, ..before }),
        },
        None => after == (Ui {
            selected: if (s.white_to_move && bit(s.white, 9 * r + c)) || (!s.white_to_move && bit(
                s.black,
                9 * r + c,
            )) {
                Some((r, c))
            } else {
                None
            },
            ..before
        }),
    }
            }

/// What the undo key does: goes back to the position before the last move
/// played on the board, if any.
pub open spec fn undo_result(before: Ui, after: Ui) -> bool {
    if before.history.len() > 0 {
        &&& after.state == before.history@.last()
        &&& after.history@ == before.history@.drop_last()
        &&& after.history_real@ == (if before.history_real.len() > 0 {
            before.history_real@.drop_last()
        } else {
            before.history_real@
        })
        &&& after.selected is None
        &&& after.search_val is None
        &&& after.cursor_r == before.cursor_r
        &&& after.cursor_c == before.cursor_c
    } else {
        after == before
    }
}

/// What an arrow key does: moves the cursor one square in its direction,
/// staying on the board; any other key is no arrow key.
pub open spec fn cursor_moved(before: Ui, key: UiKey, after: Ui) -> bool {
    match key {
        UiKey::Up => after == (Ui {
            cursor_r: if before.cursor_r > 0 { (before.cursor_r - 1) as i8 } else { before.cursor_r },
            ..before
        }),
        UiKey::Down => after == (Ui {
            cursor_r: if before.cursor_r < 8 { (before.cursor_r + 1) as i8 } else { before.cursor_r },
            ..before
        }),
        UiKey::Left => after == (Ui {
            cursor_c: if before.cursor_c > 0 { (before.cursor_c - 1) as i8 } else { before.cursor_c },
            ..before
        }),
        UiKey::Right => after == (Ui {
            cursor_c: if before.cursor_c < 8 { (before.cursor_c + 1) as i8 } else { before.cursor_c },
            ..before
        }),
        _ => false,
    }
}

/// Undo takes back a move played with the select key: the position and both
/// histories are those from before the move, and nothing is selected.
pub proof fn lemma_undo_takes_back_move(u0: Ui, u1: Ui, u2: Ui)
    requires
        u0.selected matches Some((sr, sc)) && find_move(legal_moves(u0.state), sr, sc, u0.cursor_r as u8, u0.cursor_c as u8)
            is Some,
        select_result(u0, u1),
        undo_result(u1, u2),
    ensures
        u2.state == u0.state,
        u2.history@ == u0.history@,
        u2.history_real@ == u0.history_real@,
        u2.selected is None,
        u2.cursor_r == u0.cursor_r,
        u2.cursor_c == u0.cursor_c,
{
    assert(u1.history@.drop_last() =~= u0.history@);
    assert(u1.history_real@.drop_last() =~= u0.history_real@);
}

/// Undo after a move played with the keys takes the move back: select a
/// piece, move the cursor with the arrow keys to the target of one of its
/// legal moves, play it with the select key and press undo; the position and
/// both histories are again those before the first key, nothing is selected
/// and no suggestion is shown.
pub proof fn lemma_undo_after_keys(u0: Ui, path: Seq<Ui>, keys: Seq<UiKey>, u3: Ui, u4: Ui)
    requires
        u0.selected is None,
        path.len() == keys.len() + 1,
        select_result(u0, path[0]),
        forall|i: int| 0 <= i < keys.len() ==> cursor_moved(#[trigger] path[i], keys[i], path[i + 1]),
        path.last().selected matches Some((sr, sc)) && find_move(
            legal_moves(path.last().state),
            sr,
            sc,
            path.last().cursor_r as u8,
            path.last().cursor_c as u8,
        ) is Some,
        select_result(path.last(), u3),
        undo_result(u3, u4),
    ensures
        u4.state == u0.state,
        u4.history@ == u0.history@,
        u4.history_real@ == u0.history_real@,
        u4.selected is None,
        u4.search_val is None,
{
    assert forall|i: int| 0 <= i <= keys.len() implies #[trigger] path[i].state == u0.state && path[i].history
        == u0.history && path[i].history_real == u0.history_real by {
        lemma_arrow_keys_keep(u0, path, keys, i);
    }
    let last = path.last();
    assert(last == path[keys.len() as int]);
    assert(u3.history@.drop_last() =~= u0.history@);
    assert(u3.history_real@.drop_last() =~= u0.history_real@);
}

proof fn lemma_arrow_keys_keep(u0: Ui, path: Seq<Ui>, keys: Seq<UiKey>, i: int)
    requires
        u0.selected is None,
        path.len() == keys.len() + 1,
        select_result(u0, path[0]),
        forall|j: int| 0 <= j < keys.len() ==> cursor_moved(#[trigger] path[j], keys[j], path[j + 1]),
        0 <= i <= keys.len(),
    ensures
        path[i].state == u0.state,
        path[i].history == u0.history,
        path[i].history_real == u0.history_real,
    decreases i,
{
    if i > 0 {
        lemma_arrow_keys_keep(u0, path, keys, i - 1);
        assert(cursor_moved(path[i - 1], keys[i - 1], path[i]));
    }
}

impl Ui {
    /// The cursor is on the board and every position is on the board.
    pub open spec fn wf(&self) -> bool {
        &&& 0 <= self.cursor_r < 9
        &&& 0 <= self.cursor_c < 9
        &&& board_ok(self.state)
        &&& forall|i: int| 0 <= i < self.history.len() ==> board_ok(#[trigger] self.history@[i])
    }

    /// The opening position, cursor on the centre, nothing selected.
    pub fn new() -> (ui: Self)
        ensures
            ui.wf(),
            ui.state.white == 288801849471926272u128,
            ui.state.black == CITADELS,
            ui.state.king == THRONE,
            ui.state.white_to_move && !ui.state.win && !ui.state.draw,
            ui.history.len() == 0,
            ui.history_real.len() == 0,
            ui.cursor_r == 4 && ui.cursor_c == 4,
            ui.selected is None,
            ui.search_val is None,
    {
        let state = State::new();
        proof {
            crate::bitops::lemma_bits(0, 0);
            assert(board_ok(state)) by {
                crate::laws::lemma_opening_on_board(state);
            }
        }
        Ui {
            state,
            history: Vec::new(),
            history_real: Vec::new(),
            cursor_r: 4,
            cursor_c: 4,
            selected: None,
            search_val: None,
        }
    }

    /// Targets of the selected piece and the captures of the move from it to
    /// the cursor (the first such move), while a piece is selected.
    pub fn selection_view(&self) -> (r: (Vec<(u8, u8)>, u128))
        requires
            self.wf(),
        ensures
            match self.selected {
                Some((sr, sc)) => r.0@ == targets_from(legal_moves(self.state), sr, sc) && r.1 == match find_move(
                    legal_moves(self.state),
                    sr,
                    sc,
                    self.cursor_r as u8,
                    self.cursor_c as u8,
                ) {
                    Some(i) => legal_moves(self.state)[i].captured,
                    None => 0u128,
                },
                None => r.0@.len() == 0 && r.1 == 0,
            },
    {
        match self.selected {
            None => (Vec::new(), 0),
            Some((sr, sc)) => {
                let mut moves: Vec<Move> = Vec::new();
                self.state.generate_moves(&mut moves);
                assert(moves@ =~= legal_moves(self.state));
                let targets = targets_of(&moves, sr, sc);
                let capture = match find_move_exec(&moves, sr, sc, self.cursor_r as u8, self.cursor_c as u8) {
                    Some(k) => moves[k].captured,
                    None => 0,
                };
                (targets, capture)
            },
        }
    }

    /// A search suggestion: selects the move's piece, puts the cursor on its
    /// target and keeps the value.
    pub fn accept_search(&mut self, best_move: Option<Move>, value: i32)
        requires
            old(self).wf(),
            best_move matches Some(m) ==> m.tr < 9 && m.tc < 9,
        ensures
            final(self).wf(),
            match best_move {
                Some(m) => *final(self) == (Ui {
                    selected: Some((m.fr, m.fc)),
                    cursor_r: m.tr as i8,
                    cursor_c: m.tc as i8,
                    search_val: Some(value),
                    ..*old(self)
                }),
                None => *final(self) == *old(self),
            },
    {
        if let Some(mv) = best_move {
            self.selected = Some((mv.fr, mv.fc));
            self.cursor_r = mv.tr as i8;
            self.cursor_c = mv.tc as i8;
            self.search_val = Some(value);
        }
    }

    fn select(&mut self)
        requires
            old(self).wf(),
        ensures
            final(self).wf(),
            select_result(*old(self), *final(self)),
    {
        let r = self.cursor_r as u8;
        let c = self.cursor_c as u8;
        match self.selected {
            Some((sr, sc)) => {
                let mut moves: Vec<Move> = Vec::new();
                self.state.generate_moves(&mut moves);
                assert(moves@ =~= legal_moves(self.state));
                match find_move_exec(&moves, sr, sc, r, c) {
                    Some(k) => {
                        let mv = moves[k];
                        proof {
                            lemma_legal_move_facts(self.state, mv);
                        }
                        let s = self.state;
                        self.history.push(s);
                        let the_hash = s.hash();
                        let mut next = s;
                        next.apply_move(&mv, &self.history_real);
                        proof {
                            lemma_played(s, mv, self.history_real@, next);
                            lemma_move_keeps_board(s.white, move_from(mv), move_to(mv), mv.captured);
                            lemma_move_keeps_board(s.black, move_from(mv), move_to(mv), mv.captured);
                            lemma_move_keeps_board(s.king, move_from(mv), move_to(mv), mv.captured);
                        }
                        self.state = next;
                        self.history_real.push(the_hash);
                        self.selected = None;
                        self.search_val = None;
                    },
                    None => {
                        self.selected = None;
                        self.search_val = None;
                    },
                }
            },
            None => {
                if (self.state.white_to_move && self.state.is_white(r, c)) || (!self.state.white_to_move
                    && self.state.is_black(r, c)) {
                    self.selected = Some((r, c));
                }
            },
        }
    }

    /// Handles one key.
    pub fn handle_key(&mut self, key: UiKey) -> (action: UiAction)
        requires
            old(self).wf(),
        ensures
            final(self).wf(),
            action == (match key {
                UiKey::Quit => UiAction::Quit,
                UiKey::Search => UiAction::Search,
                _ => UiAction::Continue,
            }),
            key == UiKey::Quit || key == UiKey::Search || key == UiKey::Other ==> *final(self) == *old(self),
            key == UiKey::Reset ==> {
                &&& final(self).state.white == 288801849471926272u128
                &&& final(self).state.black == CITADELS
                &&& final(self).state.king == THRONE
                &&& final(self).state.white_to_move
                &&& !final(self).state.win
                &&& !final(self).state.draw
                &&& final(self).history.len() == 0
                &&& final(self).history_real.len() == 0
                &&& final(self).cursor_r == 4
                &&& final(self).cursor_c == 4
                &&& final(self).selected is None
                &&& final(self).search_val is None
            },
            key == UiKey::Undo ==> undo_result(*old(self), *final(self)),
            key == UiKey::Up ==> *final(self) == (Ui {
                cursor_r: if old(self).cursor_r > 0 { (old(self).cursor_r - 1) as i8 } else { old(self).cursor_r },
                ..*old(self)
            }),
            key == UiKey::Down ==> *final(self) == (Ui {
                cursor_r: if old(self).cursor_r < 8 { (old(self).cursor_r + 1) as i8 } else { old(self).cursor_r },
                ..*old(self)
            }),
            key == UiKey::Left ==> *final(self) == (Ui {
                cursor_c: if old(self).cursor_c > 0 { (old(self).cursor_c - 1) as i8 } else { old(self).cursor_c },
                ..*old(self)
            }),
            key == UiKey::Right ==> *final(self) == (Ui {
                cursor_c: if old(self).cursor_c < 8 { (old(self).cursor_c + 1) as i8 } else { old(self).cursor_c },
                ..*old(self)
            }),
            key == UiKey::Select ==> select_result(*old(self), *final(self)),
            key == UiKey::Up || key == UiKey::Down || key == UiKey::Left || key == UiKey::Right ==> cursor_moved(
                *old(self),
                key,
                *final(self),
            ),
    {
        match key {
            UiKey::Quit => UiAction::Quit,
            UiKey::Search => UiAction::Search,
            UiKey::Other => UiAction::Continue,
            UiKey::Reset => {
                *self = Ui::new();
                UiAction::Continue
            },
            UiKey::Undo => {
                if self.history.len() > 0 {
                    let prev = self.history.pop().unwrap();
                    self.state = prev;
                    self.selected = None;
                    self.history_real.pop();
                    self.search_val = None;
                }
                UiAction::Continue
            },
            UiKey::Up => {
                if self.cursor_r > 0 {
                    self.cursor_r = self.cursor_r - 1;
                }
                UiAction::Continue
            },
            UiKey::Down => {
                if self.cursor_r < 8 {
                    self.cursor_r = self.cursor_r + 1;
                }
                UiAction::Continue
            },
            UiKey::Left => {
                if self.cursor_c > 0 {
                    self.cursor_c = self.cursor_c - 1;
                }
                UiAction::Continue
            },
            UiKey::Right => {
                if self.cursor_c < 8 {
                    self.cursor_c = self.cursor_c + 1;
                }
                UiAction::Continue
            },
            UiKey::Select => {
                self.select();
                UiAction::Continue
            },
        }
    }
}

} // verus!
