//! Board representation (bitboards over the 9x9 board, square `9 * row + col`)
//! and the rules of the game: movement, captures and end of game.
use vstd::prelude::*;
use crate::bitops::{bit, lemma_bits, lemma_single, extract_bit, extract_bit_inplace, bit_to_mask, pop_piece};
use crate::zobrist::{zkey, turn_key, zobrist_key, zobrist_turn};
use vstd::string::StringExecFns;
use crate::text::{text_lines, text_chars, split_lines, contains_seq, contains_chars};

verus! {

/// The throne (centre square).
pub const THRONE: u128 = 1099511627776;
/// All citadel squares.
pub const CITADELS: u128 = 264600106062302366670904;
/// Citadels of the top and right groups.
pub const HALF_CITADELS_1: u128 = 9033621893554232;
/// Citadels of the left and bottom groups.
pub const HALF_CITADELS_2: u128 = 264600097028680473116672;
/// Squares that take part in a capture as if they held an attacker.
pub const KILLER: u128 = 189042242319826649358376;
/// Throne and its four neighbours: a king there needs four attackers.
pub const SPECIAL_KING_ZONE: u128 = 566800391602176;
/// The inner 7x7 area: a king outside of it has escaped.
pub const ALIVE_KING_ZONE: u128 = 2347321108901937150976;

pub open spec fn sq(r: int, c: int) -> int {
    9 * r + c
}

pub open spec fn on_board(r: int, c: int) -> bool {
    0 <= r < 9 && 0 <= c < 9
}

#[derive(Clone, Copy)]
pub struct State {
    pub white: u128,
    pub black: u128,
    pub king: u128,
    pub white_to_move: bool,
    pub win: bool,
    pub draw: bool,
    pub hash: [u64; 8],
}

#[derive(Clone, Copy)]
pub struct Move {
    pub fr: u8,
    pub fc: u8,
    pub tr: u8,
    pub tc: u8,
    pub captured: u128,
}

/// Pieces of the side to move (the king belongs to white).
pub open spec fn side_pieces(s: State) -> u128 {
    if s.white_to_move {
        s.white
    } else {
        s.black
    }
}

/// The king when black moves and the king stands in the special zone.
pub open spec fn special_king(s: State) -> u128 {
    if s.white_to_move {
        0
    } else {
        s.king & SPECIAL_KING_ZONE
    }
}

/// Pieces that the side to move can capture between two attackers.
pub open spec fn capturable(s: State) -> u128 {
    if s.white_to_move {
        s.black
    } else {
        s.white ^ special_king(s)
    }
}

/// Squares that count as attackers once the moving piece lands on (tr, tc).
pub open spec fn flankers(s: State, tr: int, tc: int) -> u128 {
    side_pieces(s) | KILLER | (1u128 << (sq(tr, tc) as u128))
}

/// What a piece landing on (tr, tc) captures next to it in direction (dr, dc).
pub open spec fn captures_dir(s: State, tr: int, tc: int, dr: int, dc: int) -> u128 {
    let cr = tr + dr;
    let cc = tc + dc;
    let f = flankers(s, tr, tc);
    let pawn = on_board(tr + 2 * dr, tc + 2 * dc) && bit(capturable(s), sq(cr, cc)) && bit(
        f,
        sq(tr + 2 * dr, tc + 2 * dc),
    );
    let king = on_board(cr, cc) && bit(special_king(s), sq(cr, cc)) && bit(f, sq(cr + 1, cc))
        && bit(f, sq(cr - 1, cc)) && bit(f, sq(cr, cc + 1)) && bit(f, sq(cr, cc - 1));
    if pawn || king {
        1u128 << (sq(cr, cc) as u128)
    } else {
        0u128
    }
}

/// Everything a piece landing on (tr, tc) captures.
pub open spec fn captures(s: State, tr: int, tc: int) -> u128 {
    captures_dir(s, tr, tc, -1, 0) | captures_dir(s, tr, tc, 1, 0) | captures_dir(s, tr, tc, 0, -1)
        | captures_dir(s, tr, tc, 0, 1)
}

/// Squares that block a piece standing on square `from` (the citadel group a
/// piece starts in stays open to it).
pub open spec fn move_blockers(s: State, from: int) -> u128 {
    s.white | s.black | THRONE | (if bit(HALF_CITADELS_1, from) {
        0u128
    } else {
        HALF_CITADELS_1
    }) | (if bit(HALF_CITADELS_2, from) {
        0u128
    } else {
        HALF_CITADELS_2
    })
}

pub open spec fn is_unit_dir(dr: int, dc: int) -> bool {
    (dr == 0 && (dc == 1 || dc == -1)) || (dc == 0 && (dr == 1 || dr == -1))
}

pub open spec fn ray_measure(tr: int, tc: int, dr: int, dc: int) -> int {
    if dr > 0 {
        9 - tr
    } else if dr < 0 {
        tr + 1
    } else if dc > 0 {
        9 - tc
    } else {
        tc + 1
    }
}

/// The moves of the piece on (r, c) that slide in direction (dr, dc),
/// from the square (tr, tc) onwards, nearest first.
pub open spec fn ray(s: State, r: int, c: int, tr: int, tc: int, dr: int, dc: int) -> Seq<Move>
    decreases ray_measure(tr, tc, dr, dc),
{
    if !is_unit_dir(dr, dc) || !on_board(tr, tc) || bit(move_blockers(s, sq(r, c)), sq(tr, tc)) {
        seq![]
    } else {
        seq![Move { fr: r as u8, fc: c as u8, tr: tr as u8, tc: tc as u8, captured: captures(s, tr, tc) }]
            + ray(s, r, c, tr + dr, tc + dc, dr, dc)
    }
}

/// All moves of the piece on (r, c): down, up, right, left.
pub open spec fn piece_moves(s: State, r: int, c: int) -> Seq<Move> {
    ray(s, r, c, r + 1, c, 1, 0) + ray(s, r, c, r - 1, c, -1, 0) + ray(s, r, c, r, c + 1, 0, 1)
        + ray(s, r, c, r, c - 1, 0, -1)
}

/// Moves of the pieces of the side to move on squares below `n`, square by square.
pub open spec fn moves_upto(s: State, n: int) -> Seq<Move>
    decreases n,
{
    if n <= 0 {
        seq![]
    } else {
        moves_upto(s, n - 1) + if bit(side_pieces(s), n - 1) {
            piece_moves(s, (n - 1) / 9, (n - 1) % 9)
        } else {
            seq![]
        }
    }
}

/// The legal moves of the side to move, in generation order.
#[verifier::opaque]
pub open spec fn legal_moves(s: State) -> Seq<Move> {
    moves_upto(s, 128)
}

proof fn lemma_moves_gap(s: State, p: int, q: int)
    requires
        0 <= p <= q,
        forall|j: int| p <= j < q ==> !bit(side_pieces(s), j),
    ensures
        moves_upto(s, q) == moves_upto(s, p),
    decreases q - p,
{
    if q > p {
        lemma_moves_gap(s, p, q - 1);
    }
}

/// Squares that block a single step of the piece on square `from`.
pub open spec fn step_blockers(s: State, from: int) -> u128 {
    s.white | s.black | THRONE | (if bit(CITADELS, from) {
        0u128
    } else {
        CITADELS
    })
}

/// Square `j` reads as open in `occupied` (indices past the board read as open).
pub open spec fn open_square(occupied: u128, j: int) -> bool {
    0 <= j && bit(!occupied, j)
}

/// The piece on square `idx` has an open square at index distance 9 or 1.
pub open spec fn can_step(s: State, idx: int) -> bool {
    let occ = step_blockers(s, idx);
    open_square(occ, idx + 9) || open_square(occ, idx - 9) || open_square(occ, idx + 1)
        || open_square(occ, idx - 1)
}

/// Some piece of the side to move can step.
pub open spec fn side_has_moves(s: State) -> bool {
    exists|i: int| 0 <= i < 128 && #[trigger] bit(side_pieces(s), i) && can_step(s, i)
}

/// No bit at index `n` or above.
pub open spec fn bits_below(b: u128, n: int) -> bool {
    forall|i: int| n <= i < 128 ==> !#[trigger] bit(b, i)
}

/// Xor of `f(q)` over the set bits `q < n` of `b`.
pub open spec fn xor_upto(f: spec_fn(int) -> u64, b: u128, n: int) -> u64
    decreases n,
{
    if n <= 0 {
        0u64
    } else {
        xor_upto(f, b, n - 1) ^ (if bit(b, n - 1) {
            f(n - 1)
        } else {
            0u64
        })
    }
}

pub open spec fn piece_key(t: int, kind: int) -> spec_fn(int) -> u64 {
    |q: int| zkey(t, kind, q)
}

/// Hash contribution of the pieces of `kind` on the bitboard `b`, in word `t`.
pub open spec fn pieces_hash(b: u128, kind: int, t: int) -> u64 {
    xor_upto(piece_key(t, kind), b, 128)
}

/// Hash word `t` of a position.
pub open spec fn position_hash(white: u128, black: u128, king: u128, white_to_move: bool, t: int) -> u64 {
    (((if white_to_move {
        turn_key()
    } else {
        0u64
    }) ^ pieces_hash(white, 0, t)) ^ pieces_hash(black, 1, t)) ^ pieces_hash(king, 2, t)
}

pub open spec fn full_hash(s: State, t: int) -> u64 {
    position_hash(s.white, s.black, s.king, s.white_to_move, t)
}

/// `h` is the smallest of the hash words of `s`.
pub open spec fn smallest_word(s: State, h: u64) -> bool {
    &&& exists|t: int| 0 <= t < 8 && h == s.hash[t]
    &&& forall|t: int| 0 <= t < 8 ==> h <= s.hash[t]
}

/// Every hash word is the full hash of the position.
pub open spec fn hash_consistent(s: State) -> bool {
    forall|t: int| 0 <= t < 8 ==> s.hash[t] == #[trigger] full_hash(s, t)
}

pub open spec fn move_from(mv: Move) -> int {
    sq(mv.fr as int, mv.fc as int)
}

pub open spec fn move_to(mv: Move) -> int {
    sq(mv.tr as int, mv.tc as int)
}

/// The change to hash word `t` from the pieces of `kind` on `b` when `mv`
/// is played: the keys of the moved piece on its two squares (when `b` holds
/// it) and the keys of the captured pieces of `b`.
pub open spec fn kind_delta(b: u128, kind: int, mv: Move, t: int) -> u64 {
    (if bit(b, move_from(mv)) {
        zkey(t, kind, move_from(mv)) ^ zkey(t, kind, move_to(mv))
    } else {
        0u64
    }) ^ xor_upto(piece_key(t, kind), b & mv.captured, 128)
}

/// Hash word `t` after the incremental update for `mv`: the side to move
/// changes, and every bitboard's keys move with the piece and leave with
/// the captured pieces (the king counts in the white bitboard as well).
pub open spec fn updated_hash(s: State, mv: Move, t: int) -> u64 {
    (((s.hash[t] ^ turn_key()) ^ kind_delta(s.white, 0, mv, t)) ^ kind_delta(s.black, 1, mv, t)) ^ kind_delta(
        s.king,
        2,
        mv,
        t,
    )
}

/// A bitboard after the piece on `from` (if any) moved to `to` and the
/// captured squares were emptied.
pub open spec fn move_bits(b: u128, from: int, to: int, captured: u128) -> u128 {
    ((b | (if bit(b, from) {
        1u128 << (to as u128)
    } else {
        0u128
    })) & !(1u128 << (from as u128))) & !captured
}

pub proof fn lemma_xor_gap(f: spec_fn(int) -> u64, b: u128, p: int, q: int)
    requires
        0 <= p <= q,
        forall|j: int| p <= j < q ==> !bit(b, j),
    ensures
        xor_upto(f, b, q) == xor_upto(f, b, p),
    decreases q - p,
{
    if q > p {
        lemma_xor_gap(f, b, p, q - 1);
        crate::bitops::lemma_xor64(xor_upto(f, b, q - 1), 0, 0);
    }
}

/// `side_has_moves` only reads the bitboards and the side to move.
pub proof fn lemma_has_moves_same(a: State, b: State)
    requires
        a.white == b.white,
        a.black == b.black,
        a.white_to_move == b.white_to_move,
    ensures
        side_has_moves(a) == side_has_moves(b),
{
    assert forall|i: int| can_step(a, i) == can_step(b, i) by {
        assert(step_blockers(a, i) == step_blockers(b, i));
    }
    assert(side_pieces(a) == side_pieces(b));
    if side_has_moves(a) {
        let i = choose|i: int| 0 <= i < 128 && #[trigger] bit(side_pieces(a), i) && can_step(a, i);
        assert(bit(side_pieces(b), i) && can_step(b, i));
    }
    if side_has_moves(b) {
        let i = choose|i: int| 0 <= i < 128 && #[trigger] bit(side_pieces(b), i) && can_step(b, i);
        assert(bit(side_pieces(a), i) && can_step(a, i));
    }
}

/// Character of square `idx` in a board drawn one row per line.
pub open spec fn cell_char(lines: Seq<Seq<char>>, idx: int) -> char {
    lines[idx / 9][idx % 9]
}

/// The text has nine lines of at least nine characters.
pub open spec fn board_text_ok(pos: Seq<char>) -> bool {
    &&& text_lines(pos).len() >= 9
    &&& forall|r: int| 0 <= r < 9 ==> #[trigger] text_lines(pos)[r].len() >= 9
}

/// The pattern that marks white to move on the tenth line.
pub open spec fn white_turn_marker() -> Seq<char> {
    seq!['t', 'u', 'r', 'n', ':', ' ', 'W']
}

/// The line that marks black to move.
pub open spec fn black_turn_marker() -> Seq<char> {
    seq!['t', 'u', 'r', 'n', ':', ' ', 'B']
}

/// One of the four characters that draw a square.
pub open spec fn square_symbol(ch: char) -> bool {
    ch == 'W' || ch == 'B' || ch == 'K' || ch == 'O'
}

/// The character of square `i` in a drawing of ten-character rows.
pub open spec fn drawn_square(p: Seq<char>, i: int) -> char {
    p[10 * (i / 9) + i % 9]
}

/// A board drawn as `to_position_string` draws a game that goes on: nine
/// rows of nine squares, each 'W', 'B', 'K' or 'O' with at most one 'K' in
/// all, each row ended by a line feed, then the line of the side to move.
pub open spec fn well_drawn(p: Seq<char>) -> bool {
    &&& p.len() == 97
    &&& forall|r: int| 0 <= r < 9 ==> #[trigger] p[10 * r + 9] == '\n'
    &&& forall|i: int| 0 <= i < 81 ==> square_symbol(#[trigger] drawn_square(p, i))
    &&& forall|i: int, j: int|
        0 <= i < 81 && 0 <= j < 81 && #[trigger] drawn_square(p, i) == 'K' && #[trigger] drawn_square(p, j) == 'K'
            ==> i == j
    &&& (p.subrange(90, 97) == white_turn_marker() || p.subrange(90, 97) == black_turn_marker())
}

/// Square `i` holds 'K' and no later square of the board does.
pub open spec fn last_king(lines: Seq<Seq<char>>, i: int, upto: int) -> bool {
    0 <= i < upto && cell_char(lines, i) == 'K' && forall|j: int| i < j < upto ==> cell_char(lines, j) != 'K'
}

/// White (or king) stands on square `i` of a drawn board.
pub open spec fn text_white(pos: Seq<char>, i: int) -> bool {
    i < 81 && (cell_char(text_lines(pos), i) == 'W' || cell_char(text_lines(pos), i) == 'K')
}

/// Black stands on square `i` of a drawn board.
pub open spec fn text_black(pos: Seq<char>, i: int) -> bool {
    i < 81 && cell_char(text_lines(pos), i) == 'B'
}

/// Square `i` holds the last king of a drawn board.
pub open spec fn text_king(pos: Seq<char>, i: int) -> bool {
    last_king(text_lines(pos), i, 81)
}

/// A drawn board says that white moves.
pub open spec fn text_white_to_move(pos: Seq<char>) -> bool {
    text_lines(pos).len() > 9 && contains_seq(text_lines(pos)[9], white_turn_marker())
}

/// Character drawn for square `idx`.
pub open spec fn square_char(s: State, idx: int) -> char {
    if bit(s.king, idx) {
        'K'
    } else if bit(s.white, idx) {
        'W'
    } else if bit(s.black, idx) {
        'B'
    } else {
        'O'
    }
}

/// The first `n` rows of the board, one line each.
pub open spec fn rows_text(s: State, n: int) -> Seq<char>
    decreases n,
{
    if n <= 0 {
        seq![]
    } else {
        rows_text(s, n - 1) + Seq::new(9, |c: int| square_char(s, 9 * (n - 1) + c)).push('\n')
    }
}

/// The text of a position: the board and the side to move, or the outcome.
pub open spec fn position_text(s: State) -> Seq<char> {
    if s.win {
        if s.white_to_move {
            "BLACK HAS WON THE GAME"@
        } else {
            "WHITE HAS WON THE GAME"@
        }
    } else if s.draw {
        "IT'S A DRAW"@
    } else {
        rows_text(s, 9) + if s.white_to_move {
            "turn: W"@
        } else {
            "turn: B"@
        }
    }
}

/// Most white moves that the evaluation counts.
pub const MOBILITY_CAP: i32 = 10;

/// Number of legal moves of white in the position, at most `MOBILITY_CAP`.
pub open spec fn white_mobility_spec(s: State) -> int {
    let n = legal_moves(State { white_to_move: true, ..s }).len();
    if n < MOBILITY_CAP {
        n as int
    } else {
        MOBILITY_CAP as int
    }
}

/// `c` is `s` after `mv`: the hash words updated, the piece moved, the
/// captured pieces removed and the turn passed; the game is won by the mover
/// when the king left the inner area (or was captured) or the opponent cannot
/// move, and drawn when the new position's hash occurs in `history`.
pub open spec fn move_played(s: State, mv: Move, history: Seq<u64>, c: State) -> bool {
    &&& c.white == move_bits(s.white, move_from(mv), move_to(mv), mv.captured)
    &&& c.black == move_bits(s.black, move_from(mv), move_to(mv), mv.captured)
    &&& c.king == move_bits(s.king, move_from(mv), move_to(mv), mv.captured)
    &&& c.white_to_move == !s.white_to_move
    &&& forall|t: int| 0 <= t < 8 ==> c.hash[t] == #[trigger] updated_hash(s, mv, t)
    &&& c.win == (s.win || c.king & ALIVE_KING_ZONE == 0 || !side_has_moves(c))
    &&& c.draw == (s.draw || (!(c.king & ALIVE_KING_ZONE == 0 || !side_has_moves(c)) && history.contains(c.hash[0])))
}

/// The position after `mv` (see `move_played`).
pub open spec fn played(s: State, mv: Move, history: Seq<u64>) -> State {
    choose|c: State| move_played(s, mv, history, c)
}

/// A move determines the position after it.
pub proof fn lemma_played(s: State, mv: Move, history: Seq<u64>, c: State)
    requires
        move_played(s, mv, history, c),
    ensures
        played(s, mv, history) == c,
{
    let d = played(s, mv, history);
    assert(move_played(s, mv, history, d));
    lemma_has_moves_same(c, d);
    assert forall|t: int| 0 <= t < 8 implies d.hash[t] == c.hash[t] by {
        assert(d.hash[t] == updated_hash(s, mv, t));
    }
    vstd::array::axiom_array_ext_equal(d.hash, c.hash);
    assert(d.hash =~= c.hash);
}

/// Whether `h` occurs in `history`.
pub fn history_contains(history: &Vec<u64>, h: u64) -> (r: bool)
    ensures
        r == history@.contains(h),
{
    let mut i: usize = 0;
    while i < history.len()
        invariant
            0 <= i <= history.len(),
            forall|j: int| 0 <= j < i ==> history@[j] != h,
        decreases history.len() - i,
    {
        if history[i] == h {
            return true;
        }
        i += 1;
    }
    false
}

proof fn lemma_special_zone(i: u128)
    by (bit_vector)
    requires
        i < 128,
        (SPECIAL_KING_ZONE >> i) & 1u128 == 1u128,
    ensures
        i == 31 || i == 39 || i == 40 || i == 41 || i == 49,
{
}

impl State {
    /// The opening position, white to move.
    pub fn new() -> (s: State)
        ensures
            s.white == 288801849471926272u128,
            s.black == CITADELS,
            s.king == THRONE,
            s.white_to_move,
            !s.win,
            !s.draw,
            hash_consistent(s),
    {
        let mut s = State {
            white: 288801849471926272u128,
            black: CITADELS,
            king: THRONE,
            white_to_move: true,
            win: false,
            draw: false,
            hash: [0; 8],
        };
        s.compute_full_hash();
        s
    }

    /// Reads a board drawn with one line per row ('W' white, 'B' black,
    /// 'K' king, anything else empty); white moves when a tenth line contains
    /// "turn: W".
    pub fn from_position_string(pos: &str) -> (s: State)
        requires
            board_text_ok(pos@),
        ensures
            forall|i: int| 0 <= i < 128 ==> #[trigger] bit(s.white, i) == text_white(pos@, i),
            forall|i: int| 0 <= i < 128 ==> #[trigger] bit(s.black, i) == text_black(pos@, i),
            forall|i: int| 0 <= i < 128 ==> #[trigger] bit(s.king, i) == text_king(pos@, i),
            s.white_to_move == text_white_to_move(pos@),
            !s.win,
            !s.draw,
            hash_consistent(s),
    {
        let chars = text_chars(pos);
        let lines = split_lines(&chars);
        let ghost tl = text_lines(pos@);
        let mut white: u128 = 0;
        let mut black: u128 = 0;
        let mut king: u128 = 0;
        let mut idx: usize = 0;
        proof {
            crate::bitops::lemma_zero_bits();
        }
        while idx < 81
            invariant
                tl == text_lines(pos@),
                board_text_ok(pos@),
                lines.len() == tl.len(),
                forall|i: int| 0 <= i < lines.len() ==> #[trigger] lines[i]@ == tl[i],
                idx <= 81,
                forall|i: int| 0 <= i < 128 ==> #[trigger] bit(white, i) == (i < idx && (cell_char(tl, i) == 'W'
                    || cell_char(tl, i) == 'K')),
                forall|i: int| 0 <= i < 128 ==> #[trigger] bit(black, i) == (i < idx && cell_char(tl, i) == 'B'),
                forall|i: int| 0 <= i < 128 ==> #[trigger] bit(king, i) == last_king(tl, i, idx as int),
            decreases 81 - idx,
        {
            let row = idx / 9;
            let col = idx % 9;
            assert(lines[row as int]@ == tl[row as int]);
            assert(tl[row as int].len() >= 9);
            let ch = lines[row][col];
            assert(ch == cell_char(tl, idx as int));
            let b: u128 = 1u128 << (idx as u128);
            proof {
                lemma_single(idx as int);
                lemma_bits(white, b);
                lemma_bits(black, b);
            }
            if ch == 'W' {
                white = white | b;
            } else if ch == 'B' {
                black = black | b;
            } else if ch == 'K' {
                white = white | b;
                king = b;
            }
            idx += 1;
        }
        let mut white_to_move = false;
        if lines.len() > 9 {
            let marker = vec!['t', 'u', 'r', 'n', ':', ' ', 'W'];
            assert(marker@ =~= white_turn_marker());
            assert(lines[9]@ == tl[9]);
            if contains_chars(&lines[9], &marker) {
                white_to_move = true;
            }
        }
        let mut s = State { white, black, king, white_to_move, win: false, draw: false, hash: [0; 8] };
        s.compute_full_hash();
        s
    }

    /// The position as text: nine rows of 'K', 'W', 'B', 'O' and the side to
    /// move, or the outcome of a finished game.
    pub fn to_position_string(&self) -> (out: String)
        ensures
            out@ == position_text(*self),
    {
        if self.win {
            if self.white_to_move {
                return String::from_str("BLACK HAS WON THE GAME");
            }
            return String::from_str("WHITE HAS WON THE GAME");
        }
        if self.draw {
            return String::from_str("IT'S A DRAW");
        }
        let mut output = String::new();
        let mut r: usize = 0;
        while r < 9
            invariant
                r <= 9,
                output@ == rows_text(*self, r as int),
            decreases 9 - r,
        {
            let mut c: usize = 0;
            let ghost start = output@;
            while c < 9
                invariant
                    r < 9,
                    c <= 9,
                    start == rows_text(*self, r as int),
                    output@ == start + Seq::new(c as nat, |j: int| square_char(*self, 9 * r + j)),
                decreases 9 - c,
            {
                let idx: u128 = (9 * r + c) as u128;
                let b: u128 = 1u128 << idx;
                proof {
                    reveal_strlit("K");
                    reveal_strlit("W");
                    reveal_strlit("B");
                    reveal_strlit("O");
                    crate::bitops::lemma_test_bit(self.king, idx as int);
                    crate::bitops::lemma_test_bit(self.white, idx as int);
                    crate::bitops::lemma_test_bit(self.black, idx as int);
                }
                if (self.king & b) != 0 {
                    output.append("K");
                } else if (self.white & b) != 0 {
                    output.append("W");
                } else if (self.black & b) != 0 {
                    output.append("B");
                } else {
                    output.append("O");
                }
                c += 1;
                assert(output@ =~= start + Seq::new(c as nat, |j: int| square_char(*self, 9 * r + j)));
            }
            proof {
                reveal_strlit("\n");
            }
            output.append("\n");
            r += 1;
            assert(output@ =~= rows_text(*self, r as int));
        }
        if self.white_to_move {
            output.append("turn: W");
        } else {
            output.append("turn: B");
        }
        output
    }

    /// Whether a black piece stands on (row, col).
    pub fn is_black(&self, row: u8, col: u8) -> (r: bool)
        requires
            9 * row + col < 128,
        ensures
            r == bit(self.black, 9 * row + col),
    {
        proof {
            crate::bitops::lemma_and_masks(self.black >> ((row * 9 + col) as u128), 0);
        }
        ((self.black >> ((row * 9 + col) as u128)) & 1) != 0
    }

    /// Whether a white piece (or the king) stands on (row, col).
    pub fn is_white(&self, row: u8, col: u8) -> (r: bool)
        requires
            9 * row + col < 128,
        ensures
            r == bit(self.white, 9 * row + col),
    {
        proof {
            crate::bitops::lemma_and_masks(self.white >> ((row * 9 + col) as u128), 0);
        }
        ((self.white >> ((row * 9 + col) as u128)) & 1) != 0
    }

    /// Whether the king stands on (row, col).
    pub fn is_king(&self, row: u8, col: u8) -> (r: bool)
        requires
            9 * row + col < 128,
        ensures
            r == bit(self.king, 9 * row + col),
    {
        proof {
            crate::bitops::lemma_and_masks(self.king >> ((row * 9 + col) as u128), 0);
        }
        ((self.king >> ((row * 9 + col) as u128)) & 1) != 0
    }

    /// Row and column of the king (of its lowest square; square 128 when
    /// there is no king).
    pub fn king_position(&self) -> (pos: (u8, u8))
        ensures
            pos.1 < 9,
            crate::bitops::lowest_bit(self.king, 9 * pos.0 + pos.1),
    {
        let index = crate::bitops::trailing_zeros(self.king) as u8;
        let row = index / 9;
        let col = index % 9;
        (row, col)
    }

    /// The first hash word.
    pub fn hash(&self) -> (h: u64)
        ensures
            h == self.hash[0],
    {
        self.hash[0]
    }

    /// The smallest of the hash words.
    pub fn canonical_hash(&self) -> (h: u64)
        ensures
            smallest_word(*self, h),
    {
        let mut best = self.hash[0];
        let mut i: usize = 1;
        while i < 8
            invariant
                1 <= i <= 8,
                exists|t: int| 0 <= t < i && best == self.hash[t],
                forall|t: int| 0 <= t < i ==> best <= self.hash[t],
            decreases 8 - i,
        {
            if self.hash[i] < best {
                best = self.hash[i];
            }
            i += 1;
        }
        best
    }

    /// Number of moves white could make in this position, at most
    /// `MOBILITY_CAP`.
    pub fn white_mobility(&self) -> (m: i32)
        ensures
            m == white_mobility_spec(*self),
    {
        let mut view = *self;
        view.white_to_move = true;
        let mut moves: Vec<Move> = Vec::new();
        view.generate_moves(&mut moves);
        assert(moves@ =~= legal_moves(view));
        if moves.len() < MOBILITY_CAP as usize {
            moves.len() as i32
        } else {
            MOBILITY_CAP
        }
    }

    fn piece_has_moves(&self, r: u8, c: u8) -> (res: bool)
        requires
            9 * r + c < 119,
        ensures
            res == can_step(*self, 9 * r + c),
    {
        let idx = (9 * r + c) as i8;
        let ghost from = 9 * r + c;
        let mut occupied = self.white | self.black | THRONE;
        proof {
            crate::bitops::lemma_test_bit(CITADELS, from);
            crate::bitops::lemma_mask_facts(occupied);
        }
        if (CITADELS & (1u128 << (idx as u32))) == 0 {
            occupied = occupied | CITADELS;
        } else {
            occupied = occupied | 0;
        }
        let occupied = occupied;
        assert(occupied == step_blockers(*self, from));
        extract_bit(!occupied, idx + 9) || extract_bit(!occupied, idx - 9) || extract_bit(
            !occupied,
            idx + 1,
        ) || extract_bit(!occupied, idx - 1)
    }

    /// Whether some piece of the side to move can step to a neighbouring square.
    pub fn has_moves(&self) -> (res: bool)
        requires
            bits_below(side_pieces(*self), 119),
        ensures
            res == side_has_moves(*self),
    {
        let mut pieces = if self.white_to_move {
            self.white
        } else {
            self.black
        };
        let ghost side = side_pieces(*self);
        let ghost mut p: int = 0;
        loop
            invariant
                side == side_pieces(*self),
                bits_below(side, 119),
                0 <= p <= 128,
                forall|j: int| #[trigger] bit(pieces, j) == (p <= j && bit(side, j)),
                forall|j: int| 0 <= j < p && #[trigger] bit(side, j) ==> !can_step(*self, j),
            decreases 128 - p,
        {
            let ghost before = pieces;
            match pop_piece(&mut pieces) {
                None => {
                    proof {
                        crate::bitops::lemma_zero_bits();
                        assert forall|j: int| 0 <= j < 128 && #[trigger] bit(side, j) implies !can_step(*self, j) by {
                            assert(bit(before, j) == (p <= j && bit(side, j)));
                        }
                    }
                    return false;
                },
                Some(idx) => {
                    proof {
                        assert(bit(before, idx as int));
                        lemma_bits(before, !(1u128 << (idx as u128)));
                        lemma_bits(1u128 << (idx as u128), 0);
                        lemma_single(idx as int);
                        assert(pieces == before & !(1u128 << (idx as u128)));
                        assert forall|j: int| #[trigger] bit(pieces, j) == (idx + 1 <= j && bit(side, j)) by {
                            assert(bit(before, j) == (p <= j && bit(side, j)));
                        }
                        assert forall|j: int| 0 <= j < idx + 1 && #[trigger] bit(side, j) implies !can_step(*self, j) || j == idx by {
                            assert(bit(before, j) == (p <= j && bit(side, j)));
                        }
                    }
                    let row = idx / 9;
                    let col = idx % 9;
                    if self.piece_has_moves(row, col) {
                        return true;
                    }
                    proof {
                        p = idx + 1;
                    }
                },
            }
        }
    }

    /// `h0` xored with the keys of the pieces of `kind` on `b`, in word `t`.
    fn xor_pieces(h0: u64, b: u128, kind: u8, t: usize) -> (h: u64)
        requires
            kind <= 2,
        ensures
            h == h0 ^ pieces_hash(b, kind as int, t as int),
    {
        let ghost f = piece_key(t as int, kind as int);
        let mut w = b;
        let mut h = h0;
        let ghost mut p: int = 0;
        proof {
            crate::bitops::lemma_xor64(h0, 0, 0);
        }
        loop
            invariant
                f == piece_key(t as int, kind as int),
                kind <= 2,
                0 <= p <= 128,
                forall|j: int| #[trigger] bit(w, j) == (p <= j && bit(b, j)),
                h == h0 ^ xor_upto(f, b, p),
            ensures
                h == h0 ^ pieces_hash(b, kind as int, t as int),
            decreases 128 - p,
        {
            let ghost before = w;
            match pop_piece(&mut w) {
                None => {
                    proof {
                        crate::bitops::lemma_zero_bits();
                        assert forall|j: int| p <= j < 128 implies !bit(b, j) by {
                            assert(bit(before, j) == (p <= j && bit(b, j)));
                        }
                        lemma_xor_gap(f, b, p, 128);
                    }
                    break;
                },
                Some(idx) => {
                    proof {
                        assert(bit(before, idx as int));
                        assert forall|j: int| p <= j < idx implies !bit(b, j) by {
                            assert(bit(before, j) == (p <= j && bit(b, j)));
                        }
                        lemma_xor_gap(f, b, p, idx as int);
                        lemma_bits(before, !(1u128 << (idx as u128)));
                        lemma_bits(1u128 << (idx as u128), 0);
                        lemma_single(idx as int);
                        assert(w == before & !(1u128 << (idx as u128)));
                        assert forall|j: int| #[trigger] bit(w, j) == (idx + 1 <= j && bit(b, j)) by {
                            assert(bit(before, j) == (p <= j && bit(b, j)));
                        }
                    }
                    let k = zobrist_key(t, kind, idx as usize);
                    proof {
                        crate::bitops::lemma_xor64(h0, xor_upto(f, b, idx as int), k);
                        assert(xor_upto(f, b, idx + 1) == xor_upto(f, b, idx as int) ^ k);
                        p = idx + 1;
                    }
                    h = h ^ k;
                },
            }
        }
        h
    }

    /// Recomputes every hash word from the position.
    pub fn compute_full_hash(&mut self)
        ensures
            hash_consistent(*final(self)),
            final(self).white == old(self).white,
            final(self).black == old(self).black,
            final(self).king == old(self).king,
            final(self).white_to_move == old(self).white_to_move,
            final(self).win == old(self).win,
            final(self).draw == old(self).draw,
    {
        for i in 0..8
            invariant
                self.white == old(self).white,
                self.black == old(self).black,
                self.king == old(self).king,
                self.white_to_move == old(self).white_to_move,
                self.win == old(self).win,
                self.draw == old(self).draw,
                forall|t: int| 0 <= t < i ==> self.hash[t] == #[trigger] full_hash(*self, t),
        {
            let mut h: u64 = 0;
            if self.white_to_move {
                h = h ^ zobrist_turn();
            }
            proof {
                crate::bitops::lemma_xor64(0, turn_key(), 0);
                crate::bitops::lemma_xor64(turn_key(), 0, 0);
                assert(h == (if self.white_to_move { turn_key() } else { 0u64 }));
            }
            h = Self::xor_pieces(h, self.white, 0, i);
            h = Self::xor_pieces(h, self.black, 1, i);
            h = Self::xor_pieces(h, self.king, 2, i);
            let ghost prev = *self;
            self.hash[i] = h;
            proof {
                assert forall|t: int| 0 <= t < i + 1 implies self.hash[t] == #[trigger] full_hash(*self, t) by {
                    assert(full_hash(*self, t) == full_hash(prev, t));
                    if t < i {
                        assert(self.hash[t] == prev.hash[t]);
                    }
                }
            }
        }
    }

    /// `h0` xored with the keys of `kind` for hash word `t` on the squares of
    /// `caps`.
    fn xor_keys(h0: u64, caps: u128, kind: u8, t: usize) -> (h: u64)
        requires
            kind <= 2,
        ensures
            h == h0 ^ xor_upto(piece_key(t as int, kind as int), caps, 128),
    {
        let ghost f = piece_key(t as int, kind as int);
        let mut w = caps;
        let mut h = h0;
        let ghost mut p: int = 0;
        proof {
            crate::bitops::lemma_xor64(h0, 0, 0);
        }
        loop
            invariant
                f == piece_key(t as int, kind as int),
                kind <= 2,
                0 <= p <= 128,
                forall|j: int| #[trigger] bit(w, j) == (p <= j && bit(caps, j)),
                h == h0 ^ xor_upto(f, caps, p),
            ensures
                h == h0 ^ xor_upto(piece_key(t as int, kind as int), caps, 128),
            decreases 128 - p,
        {
            let ghost before = w;
            match pop_piece(&mut w) {
                None => {
                    proof {
                        crate::bitops::lemma_zero_bits();
                        assert forall|j: int| p <= j < 128 implies !bit(caps, j) by {
                            assert(bit(before, j) == (p <= j && bit(caps, j)));
                        }
                        lemma_xor_gap(f, caps, p, 128);
                    }
                    break;
                },
                Some(idx) => {
                    proof {
                        assert(bit(before, idx as int));
                        assert forall|j: int| p <= j < idx implies !bit(caps, j) by {
                            assert(bit(before, j) == (p <= j && bit(caps, j)));
                        }
                        lemma_xor_gap(f, caps, p, idx as int);
                        lemma_bits(before, !(1u128 << (idx as u128)));
                        lemma_bits(1u128 << (idx as u128), 0);
                        lemma_single(idx as int);
                        assert(w == before & !(1u128 << (idx as u128)));
                        assert forall|j: int| #[trigger] bit(w, j) == (idx + 1 <= j && bit(caps, j)) by {
                            assert(bit(before, j) == (p <= j && bit(caps, j)));
                        }
                    }
                    let k = zobrist_key(t, kind, idx as usize);
                    proof {
                        assert(k == f(idx as int));
                        crate::bitops::lemma_xor64(h0, xor_upto(f, caps, idx as int), k);
                        assert(xor_upto(f, caps, idx + 1) == xor_upto(f, caps, idx as int) ^ k);
                        p = idx + 1;
                    }
                    h = h ^ k;
                },
            }
        }
        h
    }

    /// `kind_delta` of the bitboard `b` for `mv`.
    fn kind_delta_exec(b: u128, kind: u8, mv: &Move, t: usize) -> (d: u64)
        requires
            kind <= 2,
            9 * mv.fr + mv.fc < 81,
            9 * mv.tr + mv.tc < 81,
        ensures
            d == kind_delta(b, kind as int, *mv, t as int),
    {
        let fr_idx: u32 = (mv.fr * 9 + mv.fc) as u32;
        let tr_idx: u32 = (mv.tr * 9 + mv.tc) as u32;
        proof {
            crate::bitops::lemma_test_bit(b, fr_idx as int);
        }
        let moved: u64 = if (b & (1u128 << fr_idx)) != 0 {
            zobrist_key(t, kind, fr_idx as usize) ^ zobrist_key(t, kind, tr_idx as usize)
        } else {
            0
        };
        Self::xor_keys(moved, b & mv.captured, kind, t)
    }

    /// Updates the hash words for `mv`, played from this position.
    pub fn update_hash(&mut self, mv: &Move)
        requires
            9 * mv.fr + mv.fc < 81,
            9 * mv.tr + mv.tc < 81,
        ensures
            forall|t: int| 0 <= t < 8 ==> final(self).hash[t] == #[trigger] updated_hash(*old(self), *mv, t),
            final(self).white == old(self).white,
            final(self).black == old(self).black,
            final(self).king == old(self).king,
            final(self).white_to_move == old(self).white_to_move,
            final(self).win == old(self).win,
            final(self).draw == old(self).draw,
    {
        for i in 0..8
            invariant
                self.white == old(self).white,
                self.black == old(self).black,
                self.king == old(self).king,
                self.white_to_move == old(self).white_to_move,
                self.win == old(self).win,
                self.draw == old(self).draw,
                9 * mv.fr + mv.fc < 81,
                9 * mv.tr + mv.tc < 81,
                forall|t: int| 0 <= t < i ==> self.hash[t] == #[trigger] updated_hash(*old(self), *mv, t),
                forall|t: int| i <= t < 8 ==> self.hash[t] == old(self).hash[t],
        {
            let mut h = self.hash[i] ^ zobrist_turn();
            h = h ^ Self::kind_delta_exec(self.white, 0, mv, i);
            h = h ^ Self::kind_delta_exec(self.black, 1, mv, i);
            h = h ^ Self::kind_delta_exec(self.king, 2, mv, i);
            self.hash[i] = h;
        }
    }

    /// Marks the game as won by the side that just moved.
    pub fn set_win(&mut self)
        ensures
            *final(self) == (State { win: true, ..*old(self) }),
    {
        self.win = true;
    }

    /// Marks the game as drawn.
    pub fn set_draw(&mut self)
        ensures
            *final(self) == (State { draw: true, ..*old(self) }),
    {
        self.draw = true;
    }

    /// Plays `mv`: updates the hash words, moves the piece, removes the
    /// captured pieces and passes the turn; the game is won by the mover when
    /// the king left the inner area (or was captured) or the opponent cannot
    /// move, and drawn when the new position's hash occurred before.
    pub fn apply_move(&mut self, mv: &Move, history: &Vec<u64>)
        requires
            9 * mv.fr + mv.fc < 81,
            9 * mv.tr + mv.tc < 81,
            bits_below(
                if old(self).white_to_move {
                    old(self).black
                } else {
                    old(self).white
                },
                119,
            ),
        ensures
            move_played(*old(self), *mv, history@, *final(self)),
            !final(self).win ==> (final(self).draw <==> (old(self).draw || history@.contains(final(self).hash[0]))),
    {
        self.update_hash(mv);
        let fr_idx: i8 = (mv.fr * 9 + mv.fc) as i8;
        let to_idx: i8 = (mv.tr * 9 + mv.tc) as i8;
        let from_mask: u128 = 1u128 << (fr_idx as u32);
        let to_mask: u128 = 1u128 << (to_idx as u32);
        let white_pawn: u128 = if extract_bit(self.white, fr_idx) { to_mask } else { 0 };
        self.white = self.white | white_pawn;
        self.white = self.white & !from_mask;
        let black_pawn: u128 = if extract_bit(self.black, fr_idx) { to_mask } else { 0 };
        self.black = self.black | black_pawn;
        self.black = self.black & !from_mask;
        let king_pawn: u128 = if extract_bit(self.king, fr_idx) { to_mask } else { 0 };
        self.king = self.king | king_pawn;
        self.king = self.king & !from_mask;

        self.white = self.white & !mv.captured;
        self.black = self.black & !mv.captured;
        self.king = self.king & !mv.captured;

        self.white_to_move = !self.white_to_move;

        proof {
            let moved = if old(self).white_to_move { old(self).black } else { old(self).white };
            let now = side_pieces(*self);
            assert(now == move_bits(moved, fr_idx as int, to_idx as int, mv.captured));
            lemma_bits(moved | (if bit(moved, fr_idx as int) { to_mask } else { 0u128 }), !from_mask);
            lemma_bits(moved, if bit(moved, fr_idx as int) { to_mask } else { 0u128 });
            lemma_bits((moved | (if bit(moved, fr_idx as int) { to_mask } else { 0u128 })) & !from_mask, !mv.captured);
            lemma_single(to_idx as int);
            crate::bitops::lemma_zero_bits();
            assert forall|i: int| 119 <= i < 128 implies !#[trigger] bit(now, i) by {
                assert(!bit(moved, i));
            }
        }
        let ghost mid = *self;
        if self.king & ALIVE_KING_ZONE == 0 || !self.has_moves() {
            self.set_win();
        } else if history_contains(history, self.hash[0]) {
            self.set_draw();
        }
        proof {
            lemma_has_moves_same(mid, *self);
        }
    }

    fn compute_captures(&self, tr: u8, tc: u8) -> (res: u128)
        requires
            tr < 9,
            tc < 9,
        ensures
            res == captures(*self, tr as int, tc as int),
    {
        let tr = tr as i8;
        let tc = tc as i8;
        let special = self.king & SPECIAL_KING_ZONE & bit_to_mask(!self.white_to_move);
        let opposite = (bit_to_mask(self.white_to_move) & self.black) | ((bit_to_mask(
            !self.white_to_move,
        ) & self.white) ^ special);
        let own = (bit_to_mask(self.white_to_move) & self.white) | (bit_to_mask(!self.white_to_move)
            & self.black) | KILLER;
        let new_flankers = own | (1u128 << ((tr * 9 + tc) as u32));
        proof {
            crate::bitops::lemma_mask_facts(self.white);
            crate::bitops::lemma_mask_facts(self.black);
            crate::bitops::lemma_mask_facts(self.king & SPECIAL_KING_ZONE);
            crate::bitops::lemma_mask_facts(self.white ^ special);
            crate::bitops::lemma_mask_facts(0u128);
            assert(special == special_king(*self));
            assert(opposite == capturable(*self));
            assert(new_flankers == flankers(*self, tr as int, tc as int));
        }
        let mut res: u128 = 0;
        res = res | self.capture_dir(tr, tc, -1, 0, opposite, special, new_flankers);
        proof {
            crate::bitops::lemma_mask_facts(captures_dir(*self, tr as int, tc as int, -1, 0));
        }
        res = res | self.capture_dir(tr, tc, 1, 0, opposite, special, new_flankers);
        res = res | self.capture_dir(tr, tc, 0, -1, opposite, special, new_flankers);
        res = res | self.capture_dir(tr, tc, 0, 1, opposite, special, new_flankers);
        res
    }

    /// Appends the moves of the piece on (r, c) sliding in direction (dr, dc).
    fn push_ray(&self, r: u8, c: u8, dr: i8, dc: i8, occupied: u128, moves: &mut Vec<Move>)
        requires
            9 * r + c < 128,
            c < 9,
            is_unit_dir(dr as int, dc as int),
            occupied == move_blockers(*self, sq(r as int, c as int)),
        ensures
            final(moves)@ == old(moves)@ + ray(
                *self,
                r as int,
                c as int,
                r + dr,
                c + dc,
                dr as int,
                dc as int,
            ),
    {
        let ghost s = *self;
        let ghost target = ray(s, r as int, c as int, r + dr, c + dc, dr as int, dc as int);
        let mut curr_r: i8 = r as i8 + dr;
        let mut curr_c: i8 = c as i8 + dc;
        loop
            invariant
                is_unit_dir(dr as int, dc as int),
                occupied == move_blockers(s, sq(r as int, c as int)),
                s == *self,
                -1 <= curr_r <= 15,
                -1 <= curr_c <= 9,
                9 * r + c < 128,
                moves@ + ray(s, r as int, c as int, curr_r as int, curr_c as int, dr as int, dc as int)
                    == old(moves)@ + target,
            ensures
                moves@ == old(moves)@ + target,
            decreases ray_measure(curr_r as int, curr_c as int, dr as int, dc as int),
        {
            if !(curr_r >= 0 && curr_r < 9 && curr_c >= 0 && curr_c < 9) {
                assert(moves@ + seq![] =~= moves@);
                break;
            }
            let tr = curr_r as u8;
            let tc = curr_c as u8;
            let idx: u32 = (9 * tr + tc) as u32;
            proof {
                crate::bitops::lemma_test_bit(occupied, idx as int);
            }
            if (occupied & (1u128 << idx)) != 0 {
                assert(moves@ + seq![] =~= moves@);
                break;
            }
            let captured = self.compute_captures(tr, tc);
            let mv = Move { fr: r, fc: c, tr, tc, captured };
            proof {
                let rest = ray(s, r as int, c as int, curr_r + dr, curr_c + dc, dr as int, dc as int);
                assert(ray(s, r as int, c as int, curr_r as int, curr_c as int, dr as int, dc as int)
                    == seq![mv] + rest);
                assert(moves@.push(mv) + rest =~= moves@ + (seq![mv] + rest));
            }
            moves.push(mv);
            curr_r = curr_r + dr;
            curr_c = curr_c + dc;
        }
    }

    fn generate_piece_moves(&self, r: u8, c: u8, moves: &mut Vec<Move>)
        requires
            9 * r + c < 128,
            c < 9,
        ensures
            final(moves)@ == old(moves)@ + piece_moves(*self, r as int, c as int),
    {
        let idx: u32 = (r * 9 + c) as u32;
        let mut occupied = self.white | self.black | THRONE;
        proof {
            crate::bitops::lemma_test_bit(HALF_CITADELS_1, idx as int);
            crate::bitops::lemma_test_bit(HALF_CITADELS_2, idx as int);
            crate::bitops::lemma_mask_facts(occupied);
        }
        if (HALF_CITADELS_1 & (1u128 << idx)) == 0 {
            occupied = occupied | HALF_CITADELS_1;
        } else {
            occupied = occupied | 0;
        }
        proof {
            crate::bitops::lemma_mask_facts(occupied);
        }
        if (HALF_CITADELS_2 & (1u128 << idx)) == 0 {
            occupied = occupied | HALF_CITADELS_2;
        } else {
            occupied = occupied | 0;
        }
        let occupied = occupied;
        assert(occupied == move_blockers(*self, sq(r as int, c as int)));
        self.push_ray(r, c, 1, 0, occupied, moves);
        self.push_ray(r, c, -1, 0, occupied, moves);
        self.push_ray(r, c, 0, 1, occupied, moves);
        self.push_ray(r, c, 0, -1, occupied, moves);
        assert(moves@ =~= old(moves)@ + piece_moves(*self, r as int, c as int));
    }

    /// Appends the legal moves of the side to move, piece by piece in
    /// square order, each piece's moves down, up, right, left, nearest first.
    pub fn generate_moves(&self, moves: &mut Vec<Move>)
        ensures
            final(moves)@ == old(moves)@ + legal_moves(*self),
    {
        let mut pieces = if self.white_to_move {
            self.white
        } else {
            self.black
        };
        let ghost side = side_pieces(*self);
        let ghost mut p: int = 0;
        loop
            invariant
                side == side_pieces(*self),
                0 <= p <= 128,
                forall|j: int| #[trigger] bit(pieces, j) == (p <= j && bit(side, j)),
                moves@ == old(moves)@ + moves_upto(*self, p),
            ensures
                moves@ == old(moves)@ + legal_moves(*self),
            decreases 128 - p,
        {
            proof {
                reveal(legal_moves);
            }
            let ghost before = pieces;
            match crate::bitops::pop_piece(&mut pieces) {
                None => {
                    proof {
                        crate::bitops::lemma_zero_bits();
                        assert forall|j: int| p <= j < 128 implies !bit(side, j) by {
                            assert(bit(before, j) == (p <= j && bit(side, j)));
                        }
                        lemma_moves_gap(*self, p, 128);
                    }
                    break;
                },
                Some(idx) => {
                    proof {
                        assert(bit(before, idx as int));
                        assert forall|j: int| p <= j < idx implies !bit(side, j) by {
                            assert(bit(before, j) == (p <= j && bit(side, j)));
                        }
                        lemma_moves_gap(*self, p, idx as int);
                        lemma_bits(before, !(1u128 << (idx as u128)));
                        lemma_bits(1u128 << (idx as u128), 0);
                        lemma_single(idx as int);
                        assert(pieces == before & !(1u128 << (idx as u128)));
                        assert forall|j: int| #[trigger] bit(pieces, j) == (idx + 1 <= j && bit(side, j)) by {
                            assert(bit(before, j) == (p <= j && bit(side, j)));
                            if 0 <= j < 128 {
                                crate::bitops::lemma_bit_not(1u128 << (idx as u128), j as u128);
                            }
                        }
                    }
                    let row = idx / 9;
                    let col = idx % 9;
                    self.generate_piece_moves(row, col, moves);
                    proof {
                        assert(moves_upto(*self, idx + 1) == moves_upto(*self, idx as int) + piece_moves(
                            *self,
                            (idx as int) / 9,
                            (idx as int) % 9,
                        ));
                        assert(moves@ =~= old(moves)@ + moves_upto(*self, idx + 1));
                        p = idx + 1;
                    }
                },
            }
        }
    }

    fn capture_dir(
        &self,
        tr: i8,
        tc: i8,
        dr: i8,
        dc: i8,
        opposite: u128,
        special: u128,
        new_flankers: u128,
    ) -> (res: u128)
        requires
            0 <= tr < 9,
            0 <= tc < 9,
            -1 <= dr <= 1,
            -1 <= dc <= 1,
            opposite == capturable(*self),
            special == special_king(*self),
            new_flankers == flankers(*self, tr as int, tc as int),
        ensures
            res == captures_dir(*self, tr as int, tc as int, dr as int, dc as int),
    {
        let capr: i8 = tr + dr;
        let capc: i8 = tc + dc;
        let flankr: i8 = tr + 2 * dr;
        let flankc: i8 = tc + 2 * dc;
        let cap_idx = capr * 9 + capc;
        let flank_idx = flankr * 9 + flankc;

        let bounds = 0 <= flankr && flankr <= 8 && 0 <= flankc && flankc <= 8;
        let flanked = extract_bit(new_flankers, flank_idx);
        let cap_piece = extract_bit_inplace(opposite, cap_idx);
        let pawn_mask = bit_to_mask(bounds && flanked);
        let pawn = cap_piece & pawn_mask;

        let killing_king = extract_bit(new_flankers, cap_idx + 9) && extract_bit(
            new_flankers,
            cap_idx - 9,
        ) && extract_bit(new_flankers, cap_idx + 1) && extract_bit(new_flankers, cap_idx - 1);
        let cap_king = extract_bit_inplace(special, cap_idx);
        let king_mask = bit_to_mask(killing_king);
        let king = cap_king & king_mask;
        proof {
            let s = *self;
            let cr = tr + dr;
            let cc = tc + dc;
            crate::bitops::lemma_zero_bits();
            crate::bitops::lemma_mask_facts(cap_piece);
            crate::bitops::lemma_mask_facts(cap_king);
            crate::bitops::lemma_mask_facts(1u128 << (sq(cr, cc) as u128));
            crate::bitops::lemma_mask_facts(0u128);
            lemma_bits(s.king, SPECIAL_KING_ZONE);
            assert(cap_idx as int == sq(cr, cc));
            if 0 <= cap_idx && bit(special, cap_idx as int) {
                assert(bit(s.king & SPECIAL_KING_ZONE, cap_idx as int));
                lemma_special_zone(cap_idx as u128);
                assert(on_board(cr, cc));
            }
            let spec_pawn = on_board(tr + 2 * dr, tc + 2 * dc) && bit(capturable(s), sq(cr, cc))
                && bit(new_flankers, sq(tr + 2 * dr, tc + 2 * dc));
            let spec_king = on_board(cr, cc) && bit(special_king(s), sq(cr, cc)) && bit(
                new_flankers,
                sq(cr + 1, cc),
            ) && bit(new_flankers, sq(cr - 1, cc)) && bit(new_flankers, sq(cr, cc + 1)) && bit(
                new_flankers,
                sq(cr, cc - 1),
            );
            assert(pawn == (if spec_pawn { 1u128 << (sq(cr, cc) as u128) } else { 0u128 }));
            assert(king == (if spec_king { 1u128 << (sq(cr, cc) as u128) } else { 0u128 }));
        }
        pawn | king
    }
}

} // verus!
