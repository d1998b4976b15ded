//! Properties of the rules that span several functions.
use vstd::prelude::*;
use crate::bitops::{bit, lemma_bits, popcount, popcount_upto};
use crate::zobrist::{zkey, turn_key};
use crate::board::{well_drawn, drawn_square, square_symbol, black_turn_marker, move_played, hash_consistent, captures_dir, capturable, special_king, SPECIAL_KING_ZONE, rows_text, square_char, position_text, board_text_ok, text_white, text_black, text_king, text_white_to_move, white_turn_marker, cell_char, bits_below, is_unit_dir, ray_measure, captures, Move, move_from, move_to, move_bits, full_hash, position_hash, updated_hash, kind_delta, xor_upto, piece_key, State, ray, on_board, move_blockers, sq, step_blockers, THRONE, CITADELS, HALF_CITADELS_1, HALF_CITADELS_2, piece_moves, can_step, moves_upto, side_has_moves, side_pieces, legal_moves};

use crate::text::{lines_from, newline_at, strip_cr, text_lines};

verus! {

proof fn lemma_ray_first(s: State, r: int, c: int, tr: int, tc: int, dr: int, dc: int)
    requires
        ray(s, r, c, tr, tc, dr, dc).len() > 0,
    ensures
        on_board(tr, tc),
        !bit(move_blockers(s, sq(r, c)), sq(tr, tc)),
{
}

proof fn lemma_blockers_cover(s: State, from: int, j: int)
    requires
        0 <= j < 128,
        bit(step_blockers(s, from), j),
    ensures
        bit(move_blockers(s, from), j),
{
    citadel_halves();
    lemma_bits(s.white, s.black);
    lemma_bits(s.white | s.black, THRONE);
    lemma_bits(s.white | s.black | THRONE, CITADELS);
    lemma_bits(HALF_CITADELS_1, HALF_CITADELS_2);
    lemma_bits(HALF_CITADELS_1, CITADELS);
    lemma_bits(HALF_CITADELS_2, CITADELS);
    lemma_bits(s.white | s.black | THRONE, 0);
    let m1 = if bit(HALF_CITADELS_1, from) { 0u128 } else { HALF_CITADELS_1 };
    let m2 = if bit(HALF_CITADELS_2, from) { 0u128 } else { HALF_CITADELS_2 };
    lemma_bits(s.white | s.black | THRONE, m1);
    lemma_bits(s.white | s.black | THRONE | m1, m2);
    crate::bitops::lemma_zero_bits();
    assert(bit(CITADELS, from) ==> bit(HALF_CITADELS_1 | HALF_CITADELS_2, from));
}

/// The citadel halves together make up the citadels.
proof fn citadel_halves()
    ensures
        HALF_CITADELS_1 | HALF_CITADELS_2 == CITADELS,
        HALF_CITADELS_1 & CITADELS == HALF_CITADELS_1,
        HALF_CITADELS_2 & CITADELS == HALF_CITADELS_2,
{
    assert(HALF_CITADELS_1 | HALF_CITADELS_2 == CITADELS && HALF_CITADELS_1 & CITADELS
        == HALF_CITADELS_1 && HALF_CITADELS_2 & CITADELS == HALF_CITADELS_2) by (bit_vector);
}

proof fn lemma_piece_moves_step(s: State, i: int)
    requires
        0 <= i < 128,
        piece_moves(s, i / 9, i % 9).len() > 0,
    ensures
        can_step(s, i),
{
    let r = i / 9;
    let c = i % 9;
    let occ = step_blockers(s, i);
    assert(sq(r, c) == i);
    if ray(s, r, c, r + 1, c, 1, 0).len() > 0 {
        lemma_ray_first(s, r, c, r + 1, c, 1, 0);
        if bit(occ, i + 9) {
            lemma_blockers_cover(s, i, i + 9);
        }
        crate::bitops::lemma_bit_not(occ, (i + 9) as u128);
    } else if ray(s, r, c, r - 1, c, -1, 0).len() > 0 {
        lemma_ray_first(s, r, c, r - 1, c, -1, 0);
        if bit(occ, i - 9) {
            lemma_blockers_cover(s, i, i - 9);
        }
        crate::bitops::lemma_bit_not(occ, (i - 9) as u128);
    } else if ray(s, r, c, r, c + 1, 0, 1).len() > 0 {
        lemma_ray_first(s, r, c, r, c + 1, 0, 1);
        if bit(occ, i + 1) {
            lemma_blockers_cover(s, i, i + 1);
        }
        crate::bitops::lemma_bit_not(occ, (i + 1) as u128);
    } else {
        assert(ray(s, r, c, r, c - 1, 0, -1).len() > 0);
        lemma_ray_first(s, r, c, r, c - 1, 0, -1);
        if bit(occ, i - 1) {
            lemma_blockers_cover(s, i, i - 1);
        }
        crate::bitops::lemma_bit_not(occ, (i - 1) as u128);
    }
}

proof fn lemma_upto_step(s: State, n: int)
    requires
        0 <= n <= 128,
        moves_upto(s, n).len() > 0,
    ensures
        side_has_moves(s),
    decreases n,
{
    if n > 0 {
        if moves_upto(s, n - 1).len() > 0 {
            lemma_upto_step(s, n - 1);
        } else {
            let i = n - 1;
            assert(bit(side_pieces(s), i) && piece_moves(s, i / 9, i % 9).len() > 0);
            lemma_piece_moves_step(s, i);
        }
    }
}

/// When the side to move has a legal move, `has_moves` reports that it can move.
pub proof fn lemma_legal_move_implies_has_moves(s: State)
    requires
        legal_moves(s).len() > 0,
    ensures
        side_has_moves(s),
{
    reveal(legal_moves);
    lemma_upto_step(s, 128);
}


proof fn lemma_xor_step(x: u64, y: u64, k: u64, a: bool, b: bool)
    by (bit_vector)
    ensures
        (x ^ y) ^ (if a != b { k } else { 0u64 }) == (x ^ (if a { k } else { 0u64 })) ^ (y ^ (if b {
            k
        } else {
            0u64
        })),
{
}

/// Hashing a bitboard is linear in exclusive-or.
pub proof fn lemma_xor_linear(f: spec_fn(int) -> u64, a: u128, b: u128, n: int)
    requires
        0 <= n <= 128,
    ensures
        xor_upto(f, a ^ b, n) == xor_upto(f, a, n) ^ xor_upto(f, b, n),
    decreases n,
{
    if n == 0 {
        crate::bitops::lemma_xor64(0, 0, 0);
    } else {
        lemma_xor_linear(f, a, b, n - 1);
        lemma_bits(a, b);
        lemma_xor_step(xor_upto(f, a, n - 1), xor_upto(f, b, n - 1), f(n - 1), bit(a, n - 1), bit(b, n - 1));
    }
}

/// Hashing a single square gives its key.
pub proof fn lemma_xor_single(f: spec_fn(int) -> u64, q: int, n: int)
    requires
        0 <= q < 128,
        0 <= n <= 128,
    ensures
        xor_upto(f, 1u128 << (q as u128), n) == (if q < n { f(q) } else { 0u64 }),
    decreases n,
{
    crate::bitops::lemma_single(q);
    if n > 0 {
        lemma_xor_single(f, q, n - 1);
        crate::bitops::lemma_xor64(f(q), 0, 0);
        crate::bitops::lemma_xor64(0, f(q), 0);
        crate::bitops::lemma_xor64(0, 0, 0);
    }
}

proof fn lemma_turn_flip(tk: u64, z: u64, wtm: bool)
    by (bit_vector)
    requires
        tk == (if wtm { z } else { 0u64 }),
    ensures
        (if !wtm { z } else { 0u64 }) == tk ^ z,
{
}

/// The board after the move, as a sum of changes.
proof fn lemma_move_bits_xor(b: u128, f: int, t: int, c: u128)
    requires
        0 <= f < 81,
        0 <= t < 81,
        f != t,
        !bit(b, t),
        !bit(c, f),
        !bit(c, t),
    ensures
        move_bits(b, f, t, c) == (if bit(b, f) {
            ((b ^ (1u128 << (f as u128))) ^ (1u128 << (t as u128))) ^ (b & c)
        } else {
            b ^ (b & c)
        }),
{
    let sf = 1u128 << (f as u128);
    let st = 1u128 << (t as u128);
    let moved = move_bits(b, f, t, c);
    let expected = if bit(b, f) { ((b ^ sf) ^ st) ^ (b & c) } else { b ^ (b & c) };
    crate::bitops::lemma_single(f);
    crate::bitops::lemma_single(t);
    crate::bitops::lemma_zero_bits();
    let add = if bit(b, f) { st } else { 0u128 };
    lemma_bits(b, add);
    lemma_bits(b | add, !sf);
    lemma_bits((b | add) & !sf, !c);
    lemma_bits(sf, 0);
    lemma_bits(c, 0);
    lemma_bits(b, sf);
    lemma_bits(b ^ sf, st);
    lemma_bits((b ^ sf) ^ st, b & c);
    lemma_bits(b, c);
    lemma_bits(b, b & c);
    assert forall|i: int| 0 <= i < 128 implies bit(moved, i) == bit(expected, i) by {}
    crate::bitops::lemma_bit_ext(moved, expected);
}

/// Hash of a bitboard after a move, from the hash before.
proof fn lemma_moved_hash(fk: spec_fn(int) -> u64, b: u128, f: int, t: int, c: u128)
    requires
        0 <= f < 81,
        0 <= t < 81,
        f != t,
        !bit(b, t),
        !bit(c, f),
        !bit(c, t),
    ensures
        xor_upto(fk, move_bits(b, f, t, c), 128) == (if bit(b, f) {
            ((xor_upto(fk, b, 128) ^ fk(f)) ^ fk(t)) ^ xor_upto(fk, b & c, 128)
        } else {
            xor_upto(fk, b, 128) ^ xor_upto(fk, b & c, 128)
        }),
{
    let sf = 1u128 << (f as u128);
    let st = 1u128 << (t as u128);
    lemma_move_bits_xor(b, f, t, c);
    lemma_xor_single(fk, f, 128);
    lemma_xor_single(fk, t, 128);
    if bit(b, f) {
        lemma_xor_linear(fk, (b ^ sf) ^ st, b & c, 128);
        lemma_xor_linear(fk, b ^ sf, st, 128);
        lemma_xor_linear(fk, b, sf, 128);
    } else {
        lemma_xor_linear(fk, b, b & c, 128);
    }
}

proof fn lemma_hash_algebra(hs: u64, tk: u64, pw: u64, pb: u64, pk: u64, dw: u64, db: u64, dk: u64, z: u64, tk2: u64)
    by (bit_vector)
    requires
        hs == ((tk ^ pw) ^ pb) ^ pk,
        tk2 == tk ^ z,
    ensures
        (((hs ^ z) ^ dw) ^ db) ^ dk == ((tk2 ^ (pw ^ dw)) ^ (pb ^ db)) ^ (pk ^ dk),
{
}

/// A bitboard's keys after a move: its keys before, changed by its
/// `kind_delta`.
proof fn lemma_kind_delta(b: u128, kind: int, mv: Move, t: int)
    requires
        0 <= move_from(mv) < 81,
        0 <= move_to(mv) < 81,
        move_from(mv) != move_to(mv),
        !bit(b, move_to(mv)),
        !bit(mv.captured, move_from(mv)),
        !bit(mv.captured, move_to(mv)),
    ensures
        xor_upto(piece_key(t, kind), move_bits(b, move_from(mv), move_to(mv), mv.captured), 128) == xor_upto(
            piece_key(t, kind),
            b,
            128,
        ) ^ kind_delta(b, kind, mv, t),
{
    let fk = piece_key(t, kind);
    let f = move_from(mv);
    let to = move_to(mv);
    let x = xor_upto(fk, b, 128);
    let xc = xor_upto(fk, b & mv.captured, 128);
    lemma_moved_hash(fk, b, f, to, mv.captured);
    lemma_xor_assoc(x, fk(f), fk(to), xc);
    assert(fk(f) == zkey(t, kind, f));
    assert(fk(to) == zkey(t, kind, to));
}

proof fn lemma_xor_assoc(x: u64, a: u64, b: u64, c: u64)
    by (bit_vector)
    ensures
        ((x ^ a) ^ b) ^ c == x ^ ((a ^ b) ^ c),
        x ^ (0u64 ^ c) == x ^ c,
{
}

/// The incremental update of a hash word agrees with the full hash of the
/// new position, when the moved-to square is empty and no captured square
/// is one of the two squares of the move.
pub proof fn lemma_incremental_hash(s: State, mv: Move, t: int)
    requires
        0 <= t < 8,
        s.hash[t] == full_hash(s, t),
        0 <= move_from(mv) < 81,
        0 <= move_to(mv) < 81,
        move_from(mv) != move_to(mv),
        !bit(s.white, move_to(mv)),
        !bit(s.black, move_to(mv)),
        !bit(s.king, move_to(mv)),
        !bit(mv.captured, move_from(mv)),
        !bit(mv.captured, move_to(mv)),
    ensures
        updated_hash(s, mv, t) == position_hash(
            move_bits(s.white, move_from(mv), move_to(mv), mv.captured),
            move_bits(s.black, move_from(mv), move_to(mv), mv.captured),
            move_bits(s.king, move_from(mv), move_to(mv), mv.captured),
            !s.white_to_move,
            t,
        ),
{
    let tk = if s.white_to_move { turn_key() } else { 0u64 };
    let z = turn_key();
    lemma_kind_delta(s.white, 0, mv, t);
    lemma_kind_delta(s.black, 1, mv, t);
    lemma_kind_delta(s.king, 2, mv, t);
    lemma_turn_flip(tk, z, s.white_to_move);
    lemma_hash_algebra(
        s.hash[t],
        tk,
        xor_upto(piece_key(t, 0), s.white, 128),
        xor_upto(piece_key(t, 1), s.black, 128),
        xor_upto(piece_key(t, 2), s.king, 128),
        kind_delta(s.white, 0, mv, t),
        kind_delta(s.black, 1, mv, t),
        kind_delta(s.king, 2, mv, t),
        z,
        if !s.white_to_move { turn_key() } else { 0u64 },
    );
}

/// Every bitboard of the position lies within the 81 squares.
pub open spec fn board_ok(s: State) -> bool {
    bits_below(s.white, 81) && bits_below(s.black, 81) && bits_below(s.king, 81)
}

/// What every legal move satisfies.
pub open spec fn move_facts(s: State, m: Move) -> bool {
    &&& m.fr < 9 && m.fc < 9 && m.tr < 9 && m.tc < 9
    &&& bit(side_pieces(s), move_from(m))
    &&& !bit(s.white, move_to(m)) && !bit(s.black, move_to(m))
    &&& m.fr == m.tr || m.fc == m.tc
    &&& move_from(m) != move_to(m)
    &&& m.captured == captures(s, m.tr as int, m.tc as int)
}

proof fn lemma_ray_facts(s: State, r: int, c: int, tr: int, tc: int, dr: int, dc: int, m: Move)
    requires
        ray(s, r, c, tr, tc, dr, dc).contains(m),
    ensures
        m.fr == r as u8,
        m.fc == c as u8,
        on_board(m.tr as int, m.tc as int),
        !bit(move_blockers(s, sq(r, c)), move_to(m)),
        m.captured == captures(s, m.tr as int, m.tc as int),
        dc == 0 ==> m.tc == tc,
        dr == 0 ==> m.tr == tr,
        dc == 0 && dr > 0 ==> m.tr >= tr,
        dc == 0 && dr < 0 ==> m.tr <= tr,
        dr == 0 && dc > 0 ==> m.tc >= tc,
        dr == 0 && dc < 0 ==> m.tc <= tc,
    decreases ray_measure(tr, tc, dr, dc),
{
    let rest = ray(s, r, c, tr + dr, tc + dc, dr, dc);
    let first = Move { fr: r as u8, fc: c as u8, tr: tr as u8, tc: tc as u8, captured: captures(s, tr, tc) };
    assert(ray(s, r, c, tr, tc, dr, dc) == seq![first] + rest);
    if m != first {
        let k = choose|k: int| 0 <= k < ray(s, r, c, tr, tc, dr, dc).len() && ray(s, r, c, tr, tc, dr, dc)[k] == m;
        assert(rest[k - 1] == m);
        assert(rest.contains(m));
        lemma_ray_facts(s, r, c, tr + dr, tc + dc, dr, dc, m);
    }
}

proof fn lemma_piece_move_facts(s: State, i: int, m: Move)
    requires
        board_ok(s),
        0 <= i < 128,
        bit(side_pieces(s), i),
        piece_moves(s, i / 9, i % 9).contains(m),
    ensures
        move_facts(s, m),
{
    let r = i / 9;
    let c = i % 9;
    assert(i < 81) by {
        assert(bits_below(side_pieces(s), 81));
    }
    let a = ray(s, r, c, r + 1, c, 1, 0);
    let b = ray(s, r, c, r - 1, c, -1, 0);
    let d = ray(s, r, c, r, c + 1, 0, 1);
    let e = ray(s, r, c, r, c - 1, 0, -1);
    let k = choose|k: int| 0 <= k < piece_moves(s, r, c).len() && piece_moves(s, r, c)[k] == m;
    if k < a.len() {
        assert(a[k] == m);
        lemma_ray_facts(s, r, c, r + 1, c, 1, 0, m);
    } else if k < a.len() + b.len() {
        assert(b[k - a.len()] == m);
        lemma_ray_facts(s, r, c, r - 1, c, -1, 0, m);
    } else if k < a.len() + b.len() + d.len() {
        assert(d[k - a.len() - b.len()] == m);
        lemma_ray_facts(s, r, c, r, c + 1, 0, 1, m);
    } else {
        assert(e[k - a.len() - b.len() - d.len()] == m);
        lemma_ray_facts(s, r, c, r, c - 1, 0, -1, m);
    }
    let mb = move_blockers(s, sq(r, c));
    let m1 = if bit(HALF_CITADELS_1, sq(r, c)) { 0u128 } else { HALF_CITADELS_1 };
    let m2 = if bit(HALF_CITADELS_2, sq(r, c)) { 0u128 } else { HALF_CITADELS_2 };
    lemma_bits(s.white, s.black);
    lemma_bits(s.white | s.black, THRONE);
    lemma_bits(s.white | s.black | THRONE, m1);
    lemma_bits(s.white | s.black | THRONE | m1, m2);
    assert(!bit(mb, move_to(m)));
}

proof fn lemma_upto_facts(s: State, n: int, m: Move)
    requires
        board_ok(s),
        0 <= n <= 128,
        moves_upto(s, n).contains(m),
    ensures
        move_facts(s, m),
    decreases n,
{
    if n > 0 {
        let prev = moves_upto(s, n - 1);
        let here = if bit(side_pieces(s), n - 1) { piece_moves(s, (n - 1) / 9, (n - 1) % 9) } else { seq![] };
        assert(moves_upto(s, n) == prev + here);
        let k = choose|k: int| 0 <= k < moves_upto(s, n).len() && moves_upto(s, n)[k] == m;
        if k < prev.len() {
            assert(prev[k] == m);
            lemma_upto_facts(s, n - 1, m);
        } else {
            assert(here[k - prev.len()] == m);
            assert(here.contains(m));
            lemma_piece_move_facts(s, n - 1, m);
        }
    }
}

/// Every generated move takes a piece of the side to move along its row or
/// column to an empty square of the board, with the captures of that square.
pub proof fn lemma_legal_move_facts(s: State, m: Move)
    requires
        board_ok(s),
        legal_moves(s).contains(m),
    ensures
        move_facts(s, m),
{
    reveal(legal_moves);
    lemma_upto_facts(s, 128, m);
}

/// A move to a square of the board keeps every piece on the board.
pub proof fn lemma_move_keeps_board(b: u128, from: int, to: int, c: u128)
    requires
        bits_below(b, 81),
        0 <= from < 81,
        0 <= to < 81,
    ensures
        bits_below(move_bits(b, from, to, c), 81),
{
    let add = if bit(b, from) { 1u128 << (to as u128) } else { 0u128 };
    crate::bitops::lemma_single(to);
    crate::bitops::lemma_zero_bits();
    lemma_bits(b, add);
    lemma_bits(b | add, !(1u128 << (from as u128)));
    lemma_bits((b | add) & !(1u128 << (from as u128)), !c);
}


/// The opening position lies on the board.
pub proof fn lemma_opening_on_board(s: State)
    requires
        s.white == 288801849471926272u128,
        s.black == CITADELS,
        s.king == THRONE,
    ensures
        board_ok(s),
{
    assert forall|i: int| 81 <= i < 128 implies !#[trigger] bit(s.white, i) by {
        lemma_high_bits(i as u128);
    }
    assert forall|i: int| 81 <= i < 128 implies !#[trigger] bit(s.black, i) by {
        lemma_high_bits(i as u128);
    }
    assert forall|i: int| 81 <= i < 128 implies !#[trigger] bit(s.king, i) by {
        lemma_high_bits(i as u128);
    }
}

proof fn lemma_high_bits(i: u128)
    by (bit_vector)
    requires
        81 <= i < 128,
    ensures
        (288801849471926272u128 >> i) & 1u128 == 0u128,
        (264600106062302366670904u128 >> i) & 1u128 == 0u128,
        (1099511627776u128 >> i) & 1u128 == 0u128,
{
}

/// A well-formed position: every piece on the board, no square both white
/// and black, the king among the white pieces, and at most one king.
pub open spec fn valid_position(s: State) -> bool {
    &&& board_ok(s)
    &&& forall|i: int| !(#[trigger] bit(s.white, i) && bit(s.black, i))
    &&& forall|i: int| #[trigger] bit(s.king, i) ==> bit(s.white, i)
    &&& forall|i: int, j: int| #[trigger] bit(s.king, i) && #[trigger] bit(s.king, j) ==> i == j
}

/// The squares of a bitboard after a piece moves from `from` to `to` and the
/// pieces in `c` are removed.
proof fn lemma_move_bits_at(b: u128, from: int, to: int, c: u128)
    requires
        0 <= from < 128,
        0 <= to < 128,
    ensures
        forall|i: int| 0 <= i < 128 ==> #[trigger] bit(move_bits(b, from, to, c), i) == (i != from && !bit(c, i) && (bit(b, i)
            || (i == to && bit(b, from)))),
{
    let add = if bit(b, from) { 1u128 << (to as u128) } else { 0u128 };
    crate::bitops::lemma_single(to);
    crate::bitops::lemma_single(from);
    crate::bitops::lemma_zero_bits();
    lemma_bits(b, add);
    lemma_bits(b | add, !(1u128 << (from as u128)));
    lemma_bits((b | add) & !(1u128 << (from as u128)), !c);
    lemma_bits(1u128 << (from as u128), c);
    lemma_bits(c, b);
    assert forall|i: int| 0 <= i < 128 implies #[trigger] bit(move_bits(b, from, to, c), i) == (i != from && !bit(c, i)
        && (bit(b, i) || (i == to && bit(b, from)))) by {
        assert(bit(add, i) == (i == to && bit(b, from)));
        assert(bit(!(1u128 << (from as u128)), i) == (i != from));
        assert(bit(!c, i) == !bit(c, i));
    }
}

/// Every legal move keeps a well-formed position well-formed.
pub proof fn lemma_legal_move_keeps_valid(s: State, m: Move)
    requires
        valid_position(s),
        legal_moves(s).contains(m),
    ensures
        valid_position(State {
            white: move_bits(s.white, move_from(m), move_to(m), m.captured),
            black: move_bits(s.black, move_from(m), move_to(m), m.captured),
            king: move_bits(s.king, move_from(m), move_to(m), m.captured),
            white_to_move: !s.white_to_move,
            ..s
        }),
{
    lemma_legal_move_facts(s, m);
    let f = move_from(m);
    let t = move_to(m);
    let c = m.captured;
    let w = move_bits(s.white, f, t, c);
    let b = move_bits(s.black, f, t, c);
    let k = move_bits(s.king, f, t, c);
    lemma_move_keeps_board(s.white, f, t, c);
    lemma_move_keeps_board(s.black, f, t, c);
    lemma_move_keeps_board(s.king, f, t, c);
    lemma_move_bits_at(s.white, f, t, c);
    lemma_move_bits_at(s.black, f, t, c);
    lemma_move_bits_at(s.king, f, t, c);
    assert forall|i: int| !(#[trigger] bit(w, i) && bit(b, i)) by {
        if 0 <= i < 128 {
            assert(!(bit(s.white, i) && bit(s.black, i)));
            assert(!(bit(s.white, f) && bit(s.black, f)));
        }
    }
    assert forall|i: int| #[trigger] bit(k, i) implies bit(w, i) by {
        assert(bit(s.king, i) ==> bit(s.white, i));
        assert(bit(s.king, f) ==> bit(s.white, f));
    }
    assert forall|i: int, j: int| #[trigger] bit(k, i) && #[trigger] bit(k, j) implies i == j by {
        assert(bit(s.king, i) && bit(s.king, f) ==> i == f);
        assert(bit(s.king, j) && bit(s.king, f) ==> j == f);
        assert(bit(s.king, i) && bit(s.king, j) ==> i == j);
    }
}

/// The opening position is well-formed.
pub proof fn lemma_opening_valid(s: State)
    requires
        s.white == 288801849471926272u128,
        s.black == CITADELS,
        s.king == THRONE,
    ensures
        valid_position(s),
{
    lemma_opening_on_board(s);
    assert(288801849471926272u128 & 264600106062302366670904u128 == 0u128
        && 1099511627776u128 & 288801849471926272u128 == 1099511627776u128) by (bit_vector);
    assert(THRONE == 1u128 << 40u128) by (bit_vector);
    lemma_bits(s.white, s.black);
    lemma_bits(s.king, s.white);
    crate::bitops::lemma_zero_bits();
    crate::bitops::lemma_single(40);
    assert forall|i: int| !(#[trigger] bit(s.white, i) && bit(s.black, i)) by {
        assert(!bit(s.white & s.black, i));
    }
    assert forall|i: int| #[trigger] bit(s.king, i) implies bit(s.white, i) by {
        assert(bit(s.king & s.white, i));
    }
    assert forall|i: int, j: int| #[trigger] bit(s.king, i) && #[trigger] bit(s.king, j) implies i == j by {
        let forty: int = 40;
        assert((forty as u128) == 40u128);
        assert(bit(1u128 << (forty as u128), i) ==> i == 40);
        assert(bit(1u128 << (forty as u128), j) ==> j == 40);
    }
}

/// The drawn row `r` of a position.
pub open spec fn drawn_row(s: State, r: int) -> Seq<char> {
    Seq::new(9, |c: int| square_char(s, 9 * r + c))
}

proof fn lemma_rows_text_at(s: State, n: int)
    requires
        0 <= n,
    ensures
        rows_text(s, n).len() == 10 * n,
        forall|r: int, c: int| 0 <= r < n && 0 <= c < 10 ==> #[trigger] rows_text(s, n)[10 * r + c] == (if c < 9 {
            square_char(s, 9 * r + c)
        } else {
            '\n'
        }),
    decreases n,
{
    if n > 0 {
        lemma_rows_text_at(s, n - 1);
        let prev = rows_text(s, n - 1);
        let row = Seq::new(9, |c: int| square_char(s, 9 * (n - 1) + c)).push('\n');
        assert(rows_text(s, n) == prev + row);
        assert forall|r: int, c: int| 0 <= r < n && 0 <= c < 10 implies #[trigger] rows_text(s, n)[10 * r + c] == (if c < 9 {
            square_char(s, 9 * r + c)
        } else {
            '\n'
        }) by {
            if r < n - 1 {
                assert(rows_text(s, n)[10 * r + c] == prev[10 * r + c]);
            } else {
                assert(rows_text(s, n)[10 * r + c] == row[c]);
            }
        }
    }
}

/// The lines of a drawn board from row `r` on: the remaining rows, then the
/// line of the side to move.
proof fn lemma_lines_of_drawing(s: State, turn: Seq<char>, r: int)
    requires
        0 <= r <= 9,
        turn.len() == 7,
        forall|j: int| 0 <= j < 7 ==> turn[j] != '\n',
    ensures
        lines_from(rows_text(s, 9) + turn, 10 * r) == Seq::new((9 - r) as nat, |j: int| drawn_row(s, r + j)).push(turn),
    decreases 9 - r,
{
    let t = rows_text(s, 9) + turn;
    lemma_rows_text_at(s, 9);
    assert(t.len() == 97);
    crate::text::lemma_newline_at(t, 10 * r);
    let k = newline_at(t, 10 * r);
    if r == 9 {
        if k < 97 {
            assert(t[k] == turn[k - 90]);
        }
        assert(t.subrange(90, 97) =~= turn);
        assert(Seq::new(0, |j: int| drawn_row(s, 9 + j)).push(turn) =~= seq![turn]);
    } else {
        assert(t[10 * r + 9] == rows_text(s, 9)[10 * r + 9]);
        assert(t[10 * r + 9] == '\n');
        assert forall|j: int| 10 * r <= j < 10 * r + 9 implies t[j] != '\n' by {
            let c = j - 10 * r;
            assert(rows_text(s, 9)[10 * r + c] == square_char(s, 9 * r + c));
            assert(t[j] == rows_text(s, 9)[10 * r + c]);
        }
        assert(k == 10 * r + 9);
        let line = t.subrange(10 * r, 10 * r + 9);
        assert forall|c: int| 0 <= c < 9 implies line[c] == drawn_row(s, r)[c] by {
            assert(rows_text(s, 9)[10 * r + c] == square_char(s, 9 * r + c));
            assert(t[10 * r + c] == rows_text(s, 9)[10 * r + c]);
        }
        assert(line =~= drawn_row(s, r));
        assert(line.last() != '\r');
        assert(strip_cr(line) == line);
        lemma_lines_of_drawing(s, turn, r + 1);
        assert(10 * (r + 1) == k + 1);
        assert(seq![drawn_row(s, r)] + Seq::new((9 - (r + 1)) as nat, |j: int| drawn_row(s, r + 1 + j)).push(turn)
            =~= Seq::new((9 - r) as nat, |j: int| drawn_row(s, r + j)).push(turn));
    }
}

/// Drawing a position and reading the drawing back gives the position: for
/// a well-formed position of a game that goes on, the text that
/// `to_position_string` draws is accepted by `from_position_string` and
/// reads as the same white, black and king bitboards and side to move.
pub proof fn lemma_position_text_round_trip(s: State)
    requires
        valid_position(s),
        !s.win,
        !s.draw,
    ensures
        board_text_ok(position_text(s)),
        forall|i: int| 0 <= i < 128 ==> #[trigger] text_white(position_text(s), i) == bit(s.white, i),
        forall|i: int| 0 <= i < 128 ==> #[trigger] text_black(position_text(s), i) == bit(s.black, i),
        forall|i: int| 0 <= i < 128 ==> #[trigger] text_king(position_text(s), i) == bit(s.king, i),
        text_white_to_move(position_text(s)) == s.white_to_move,
{
    reveal_strlit("turn: W");
    reveal_strlit("turn: B");
    let turn = if s.white_to_move { "turn: W"@ } else { "turn: B"@ };
    let t = position_text(s);
    assert(t == rows_text(s, 9) + turn);
    lemma_lines_of_drawing(s, turn, 0);
    let lines = text_lines(t);
    assert(lines == Seq::new(9, |j: int| drawn_row(s, j)).push(turn));
    assert(lines.len() == 10);
    assert forall|r: int| 0 <= r < 9 implies #[trigger] lines[r].len() >= 9 by {
        assert(lines[r] == drawn_row(s, r));
    }
    assert forall|i: int| 0 <= i < 81 implies #[trigger] cell_char(lines, i) == square_char(s, i) by {
        assert(lines[i / 9] == drawn_row(s, i / 9));
    }
    assert forall|i: int| 0 <= i < 128 implies #[trigger] text_white(t, i) == bit(s.white, i) by {
        if i < 81 {
            assert(cell_char(lines, i) == square_char(s, i));
        }
    }
    assert forall|i: int| 0 <= i < 128 implies #[trigger] text_black(t, i) == bit(s.black, i) by {
        if i < 81 {
            assert(cell_char(lines, i) == square_char(s, i));
        }
    }
    assert forall|i: int| 0 <= i < 128 implies #[trigger] text_king(t, i) == bit(s.king, i) by {
        if i < 81 {
            assert(cell_char(lines, i) == square_char(s, i));
            if bit(s.king, i) {
                assert forall|j: int| i < j < 81 implies cell_char(lines, j) != 'K' by {
                    assert(cell_char(lines, j) == square_char(s, j));
                }
            }
        }
    }
    let marker = white_turn_marker();
    assert(lines[9] == turn);
    if s.white_to_move {
        assert(turn.subrange(0, 0 + marker.len() as int) =~= marker);
        assert(crate::text::contains_seq(lines[9], marker));
    } else {
        assert forall|k: int| 0 <= k && k + marker.len() <= turn.len() implies #[trigger] turn.subrange(k, k + marker.len())
            != marker by {
            assert(turn.subrange(k, k + marker.len())[6] != marker[6]);
        }
    }
}

proof fn lemma_square_index(r: int, c: int)
    requires
        0 <= r < 9,
        0 <= c < 9,
    ensures
        (9 * r + c) / 9 == r,
        (9 * r + c) % 9 == c,
{
    vstd::arithmetic::div_mod::lemma_fundamental_div_mod_converse(9 * r + c, 9, r, c);
}

/// Row `r` of a drawing with ten-character rows.
spec fn drawn_line(p: Seq<char>, r: int) -> Seq<char> {
    p.subrange(10 * r, 10 * r + 9)
}

/// The lines of a well-drawn board from row `r` on: the remaining rows, then
/// the line of the side to move.
proof fn lemma_lines_of_well_drawn(p: Seq<char>, r: int)
    requires
        well_drawn(p),
        0 <= r <= 9,
    ensures
        lines_from(p, 10 * r) == Seq::new((9 - r) as nat, |j: int| drawn_line(p, r + j)).push(p.subrange(90, 97)),
    decreases 9 - r,
{
    let turn = p.subrange(90, 97);
    assert forall|j: int| 0 <= j < 7 implies turn[j] != '\n' by {
        if turn == white_turn_marker() {
            assert(white_turn_marker()[j] != '\n');
        } else {
            assert(black_turn_marker()[j] != '\n');
        }
    }
    crate::text::lemma_newline_at(p, 10 * r);
    let k = newline_at(p, 10 * r);
    if r == 9 {
        if k < 97 {
            assert(p[k] == turn[k - 90]);
        }
        assert(p.subrange(90, 97) =~= turn);
        assert(Seq::new(0, |j: int| drawn_line(p, 9 + j)).push(turn) =~= seq![turn]);
    } else {
        assert(p[10 * r + 9] == '\n');
        assert forall|j: int| 10 * r <= j < 10 * r + 9 implies p[j] != '\n' && p[j] != '\r' by {
            lemma_square_index(r, j - 10 * r);
            assert(square_symbol(drawn_square(p, 9 * r + (j - 10 * r))));
        }
        assert(k == 10 * r + 9);
        let line = p.subrange(10 * r, 10 * r + 9);
        assert(line.last() == p[10 * r + 8]);
        assert(strip_cr(line) == line);
        lemma_lines_of_well_drawn(p, r + 1);
        assert(10 * (r + 1) == k + 1);
        assert(seq![drawn_line(p, r)] + Seq::new((9 - (r + 1)) as nat, |j: int| drawn_line(p, r + 1 + j)).push(turn)
            =~= Seq::new((9 - r) as nat, |j: int| drawn_line(p, r + j)).push(turn));
    }
}

/// The lines of a well-drawn board: nine rows whose squares are the drawn
/// squares, then the line of the side to move.
pub proof fn lemma_well_drawn_lines(p: Seq<char>)
    requires
        well_drawn(p),
    ensures
        board_text_ok(p),
        text_lines(p).len() == 10,
        text_lines(p)[9] == p.subrange(90, 97),
        forall|i: int| 0 <= i < 81 ==> #[trigger] cell_char(text_lines(p), i) == drawn_square(p, i),
{
    lemma_lines_of_well_drawn(p, 0);
    let lines = text_lines(p);
    assert(lines == Seq::new(9, |j: int| drawn_line(p, j)).push(p.subrange(90, 97)));
    assert forall|r: int| 0 <= r < 9 implies #[trigger] lines[r].len() >= 9 by {
        assert(lines[r] == drawn_line(p, r));
    }
    assert forall|i: int| 0 <= i < 81 implies #[trigger] cell_char(lines, i) == drawn_square(p, i) by {
        assert(lines[i / 9] == drawn_line(p, i / 9));
    }
}

/// The rows drawn for a position whose squares are drawn as in `p` are the
/// first ninety characters of `p`.
proof fn lemma_rows_of_well_drawn(p: Seq<char>, s: State)
    requires
        well_drawn(p),
        forall|i: int| 0 <= i < 81 ==> #[trigger] square_char(s, i) == drawn_square(p, i),
    ensures
        rows_text(s, 9) == p.subrange(0, 90),
{
    let rows = rows_text(s, 9);
    lemma_rows_text_at(s, 9);
    assert forall|j: int| 0 <= j < 90 implies rows[j] == p[j] by {
        let r = j / 10;
        let c = j % 10;
        assert(j == 10 * r + c);
        if c < 9 {
            lemma_square_index(r, c);
            assert(square_char(s, 9 * r + c) == drawn_square(p, 9 * r + c));
        } else {
            assert(p[10 * r + 9] == '\n');
        }
    }
    assert(rows =~= p.subrange(0, 90));
}

/// A position that reads as a well-drawn board draws each square as the
/// board does.
proof fn lemma_squares_of_reading(p: Seq<char>, s: State)
    requires
        well_drawn(p),
        forall|i: int| 0 <= i < 128 ==> #[trigger] bit(s.white, i) == text_white(p, i),
        forall|i: int| 0 <= i < 128 ==> #[trigger] bit(s.black, i) == text_black(p, i),
        forall|i: int| 0 <= i < 128 ==> #[trigger] bit(s.king, i) == text_king(p, i),
    ensures
        forall|i: int| 0 <= i < 81 ==> #[trigger] square_char(s, i) == drawn_square(p, i),
{
    lemma_well_drawn_lines(p);
    let lines = text_lines(p);
    assert forall|i: int| 0 <= i < 81 implies #[trigger] square_char(s, i) == drawn_square(p, i) by {
        assert(cell_char(lines, i) == drawn_square(p, i));
        assert(square_symbol(drawn_square(p, i)));
        if drawn_square(p, i) == 'K' {
            assert forall|j: int| i < j < 81 implies cell_char(lines, j) != 'K' by {
                assert(cell_char(lines, j) == drawn_square(p, j));
            }
        }
        assert(bit(s.king, i) == text_king(p, i));
        assert(bit(s.white, i) == text_white(p, i));
        assert(bit(s.black, i) == text_black(p, i));
    }
}

/// A turn line that is "turn: W" or "turn: B" says white moves exactly when
/// it is "turn: W".
proof fn lemma_turn_line(turn: Seq<char>)
    requires
        turn == white_turn_marker() || turn == black_turn_marker(),
    ensures
        crate::text::contains_seq(turn, white_turn_marker()) ==> turn == "turn: W"@,
        !crate::text::contains_seq(turn, white_turn_marker()) ==> turn == "turn: B"@,
{
    let marker = white_turn_marker();
    reveal_strlit("turn: W");
    reveal_strlit("turn: B");
    if turn == marker {
        assert(turn.subrange(0, 0 + marker.len() as int) =~= marker);
        assert(turn =~= "turn: W"@);
    } else {
        assert forall|k: int| 0 <= k && k + marker.len() <= turn.len() implies #[trigger] turn.subrange(k, k + marker.len())
            != marker by {
            assert(turn.subrange(k, k + marker.len())[6] != marker[6]);
        }
        assert(turn =~= "turn: B"@);
    }
}

/// Reading a drawing back and drawing the position again gives the same
/// text: a board drawn as `to_position_string` draws it is accepted by
/// `from_position_string`, and every position that reads as that drawing
/// (as `from_position_string` returns it) is drawn as the same text.
pub proof fn lemma_drawing_round_trip(p: Seq<char>, s: State)
    requires
        well_drawn(p),
        forall|i: int| 0 <= i < 128 ==> #[trigger] bit(s.white, i) == text_white(p, i),
        forall|i: int| 0 <= i < 128 ==> #[trigger] bit(s.black, i) == text_black(p, i),
        forall|i: int| 0 <= i < 128 ==> #[trigger] bit(s.king, i) == text_king(p, i),
        s.white_to_move == text_white_to_move(p),
        !s.win,
        !s.draw,
    ensures
        board_text_ok(p),
        position_text(s) == p,
{
    lemma_well_drawn_lines(p);
    lemma_squares_of_reading(p, s);
    lemma_rows_of_well_drawn(p, s);
    let turn = p.subrange(90, 97);
    lemma_turn_line(turn);
    assert(position_text(s) == rows_text(s, 9) + turn);
    assert(p =~= p.subrange(0, 90) + turn);
}

/// A capture in one direction takes an opponent's piece next to the square
/// moved to.
proof fn lemma_captures_dir_bits(s: State, tr: int, tc: int, dr: int, dc: int)
    requires
        on_board(tr, tc),
        is_unit_dir(dr, dc),
    ensures
        forall|q: int| #[trigger] bit(captures_dir(s, tr, tc, dr, dc), q) ==> q == sq(tr + dr, tc + dc) && q != sq(tr, tc)
            && (bit(capturable(s), q) || bit(special_king(s), q)),
{
    crate::bitops::lemma_zero_bits();
    let cr = tr + dr;
    let cc = tc + dc;
    if on_board(cr, cc) {
        crate::bitops::lemma_single(sq(cr, cc));
    }
}

/// The captures of a move take opponent's pieces next to the square moved to.
proof fn lemma_captures_bits(s: State, tr: int, tc: int)
    requires
        on_board(tr, tc),
    ensures
        forall|q: int| #[trigger] bit(captures(s, tr, tc), q) ==> q != sq(tr, tc) && (bit(capturable(s), q) || bit(
            special_king(s),
            q,
        )),
{
    lemma_captures_dir_bits(s, tr, tc, -1, 0);
    lemma_captures_dir_bits(s, tr, tc, 1, 0);
    lemma_captures_dir_bits(s, tr, tc, 0, -1);
    lemma_captures_dir_bits(s, tr, tc, 0, 1);
    let a = captures_dir(s, tr, tc, -1, 0);
    let b = captures_dir(s, tr, tc, 1, 0);
    let c = captures_dir(s, tr, tc, 0, -1);
    let d = captures_dir(s, tr, tc, 0, 1);
    lemma_bits(a, b);
    lemma_bits(a | b, c);
    lemma_bits(a | b | c, d);
}

/// Playing a legal move of a well-formed position whose hash words are up to
/// date leaves them up to date: the incremental update is the full hash of
/// the new position, for moves of pawns and of the king, with or without
/// captures.
pub proof fn lemma_legal_move_hash(s: State, mv: Move, history: Seq<u64>, c: State)
    requires
        valid_position(s),
        hash_consistent(s),
        legal_moves(s).contains(mv),
        move_played(s, mv, history, c),
    ensures
        hash_consistent(c),
{
    lemma_legal_move_facts(s, mv);
    let f = move_from(mv);
    let to = move_to(mv);
    lemma_captures_bits(s, mv.tr as int, mv.tc as int);
    lemma_bits(s.white, s.king);
    lemma_bits(s.king, SPECIAL_KING_ZONE);
    lemma_bits(s.white, s.king & SPECIAL_KING_ZONE);
    assert(!bit(s.king, to)) by {
        assert(bit(s.king, to) ==> bit(s.white, to));
    }
    assert(!bit(mv.captured, f)) by {
        crate::bitops::lemma_zero_bits();
        lemma_bits(s.white, special_king(s));
        assert(!(bit(s.white, f) && bit(s.black, f)));
        assert(bit(s.king, f) ==> bit(s.white, f));
        if s.white_to_move {
            assert(bit(s.white, f));
            assert(special_king(s) == 0u128);
            assert(!bit(capturable(s), f));
            assert(!bit(special_king(s), f));
        } else {
            assert(bit(s.black, f));
            assert(!bit(s.white, f));
            assert(!bit(s.king, f));
            assert(!bit(s.king & SPECIAL_KING_ZONE, f));
            assert(!bit(special_king(s), f));
            assert(!bit(capturable(s), f));
        }
    }
    assert forall|t: int| 0 <= t < 8 implies c.hash[t] == #[trigger] full_hash(c, t) by {
        assert(s.hash[t] == full_hash(s, t));
        lemma_incremental_hash(s, mv, t);
    }
}

/// The captured squares of a legal move hold pieces of the opponent; they
/// are neither of the two squares of the move.
proof fn lemma_captured_squares(s: State, mv: Move)
    requires
        valid_position(s),
        legal_moves(s).contains(mv),
    ensures
        forall|q: int| #[trigger] bit(mv.captured, q) ==> q != move_from(mv) && q != move_to(mv) && (bit(s.white, q)
            || bit(s.black, q)) && !bit(side_pieces(s), q),
{
    lemma_legal_move_facts(s, mv);
    lemma_captures_bits(s, mv.tr as int, mv.tc as int);
    crate::bitops::lemma_zero_bits();
    lemma_bits(s.white, special_king(s));
    lemma_bits(s.king, SPECIAL_KING_ZONE);
    assert forall|q: int| #[trigger] bit(mv.captured, q) implies q != move_from(mv) && q != move_to(mv) && (bit(
        s.white,
        q,
    ) || bit(s.black, q)) && !bit(side_pieces(s), q) by {
        assert(!(bit(s.white, q) && bit(s.black, q)));
        assert(bit(s.king, q) ==> bit(s.white, q));
        if s.white_to_move {
            assert(special_king(s) == 0u128);
            assert(bit(s.black, q));
        } else {
            assert(bit(s.king & SPECIAL_KING_ZONE, q) ==> bit(s.king, q));
            assert(bit(s.white, q));
        }
        assert(bit(side_pieces(s), move_from(mv)));
    }
}

proof fn lemma_count_after_move(o: u128, o2: u128, c: u128, f: int, t: int, n: int)
    requires
        0 <= n <= 128,
        0 <= f < 128,
        0 <= t < 128,
        f != t,
        forall|i: int| 0 <= i < 128 ==> #[trigger] bit(o2, i) == (i != f && !bit(c, i) && (bit(o, i) || i == t)),
        forall|i: int| 0 <= i < 128 ==> #[trigger] bit(c, i) ==> bit(o, i) && i != f && i != t,
        bit(o, f),
        !bit(o, t),
    ensures
        popcount_upto(o2, n) + popcount_upto(c, n) == popcount_upto(o, n) + (if t < n { 1int } else { 0 }) - (if f
            < n {
            1int
        } else {
            0
        }),
    decreases n,
{
    if n > 0 {
        lemma_count_after_move(o, o2, c, f, t, n - 1);
        let i = n - 1;
        assert(bit(o2, i) == (i != f && !bit(c, i) && (bit(o, i) || i == t)));
        assert(bit(c, i) ==> bit(o, i) && i != f && i != t);
    }
}

/// Playing a legal move keeps every piece but the captured ones: the
/// number of pieces drops by the number of captured squares.
pub proof fn lemma_move_piece_count(s: State, mv: Move)
    requires
        valid_position(s),
        legal_moves(s).contains(mv),
    ensures
        popcount(move_bits(s.white, move_from(mv), move_to(mv), mv.captured) | move_bits(
            s.black,
            move_from(mv),
            move_to(mv),
            mv.captured,
        )) + popcount(mv.captured) == popcount(s.white | s.black),
{
    lemma_legal_move_facts(s, mv);
    lemma_captured_squares(s, mv);
    let f = move_from(mv);
    let t = move_to(mv);
    let c = mv.captured;
    let w2 = move_bits(s.white, f, t, c);
    let b2 = move_bits(s.black, f, t, c);
    lemma_move_bits_at(s.white, f, t, c);
    lemma_move_bits_at(s.black, f, t, c);
    lemma_bits(w2, b2);
    lemma_bits(s.white, s.black);
    assert forall|i: int| 0 <= i < 128 implies #[trigger] bit(w2 | b2, i) == (i != f && !bit(c, i) && (bit(
        s.white | s.black,
        i,
    ) || i == t)) by {
        assert(bit(side_pieces(s), f));
    }
    assert(bit(side_pieces(s), f));
    lemma_count_after_move(s.white | s.black, w2 | b2, c, f, t, 128);
}


proof fn lemma_or4_parts(a: u128, b: u128, c: u128, d: u128)
    by (bit_vector)
    ensures
        a & (a | b | c | d) == a,
        b & (a | b | c | d) == b,
        c & (a | b | c | d) == c,
        d & (a | b | c | d) == d,
{
}

/// Captures look in all four directions alike: whatever is captured in any
/// one direction from the square moved to (a piece flanked against an
/// attacker, a citadel or the throne, or the king surrounded) is among the
/// move's captures.
pub proof fn lemma_captures_every_direction(s: State, tr: int, tc: int, dr: int, dc: int)
    requires
        is_unit_dir(dr, dc),
    ensures
        captures_dir(s, tr, tc, dr, dc) & captures(s, tr, tc) == captures_dir(s, tr, tc, dr, dc),
{
    lemma_or4_parts(
        captures_dir(s, tr, tc, -1, 0),
        captures_dir(s, tr, tc, 1, 0),
        captures_dir(s, tr, tc, 0, -1),
        captures_dir(s, tr, tc, 0, 1),
    );
}

/// Every generated move captures whatever any one direction from its
/// target square captures.
pub proof fn lemma_moves_capture_every_direction(s: State, m: Move, dr: int, dc: int)
    requires
        board_ok(s),
        legal_moves(s).contains(m),
        is_unit_dir(dr, dc),
    ensures
        captures_dir(s, m.tr as int, m.tc as int, dr, dc) & m.captured == captures_dir(s, m.tr as int, m.tc as int, dr, dc),
{
    lemma_legal_move_facts(s, m);
    lemma_captures_every_direction(s, m.tr as int, m.tc as int, dr, dc);
}

/// A repeated position is drawn: unless the move ends the game, the game
/// after it is drawn exactly when it already was or the new position's hash
/// occurs anywhere in the history.
pub proof fn lemma_repetition_draws(s: State, mv: Move, history: Seq<u64>, c: State)
    requires
        move_played(s, mv, history, c),
    ensures
        !c.win ==> (c.draw <==> (s.draw || history.contains(c.hash[0]))),
        forall|i: int| 0 <= i < history.len() && #[trigger] history[i] == c.hash[0] && !c.win ==> c.draw,
{
    assert forall|i: int| 0 <= i < history.len() && #[trigger] history[i] == c.hash[0] && !c.win implies c.draw by {
        assert(history.contains(c.hash[0]));
    }
}

} // verus!
