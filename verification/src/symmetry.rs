//! The eight symmetries of the board act on the hash words: seen through a
//! symmetry, a position's hash words are its own words in another order, so
//! its canonical hash (the smallest word) does not change.
use vstd::prelude::*;
use crate::zobrist::sym_square;
use crate::bitops::{bit, lemma_bits, lemma_single, lemma_zero_bits, lemma_bit_ext};
use crate::board::{State, bits_below, xor_upto, piece_key, lemma_xor_gap, full_hash, hash_consistent, smallest_word};
use crate::laws::board_ok;
use crate::laws::{lemma_xor_linear, lemma_xor_single};

verus! {

/// Row of square (r, c) seen through symmetry `t`.
pub open spec fn sym_row(t: int, r: int, c: int) -> int {
    if t == 0 || t == 4 {
        r
    } else if t == 1 || t == 6 {
        c
    } else if t == 2 || t == 5 {
        8 - r
    } else {
        8 - c
    }
}

/// Column of square (r, c) seen through symmetry `t`.
pub open spec fn sym_col(t: int, r: int, c: int) -> int {
    if t == 0 || t == 5 {
        c
    } else if t == 1 || t == 7 {
        8 - r
    } else if t == 2 || t == 4 {
        8 - c
    } else {
        r
    }
}

/// The symmetry that applies `g` first and then `t`.
pub open spec fn compose(t: int, g: int) -> int {
    let row = if t == 0 {
        seq![0int, 1, 2, 3, 4, 5, 6, 7]
    } else if t == 1 {
        seq![1int, 2, 3, 0, 7, 6, 4, 5]
    } else if t == 2 {
        seq![2int, 3, 0, 1, 5, 4, 7, 6]
    } else if t == 3 {
        seq![3int, 0, 1, 2, 6, 7, 5, 4]
    } else if t == 4 {
        seq![4int, 6, 5, 7, 0, 2, 1, 3]
    } else if t == 5 {
        seq![5int, 7, 4, 6, 2, 0, 3, 1]
    } else if t == 6 {
        seq![6int, 5, 7, 4, 3, 1, 0, 2]
    } else {
        seq![7int, 4, 6, 5, 1, 3, 2, 0]
    };
    row[g]
}

/// The symmetry that undoes `g`.
pub open spec fn inverse(g: int) -> int {
    if g == 1 {
        3
    } else if g == 3 {
        1
    } else {
        g
    }
}

proof fn lemma_sym_square_rc(t: int, r: int, c: int)
    requires
        0 <= t < 8,
        0 <= r < 9,
        0 <= c < 9,
    ensures
        sym_square(t, 9 * r + c) == 9 * sym_row(t, r, c) + sym_col(t, r, c),
        0 <= sym_row(t, r, c) < 9,
        0 <= sym_col(t, r, c) < 9,
{
    assert((9 * r + c) / 9 == r);
    assert((9 * r + c) % 9 == c);
}

proof fn lemma_rc_compose(t: int, g: int, r: int, c: int)
    requires
        0 <= t < 8,
        0 <= g < 8,
    ensures
        sym_row(t, sym_row(g, r, c), sym_col(g, r, c)) == sym_row(compose(t, g), r, c),
        sym_col(t, sym_row(g, r, c), sym_col(g, r, c)) == sym_col(compose(t, g), r, c),
        0 <= compose(t, g) < 8,
{
    if g == 0 {
    } else if g == 1 {
    } else if g == 2 {
    } else if g == 3 {
    } else if g == 4 {
    } else if g == 5 {
    } else if g == 6 {
    } else {
    }
}

/// Seeing a square through `g` and then `t` is seeing it through their
/// composition; each symmetry maps the board onto itself.
proof fn lemma_sym_compose(t: int, g: int, i: int)
    requires
        0 <= t < 8,
        0 <= g < 8,
        0 <= i < 81,
    ensures
        0 <= sym_square(g, i) < 81,
        sym_square(t, sym_square(g, i)) == sym_square(compose(t, g), i),
        0 <= compose(t, g) < 8,
{
    let r = i / 9;
    let c = i % 9;
    assert(i == 9 * r + c);
    lemma_sym_square_rc(g, r, c);
    let r2 = sym_row(g, r, c);
    let c2 = sym_col(g, r, c);
    lemma_rc_compose(t, g, r, c);
    lemma_sym_square_rc(t, r2, c2);
    lemma_sym_square_rc(compose(t, g), r, c);
}

proof fn lemma_inverse(t: int, g: int)
    requires
        0 <= t < 8,
        0 <= g < 8,
    ensures
        0 <= inverse(g) < 8,
        compose(inverse(g), g) == 0,
        compose(g, inverse(g)) == 0,
        compose(compose(t, inverse(g)), g) == t,
        0 <= compose(t, inverse(g)) < 8,
{
    if g == 0 {
    } else if g == 1 {
    } else if g == 2 {
    } else if g == 3 {
    } else if g == 4 {
    } else if g == 5 {
    } else if g == 6 {
    } else {
    }
}

/// Each symmetry is a one-to-one map of the board onto itself: square `j`
/// is the image of exactly the square that the inverse symmetry gives.
proof fn lemma_sym_bijective(g: int, q: int, j: int)
    requires
        0 <= g < 8,
        0 <= q < 81,
        0 <= j < 81,
    ensures
        0 <= sym_square(inverse(g), j) < 81,
        sym_square(g, sym_square(inverse(g), j)) == j,
        sym_square(g, q) == j <==> q == sym_square(inverse(g), j),
{
    lemma_inverse(0, g);
    lemma_sym_compose(g, inverse(g), j);
    lemma_sym_compose(inverse(g), g, q);
    lemma_sym_compose(0, 0, j);
    lemma_sym_compose(0, 0, q);
    assert(sym_square(0, j) == j);
    assert(sym_square(0, q) == q);
}

/// The squares below `n` of `b`, each moved through symmetry `g`.
pub open spec fn sym_image_upto(b: u128, g: int, n: int) -> u128
    decreases n,
{
    if n <= 0 {
        0u128
    } else {
        sym_image_upto(b, g, n - 1) | (if bit(b, n - 1) {
            1u128 << (sym_square(g, n - 1) as u128)
        } else {
            0u128
        })
    }
}

proof fn lemma_image_bits(b: u128, g: int, n: int)
    requires
        0 <= g < 8,
        0 <= n <= 81,
    ensures
        forall|j: int| 0 <= j < 128 ==> #[trigger] bit(sym_image_upto(b, g, n), j) == (j < 81 && sym_square(inverse(g), j) < n
            && bit(b, sym_square(inverse(g), j))),
    decreases n,
{
    lemma_zero_bits();
    if n > 0 {
        let q = n - 1;
        lemma_image_bits(b, g, q);
        lemma_sym_compose(0, g, q);
        let sq = sym_square(g, q);
        let add = if bit(b, q) { 1u128 << (sq as u128) } else { 0u128 };
        lemma_single(sq);
        lemma_bits(sym_image_upto(b, g, q), add);
        assert forall|j: int| 0 <= j < 128 implies #[trigger] bit(sym_image_upto(b, g, n), j) == (j < 81 && sym_square(
            inverse(g),
            j,
        ) < n && bit(b, sym_square(inverse(g), j))) by {
            if j < 81 {
                lemma_sym_bijective(g, q, j);
            }
        }
    }
}

proof fn lemma_xor_image(f: spec_fn(int) -> u64, b: u128, g: int, n: int)
    requires
        0 <= g < 8,
        0 <= n <= 81,
    ensures
        xor_upto(f, sym_image_upto(b, g, n), 128) == xor_upto(|q: int| f(sym_square(g, q)), b, n),
    decreases n,
{
    lemma_zero_bits();
    if n == 0 {
        lemma_xor_gap(f, 0u128, 0, 128);
    } else {
        let q = n - 1;
        lemma_xor_image(f, b, g, q);
        let prev = sym_image_upto(b, g, q);
        lemma_sym_compose(0, g, q);
        let sq = sym_square(g, q);
        let add = if bit(b, q) { 1u128 << (sq as u128) } else { 0u128 };
        lemma_image_bits(b, g, q);
        lemma_sym_bijective(g, q, sq);
        lemma_single(sq);
        lemma_bits(prev, add);
        assert(!bit(prev, sq));
        assert forall|i: int| 0 <= i < 128 implies bit(prev | add, i) == bit(prev ^ add, i) by {}
        lemma_bit_ext(prev | add, prev ^ add);
        lemma_xor_linear(f, prev, add, 128);
        if bit(b, q) {
            lemma_xor_single(f, sq, 128);
        } else {
            lemma_xor_gap(f, 0u128, 0, 128);
        }
    }
}

/// Hashing the image of a bitboard under `g` is hashing the bitboard with
/// every key read through `g`.
proof fn lemma_xor_symmetric(f: spec_fn(int) -> u64, b: u128, b2: u128, g: int)
    requires
        0 <= g < 8,
        bits_below(b, 81),
        bits_below(b2, 81),
        forall|i: int| 0 <= i < 81 ==> bit(b2, #[trigger] sym_square(g, i)) == bit(b, i),
    ensures
        xor_upto(f, b2, 128) == xor_upto(|q: int| f(sym_square(g, q)), b, 128),
{
    lemma_image_bits(b, g, 81);
    let image = sym_image_upto(b, g, 81);
    assert forall|j: int| 0 <= j < 128 implies bit(b2, j) == bit(image, j) by {
        if j < 81 {
            let q = sym_square(inverse(g), j);
            lemma_sym_bijective(g, q, j);
            assert(bit(b2, sym_square(g, q)) == bit(b, q));
        }
    }
    lemma_bit_ext(b2, image);
    lemma_xor_image(f, b, g, 81);
    lemma_xor_gap(|q: int| f(sym_square(g, q)), b, 81, 128);
}

/// The keys of hash word `t` read through `g` are the keys of the word of
/// the composed symmetry.
proof fn lemma_keys_through(t: int, g: int, kind: int)
    requires
        0 <= t < 8,
        0 <= g < 8,
    ensures
        (|q: int| piece_key(t, kind)(sym_square(g, q))) =~= piece_key(compose(t, g), kind),
{
    assert forall|q: int| #[trigger] piece_key(t, kind)(sym_square(g, q)) == piece_key(compose(t, g), kind)(q) by {
        if 0 <= q < 81 {
            lemma_sym_compose(t, g, q);
        }
    }
}

/// `s2` is `s` seen through symmetry `g`: both lie on the board, the same
/// side moves, and the piece of `s` on square `i` stands on square
/// `sym_square(g, i)` of `s2`.
pub open spec fn symmetric_positions(s: State, s2: State, g: int) -> bool {
    &&& 0 <= g < 8
    &&& board_ok(s)
    &&& board_ok(s2)
    &&& s2.white_to_move == s.white_to_move
    &&& forall|i: int| 0 <= i < 81 ==> bit(s2.white, #[trigger] sym_square(g, i)) == bit(s.white, i)
    &&& forall|i: int| 0 <= i < 81 ==> bit(s2.black, #[trigger] sym_square(g, i)) == bit(s.black, i)
    &&& forall|i: int| 0 <= i < 81 ==> bit(s2.king, #[trigger] sym_square(g, i)) == bit(s.king, i)
}

/// Hash word `t` of the image of a position under `g` is the word of the
/// composed symmetry of the position itself.
proof fn lemma_full_hash_symmetric(s: State, s2: State, g: int, t: int)
    requires
        symmetric_positions(s, s2, g),
        0 <= t < 8,
    ensures
        full_hash(s2, t) == full_hash(s, compose(t, g)),
{
    lemma_xor_symmetric(piece_key(t, 0), s.white, s2.white, g);
    lemma_xor_symmetric(piece_key(t, 1), s.black, s2.black, g);
    lemma_xor_symmetric(piece_key(t, 2), s.king, s2.king, g);
    lemma_keys_through(t, g, 0);
    lemma_keys_through(t, g, 1);
    lemma_keys_through(t, g, 2);
}

/// Symmetric positions have the same canonical hash: the hash words of the
/// image of a position under a symmetry are the position's own words in
/// another order, so their smallest word is the same.
pub proof fn lemma_canonical_hash_symmetric(s: State, s2: State, g: int, h: u64, h2: u64)
    requires
        symmetric_positions(s, s2, g),
        hash_consistent(s),
        hash_consistent(s2),
        smallest_word(s, h),
        smallest_word(s2, h2),
    ensures
        forall|t: int| 0 <= t < 8 ==> s2.hash[t] == #[trigger] s.hash[compose(t, g)],
        h == h2,
{
    assert forall|t: int| 0 <= t < 8 implies s2.hash[t] == #[trigger] s.hash[compose(t, g)] by {
        lemma_full_hash_symmetric(s, s2, g, t);
        lemma_rc_compose(t, g, 0, 0);
    }
    let a = choose|a: int| 0 <= a < 8 && h2 == s2.hash[a];
    lemma_rc_compose(a, g, 0, 0);
    assert(s2.hash[a] == s.hash[compose(a, g)]);
    let b = choose|b: int| 0 <= b < 8 && h == s.hash[b];
    lemma_inverse(b, g);
    let b2 = compose(b, inverse(g));
    assert(s2.hash[b2] == s.hash[compose(b2, g)]);
}

} // verus!
