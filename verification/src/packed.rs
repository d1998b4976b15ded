//! The 256-bit packed form of a position: white bitboard in bits 0..81,
//! black bitboard in bits 81..162, king row in bits 162..166, king column in
//! bits 166..170 and the side to move in bit 170.
use vstd::prelude::*;
use vstd::arithmetic::div_mod::lemma_fundamental_div_mod_converse;
use crate::board::{State, hash_consistent};
use crate::bitops::{bit, lowest_bit, lemma_lowest_index};
use crate::eval::{king_row, king_col};

verus! {

/// A 256-bit unsigned number held as two 128-bit words: its value is
/// `lo + hi * 2^128`.
#[derive(Clone, Copy, Debug, PartialEq, Eq, Structural)]
pub struct Packed {
    pub lo: u128,
    pub hi: u128,
}

#[verifier::inline]
pub open spec fn pow2_128() -> int {
    0x1_0000_0000_0000_0000int * 0x1_0000_0000_0000_0000int
}

#[verifier::inline]
pub open spec fn pow2_81() -> int {
    0x2_0000_0000_0000_0000_0000
}

impl Packed {
    /// The number the two words stand for.
    pub open spec fn value(self) -> int {
        self.lo + self.hi * pow2_128()
    }
}

/// Bits 0..81 of a packed position.
pub open spec fn packed_white(p: Packed) -> int {
    p.value() % pow2_81()
}

/// Bits 81..162 of a packed position.
pub open spec fn packed_black(p: Packed) -> int {
    (p.value() / pow2_81()) % pow2_81()
}

/// Bits 162..166 of a packed position.
pub open spec fn packed_king_row(p: Packed) -> int {
    (p.value() / (pow2_128() * 0x4_0000_0000)) % 16
}

/// Bits 166..170 of a packed position.
pub open spec fn packed_king_col(p: Packed) -> int {
    (p.value() / (pow2_128() * 0x40_0000_0000)) % 16
}

/// Bit 170 of a packed position.
pub open spec fn packed_white_to_move(p: Packed) -> bool {
    (p.value() / (pow2_128() * 0x400_0000_0000)) % 2 == 1
}

/// The packing of the given fields: the bitwise or of each field shifted to
/// its place, cut into the two words.
pub open spec fn packed_of(white: u128, black: u128, row: u128, col: u128, turn: u128) -> Packed {
    Packed {
        lo: white | (black << 81u128),
        hi: (black >> 47u128) | (row << 34u128) | (col << 38u128) | (turn << 42u128),
    }
}

/// The packing of a position, with the king's square taken as its lowest
/// set bit (square 128 when there is no king).
pub open spec fn packed_state(s: State) -> Packed {
    packed_of(
        s.white,
        s.black,
        king_row(s) as u128,
        king_col(s) as u128,
        if s.white_to_move { 1u128 } else { 0u128 },
    )
}

/// Each field of a packed position, read from the two words.
proof fn lemma_unpack(lo: u128, hi: u128)
    ensures
        packed_white(Packed { lo, hi }) == lo & 0x1_FFFF_FFFF_FFFF_FFFF_FFFFu128,
        packed_black(Packed { lo, hi }) == (lo >> 81u128) | ((hi & 0x3_FFFF_FFFFu128) << 47u128),
        packed_king_row(Packed { lo, hi }) == (hi >> 34u128) & 15u128,
        packed_king_col(Packed { lo, hi }) == (hi >> 38u128) & 15u128,
        packed_white_to_move(Packed { lo, hi }) <==> (hi >> 42u128) & 1u128 != 0u128,
{
    let v = Packed { lo, hi }.value();
    assert({
        &&& lo == (lo >> 81u128) * 0x2_0000_0000_0000_0000_0000u128 + (lo & 0x1_FFFF_FFFF_FFFF_FFFF_FFFFu128)
        &&& lo >> 81u128 < 0x8000_0000_0000u128
        &&& lo & 0x1_FFFF_FFFF_FFFF_FFFF_FFFFu128 < 0x2_0000_0000_0000_0000_0000u128
    }) by (bit_vector);
    assert({
        &&& hi == (hi >> 34u128) * 0x4_0000_0000u128 + (hi & 0x3_FFFF_FFFFu128)
        &&& hi == (hi >> 38u128) * 0x40_0000_0000u128 + (hi & 0x3F_FFFF_FFFFu128)
        &&& hi == (hi >> 42u128) * 0x400_0000_0000u128 + (hi & 0x3FF_FFFF_FFFFu128)
        &&& (hi >> 34u128) & 15u128 == (hi >> 34u128) % 16
        &&& (hi >> 38u128) & 15u128 == (hi >> 38u128) % 16
        &&& ((hi >> 42u128) & 1u128 == 1u128 <==> (hi >> 42u128) % 2 == 1)
        &&& ((hi >> 42u128) & 1u128 == 1u128 <==> (hi >> 42u128) & 1u128 != 0u128)
        &&& hi & 0x3_FFFF_FFFFu128 < 0x4_0000_0000u128
        &&& hi & 0x3F_FFFF_FFFFu128 < 0x40_0000_0000u128
        &&& hi & 0x3FF_FFFF_FFFFu128 < 0x400_0000_0000u128
    }) by (bit_vector);
    assert((lo >> 81u128) | ((hi & 0x3_FFFF_FFFFu128) << 47u128)
        == (lo >> 81u128) + (hi & 0x3_FFFF_FFFFu128) * 0x8000_0000_0000u128) by (bit_vector);
    let a: int = (lo >> 81u128) as int;
    let w: int = (lo & 0x1_FFFF_FFFF_FFFF_FFFF_FFFFu128) as int;
    let c: int = (hi & 0x3_FFFF_FFFFu128) as int;
    let e: int = (hi >> 34u128) as int;
    lemma_fundamental_div_mod_converse(v, pow2_81(), a + hi * 0x8000_0000_0000, w);
    lemma_fundamental_div_mod_converse(a + hi * 0x8000_0000_0000, pow2_81(), e, a + c * 0x8000_0000_0000);
    lemma_fundamental_div_mod_converse(v, pow2_128() * 0x4_0000_0000, e, c * pow2_128() + lo);
    let f: int = (hi >> 38u128) as int;
    let g: int = (hi & 0x3F_FFFF_FFFFu128) as int;
    lemma_fundamental_div_mod_converse(v, pow2_128() * 0x40_0000_0000, f, g * pow2_128() + lo);
    let t: int = (hi >> 42u128) as int;
    let u: int = (hi & 0x3FF_FFFF_FFFFu128) as int;
    lemma_fundamental_div_mod_converse(v, pow2_128() * 0x400_0000_0000, t, u * pow2_128() + lo);
}

/// The square index `9 * row + column` that the king fields of a packed
/// position give (at most 150, so it may lie past the board).
pub fn packed_king_square(pos: &Packed) -> (k: u8)
    ensures
        k == 9 * packed_king_row(*pos) + packed_king_col(*pos),
{
    proof {
        lemma_unpack(pos.lo, pos.hi);
    }
    let krow = ((pos.hi >> 34u128) & 15u128) as u8;
    let kcol = ((pos.hi >> 38u128) & 15u128) as u8;
    9 * krow + kcol
}

impl State {
    /// Unpacks a position from its 256-bit form; the hash is computed anew.
    pub fn from_u256(pos: Packed) -> (s: State)
        requires
            9 * packed_king_row(pos) + packed_king_col(pos) < 128,
        ensures
            s.white == packed_white(pos),
            s.black == packed_black(pos),
            s.king == 1u128 << ((9 * packed_king_row(pos) + packed_king_col(pos)) as u128),
            s.white_to_move == packed_white_to_move(pos),
            !s.win,
            !s.draw,
            hash_consistent(s),
    {
        proof {
            lemma_unpack(pos.lo, pos.hi);
        }
        let white = pos.lo & 0x1_FFFF_FFFF_FFFF_FFFF_FFFFu128;
        let black = (pos.lo >> 81u128) | ((pos.hi & 0x3_FFFF_FFFFu128) << 47u128);
        let krow = ((pos.hi >> 34u128) & 15u128) as u8;
        let kcol = ((pos.hi >> 38u128) & 15u128) as u8;
        let king = 1u128 << ((9 * krow + kcol) as u128);
        let white_to_move = (pos.hi >> 42u128) & 1u128 != 0;
        let mut s = State { white, black, king, white_to_move, win: false, draw: false, hash: [0u64; 8] };
        s.compute_full_hash();
        s
    }

    /// Packs the position into its 256-bit form.
    pub fn to_u256(&self) -> (p: Packed)
        ensures
            p == packed_state(*self),
            self.white < pow2_81() && self.black < pow2_81() ==> p.value() == self.white
                + self.black * pow2_81() + king_row(*self) * pow2_128() * 0x4_0000_0000
                + king_col(*self) * pow2_128() * 0x40_0000_0000
                + (if self.white_to_move { pow2_128() * 0x400_0000_0000 } else { 0 }),
    {
        let (krow, kcol) = self.king_position();
        proof {
            lemma_lowest_index(self.king, 9 * krow + kcol);
        }
        let turn: u128 = if self.white_to_move { 1 } else { 0 };
        let p = Packed {
            lo: self.white | (self.black << 81u128),
            hi: (self.black >> 47u128) | ((krow as u128) << 34u128) | ((kcol as u128) << 38u128) | (turn << 42u128),
        };
        proof {
            if self.white < pow2_81() && self.black < pow2_81() {
                lemma_pack_sum(self.white, self.black, krow as u128, kcol as u128, turn);
            }
        }
        p
    }
}

/// Packing fields that do not overlap is adding them at their places.
proof fn lemma_pack_sum(white: u128, black: u128, row: u128, col: u128, turn: u128)
    requires
        white < pow2_81(),
        black < pow2_81(),
        row < 16,
        col < 16,
        turn < 2,
    ensures
        packed_of(white, black, row, col, turn).value() == white + black * pow2_81()
            + row * pow2_128() * 0x4_0000_0000 + col * pow2_128() * 0x40_0000_0000
            + turn * pow2_128() * 0x400_0000_0000,
{
    assert({
        &&& white | (black << 81u128) == white + (black & 0x7FFF_FFFF_FFFFu128) * 0x2_0000_0000_0000_0000_0000u128
        &&& (black >> 47u128) | (row << 34u128) | (col << 38u128) | (turn << 42u128)
            == (black >> 47u128) + row * 0x4_0000_0000u128 + col * 0x40_0000_0000u128 + turn * 0x400_0000_0000u128
        &&& black == (black >> 47u128) * 0x8000_0000_0000u128 + (black & 0x7FFF_FFFF_FFFFu128)
    }) by (bit_vector)
        requires
            white < 0x2_0000_0000_0000_0000_0000u128,
            black < 0x2_0000_0000_0000_0000_0000u128,
            row < 16u128,
            col < 16u128,
            turn < 2u128,
    ;
}

/// Unpacking undoes packing: for a position whose bitboards lie on the board
/// and whose king stands on one square, unpacking its packed form gives back
/// the same white, black and king bitboards and the same side to move (and
/// unpacking is defined on it).
pub proof fn lemma_u256_round_trip(s: State, k: int)
    requires
        s.white < pow2_81(),
        s.black < pow2_81(),
        0 <= k < 81,
        s.king == 1u128 << (k as u128),
    ensures
        9 * packed_king_row(packed_state(s)) + packed_king_col(packed_state(s)) < 128,
        packed_white(packed_state(s)) == s.white,
        packed_black(packed_state(s)) == s.black,
        1u128 << ((9 * packed_king_row(packed_state(s)) + packed_king_col(packed_state(s))) as u128) == s.king,
        packed_white_to_move(packed_state(s)) == s.white_to_move,
{
    crate::bitops::lemma_single(k);
    crate::bitops::lemma_zero_bits();
    assert(bit(s.king, k));
    assert(lowest_bit(s.king, k));
    lemma_lowest_index(s.king, k);
    let p = packed_state(s);
    lemma_unpack(p.lo, p.hi);
    let white = s.white;
    let black = s.black;
    let row = (k / 9) as u128;
    let col = (k % 9) as u128;
    let turn: u128 = if s.white_to_move { 1 } else { 0 };
    assert({
        &&& (white | (black << 81u128)) & 0x1_FFFF_FFFF_FFFF_FFFF_FFFFu128 == white
        &&& ((white | (black << 81u128)) >> 81u128)
            | ((((black >> 47u128) | (row << 34u128) | (col << 38u128) | (turn << 42u128))
            & 0x3_FFFF_FFFFu128) << 47u128) == black
        &&& (((black >> 47u128) | (row << 34u128) | (col << 38u128) | (turn << 42u128)) >> 34u128) & 15u128 == row
        &&& (((black >> 47u128) | (row << 34u128) | (col << 38u128) | (turn << 42u128)) >> 38u128) & 15u128 == col
        &&& ((((black >> 47u128) | (row << 34u128) | (col << 38u128) | (turn << 42u128)) >> 42u128) & 1u128
            != 0u128 <==> turn == 1u128)
    }) by (bit_vector)
        requires
            white < 0x2_0000_0000_0000_0000_0000u128,
            black < 0x2_0000_0000_0000_0000_0000u128,
            row < 9u128,
            col < 9u128,
            turn < 2u128,
    ;
}

} // verus!
