//! Zobrist keys. Each of the eight hash words of a position is computed with
//! the board seen through one of the eight symmetries of the square, so that
//! the smallest of the eight words is the same for symmetric positions.
use vstd::prelude::*;

verus! {

pub const KIND_WHITE: u8 = 0;
pub const KIND_BLACK: u8 = 1;
pub const KIND_KING: u8 = 2;

pub const SEED: u64 = 0x5EED_7AB1_u64;

/// Finaliser of the splitmix64 generator.
pub open spec fn mix64(z: u64) -> u64 {
    let z1 = (z ^ (z >> 30u64)).wrapping_mul(0xBF58476D1CE4E5B9u64);
    let z2 = (z1 ^ (z1 >> 27u64)).wrapping_mul(0x94D049BB133111EBu64);
    z2 ^ (z2 >> 31u64)
}

/// The `n`-th pseudo-random key.
pub open spec fn key_value(n: u64) -> u64 {
    mix64(n.wrapping_mul(0x9E3779B97F4A7C15u64).wrapping_add(SEED))
}

/// Square `idx` seen through symmetry `t` (squares off the board are kept).
pub open spec fn sym_square(t: int, idx: int) -> int {
    if 0 <= idx < 81 {
        let r = idx / 9;
        let c = idx % 9;
        if t == 0 {
            9 * r + c
        } else if t == 1 {
            9 * c + (8 - r)
        } else if t == 2 {
            9 * (8 - r) + (8 - c)
        } else if t == 3 {
            9 * (8 - c) + r
        } else if t == 4 {
            9 * r + (8 - c)
        } else if t == 5 {
            9 * (8 - r) + c
        } else if t == 6 {
            9 * c + r
        } else {
            9 * (8 - c) + (8 - r)
        }
    } else {
        idx
    }
}

/// Key of a piece of `kind` on square `idx`, in hash word `t`.
pub open spec fn zkey(t: int, kind: int, idx: int) -> u64 {
    key_value((kind * 128 + sym_square(t, idx)) as u64)
}

/// Key of the side to move being white.
pub open spec fn turn_key() -> u64 {
    key_value(384u64)
}

fn mix(z: u64) -> (r: u64)
    ensures
        r == mix64(z),
{
    let z1 = (z ^ (z >> 30u64)).wrapping_mul(0xBF58476D1CE4E5B9u64);
    let z2 = (z1 ^ (z1 >> 27u64)).wrapping_mul(0x94D049BB133111EBu64);
    z2 ^ (z2 >> 31u64)
}

fn key(n: u64) -> (r: u64)
    ensures
        r == key_value(n),
{
    mix(n.wrapping_mul(0x9E3779B97F4A7C15u64).wrapping_add(SEED))
}

fn symmetric_square(t: usize, idx: usize) -> (r: usize)
    requires
        idx < 128,
    ensures
        r as int == sym_square(t as int, idx as int),
        r < 128,
{
    if idx >= 81 {
        return idx;
    }
    let r = idx / 9;
    let c = idx % 9;
    if t == 0 {
        9 * r + c
    } else if t == 1 {
        9 * c + (8 - r)
    } else if t == 2 {
        9 * (8 - r) + (8 - c)
    } else if t == 3 {
        9 * (8 - c) + r
    } else if t == 4 {
        9 * r + (8 - c)
    } else if t == 5 {
        9 * (8 - r) + c
    } else if t == 6 {
        9 * c + r
    } else {
        9 * (8 - c) + (8 - r)
    }
}

/// Key of a piece of `kind` on square `idx`, in hash word `t`.
pub fn zobrist_key(t: usize, kind: u8, idx: usize) -> (r: u64)
    requires
        idx < 128,
        kind <= 2,
    ensures
        r == zkey(t as int, kind as int, idx as int),
{
    let cell = symmetric_square(t, idx);
    key((kind as u64) * 128 + cell as u64)
}

/// Key of the side to move being white.
pub fn zobrist_turn() -> (r: u64)
    ensures
        r == turn_key(),
{
    key(384)
}

} // verus!
