use vstd::prelude::*;

verus! {

/// Bit `i` of a bitboard, for `0 <= i < 128`.
pub open spec fn bit(b: u128, i: int) -> bool {
    0 <= i < 128 && (b >> (i as u128)) & 1u128 == 1u128
}

pub proof fn lemma_bit_or(a: u128, b: u128, i: u128)
    by (bit_vector)
    requires
        i < 128,
    ensures
        ((a | b) >> i) & 1u128 == 1u128 <==> ((a >> i) & 1u128 == 1u128 || (b >> i) & 1u128 == 1u128),
{
}

pub proof fn lemma_bit_and(a: u128, b: u128, i: u128)
    by (bit_vector)
    requires
        i < 128,
    ensures
        ((a & b) >> i) & 1u128 == 1u128 <==> ((a >> i) & 1u128 == 1u128 && (b >> i) & 1u128 == 1u128),
{
}

pub proof fn lemma_bit_xor(a: u128, b: u128, i: u128)
    by (bit_vector)
    requires
        i < 128,
    ensures
        ((a ^ b) >> i) & 1u128 == 1u128 <==> (((a >> i) & 1u128 == 1u128) != ((b >> i) & 1u128 == 1u128)),
{
}

pub proof fn lemma_bit_not(a: u128, i: u128)
    by (bit_vector)
    requires
        i < 128,
    ensures
        ((!a) >> i) & 1u128 == 1u128 <==> !((a >> i) & 1u128 == 1u128),
        (0u128 >> i) & 1u128 == 0u128,
{
}

pub proof fn lemma_bit_single(j: u128, i: u128)
    by (bit_vector)
    requires
        i < 128,
        j < 128,
    ensures
        ((1u128 << j) >> i) & 1u128 == 1u128 <==> i == j,
{
}

/// The bit-level facts used throughout, in terms of `bit`.
pub proof fn lemma_bits(a: u128, b: u128)
    ensures
        forall|i: int| #[trigger] bit(a | b, i) <==> bit(a, i) || bit(b, i),
        forall|i: int| #[trigger] bit(a & b, i) <==> bit(a, i) && bit(b, i),
        forall|i: int| #[trigger] bit(a ^ b, i) <==> bit(a, i) != bit(b, i),
        forall|i: int| 0 <= i < 128 ==> (#[trigger] bit(!a, i) <==> !bit(a, i)),
{
    assert forall|i: int| #[trigger] bit(a | b, i) <==> bit(a, i) || bit(b, i) by {
        if 0 <= i < 128 {
            lemma_bit_or(a, b, i as u128);
        }
    }
    assert forall|i: int| #[trigger] bit(a & b, i) <==> bit(a, i) && bit(b, i) by {
        if 0 <= i < 128 {
            lemma_bit_and(a, b, i as u128);
        }
    }
    assert forall|i: int| #[trigger] bit(a ^ b, i) <==> bit(a, i) != bit(b, i) by {
        if 0 <= i < 128 {
            lemma_bit_xor(a, b, i as u128);
        }
    }
    assert forall|i: int| 0 <= i < 128 implies (#[trigger] bit(!a, i) <==> !bit(a, i)) by {
        lemma_bit_not(a, i as u128);
    }
}

pub proof fn lemma_single(j: int)
    requires
        0 <= j < 128,
    ensures
        forall|i: int| #[trigger] bit(1u128 << (j as u128), i) <==> i == j,
{
    assert forall|i: int| #[trigger] bit(1u128 << (j as u128), i) <==> i == j by {
        if 0 <= i < 128 {
            lemma_bit_single(j as u128, i as u128);
        }
    }
}


pub proof fn lemma_bit_half(a: u128, i: u128, j: u128)
    by (bit_vector)
    requires
        i < 127,
        j == i + 1,
    ensures
        ((a >> j) & 1u128 == 1u128) == (((a / 2) >> i) & 1u128 == 1u128),
        ((a >> 0u128) & 1u128 == 1u128) == (a % 2 == 1),
        ((a / 2) >> 127u128) & 1u128 == 0u128,
{
}

/// Two bitboards with the same bits are equal.
pub proof fn lemma_bit_ext(a: u128, b: u128)
    requires
        forall|i: int| 0 <= i < 128 ==> bit(a, i) == bit(b, i),
    ensures
        a == b,
    decreases a + b,
{
    if a + b > 0 {
        lemma_bit_half(a, 0, 1);
        lemma_bit_half(b, 0, 1);
        assert(bit(a, 0) == bit(b, 0));
        assert forall|i: int| 0 <= i < 128 implies #[trigger] bit(a / 2, i) == bit(b / 2, i) by {
            if i < 127 {
                lemma_bit_half(a, i as u128, (i + 1) as u128);
                lemma_bit_half(b, i as u128, (i + 1) as u128);
                assert(bit(a, i + 1) == bit(b, i + 1));
            }
        }
        lemma_bit_ext(a / 2, b / 2);
    }
}

/// Exclusive-or laws on hash words.
pub proof fn lemma_xor64(a: u64, b: u64, c: u64)
    by (bit_vector)
    ensures
        (a ^ b) ^ c == a ^ (b ^ c),
        a ^ b == b ^ a,
        a ^ 0u64 == a,
        a ^ a == 0u64,
{
}

pub proof fn lemma_low_mask(x: u128, r: u128, j: u128)
    by (bit_vector)
    requires
        r < 128,
        j < r,
        x & (((1u128 << r) - 1) as u128) == 0u128,
    ensures
        (x >> j) & 1u128 == 0u128,
{
}

pub proof fn lemma_clear_lowest(x: u128, r: u128)
    by (bit_vector)
    requires
        r < 128,
        x & (((1u128 << r) - 1) as u128) == 0u128,
        (x >> r) & 1u128 == 1u128,
    ensures
        x & ((x - 1) as u128) == x & !(1u128 << r),
{
}

/// The position of the lowest set bit, `128` for an empty bitboard.
pub open spec fn lowest_bit(x: u128, r: int) -> bool {
    &&& 0 <= r <= 128
    &&& (r == 128 <==> x == 0)
    &&& r < 128 ==> bit(x, r)
    &&& forall|j: int| 0 <= j < r ==> !bit(x, j)
}

/// `u128::trailing_zeros`: the number of zero bits below the lowest set bit,
/// 128 when no bit is set.
#[verifier::external_body]
fn u128_trailing_zeros(x: u128) -> (r: u32)
    ensures
        r <= 128,
        r == 128 <==> x == 0,
        r < 128 ==> (x >> (r as u128)) & 1u128 == 1u128,
        r < 128 ==> x & (((1u128 << (r as u128)) - 1) as u128) == 0u128,
{
    x.trailing_zeros()
}

/// Index of the lowest set bit (128 for an empty bitboard).
pub fn trailing_zeros(x: u128) -> (r: u32)
    ensures
        lowest_bit(x, r as int),
{
    let r = u128_trailing_zeros(x);
    proof {
        if r < 128 {
            assert forall|j: int| 0 <= j < r implies !bit(x, j) by {
                lemma_low_mask(x, r as u128, j as u128);
            }
        } else {
            assert forall|j: int| 0 <= j < r implies !bit(x, j) by {
                lemma_bit_not(x, j as u128);
            }
        }
    }
    r
}

/// Number of set bits among the lowest `n`.
pub open spec fn popcount_upto(x: u128, n: int) -> nat
    decreases n,
{
    if n <= 0 {
        0
    } else {
        popcount_upto(x, n - 1) + if bit(x, n - 1) {
            1nat
        } else {
            0nat
        }
    }
}

/// Number of set bits.
pub open spec fn popcount(x: u128) -> nat {
    popcount_upto(x, 128)
}

pub proof fn lemma_popcount_upto_le(x: u128, n: int)
    requires
        0 <= n,
    ensures
        popcount_upto(x, n) <= n,
    decreases n,
{
    if n > 0 {
        lemma_popcount_upto_le(x, n - 1);
    }
}

pub proof fn lemma_popcount_le(x: u128)
    ensures
        popcount(x) <= 128,
{
    lemma_popcount_upto_le(x, 128);
}

/// `u128::count_ones`: the number of set bits.
#[verifier::external_body]
fn u128_count_ones(x: u128) -> (r: u32)
    ensures
        r as nat == popcount(x),
{
    x.count_ones()
}

/// Number of set bits, as the evaluation uses it.
pub fn count_ones(x: u128) -> (r: i32)
    ensures
        r as int == popcount(x),
        0 <= r <= 128,
{
    proof {
        lemma_popcount_le(x);
    }
    u128_count_ones(x) as i32
}


pub proof fn lemma_and_masks(x: u128, i: u128)
    by (bit_vector)
    requires
        i < 128,
    ensures
        (x & 1u128) == 0u128 || (x & 1u128) == 1u128,
        x & 0u128 == 0u128,
        x & (1u128 << i) & !0u128 == (if (x >> i) & 1u128 == 1u128 {
            1u128 << i
        } else {
            0u128
        }),
{
}

/// Bit `idx` of `bitboard`; a negative index reads as an empty square.
pub fn extract_bit(bitboard: u128, idx: i8) -> (r: bool)
    ensures
        r == (0 <= idx && bit(bitboard, idx as int)),
{
    let mask: u128 = if idx < 0 {
        0
    } else {
        1
    };
    proof {
        lemma_and_masks(bitboard.wrapping_shr(idx as u32), 0);
    }
    ((bitboard.wrapping_shr(idx as u32)) & mask) != 0
}

/// Bit `idx` of `bitboard` kept in place (the single-bit mask, or zero).
pub fn extract_bit_inplace(bitboard: u128, idx: i8) -> (r: u128)
    ensures
        r == (if 0 <= idx && bit(bitboard, idx as int) {
            1u128 << (idx as u128)
        } else {
            0u128
        }),
{
    let bitmask = 1u128.wrapping_shl(idx as u32);
    let range_mask: u128 = if idx < 0 {
        0
    } else {
        !0u128
    };
    proof {
        if idx >= 0 {
            lemma_and_masks(bitboard, idx as u128);
        } else {
            lemma_and_masks(bitboard & bitmask, 0);
        }
    }
    bitboard & bitmask & range_mask
}

/// All ones when `cond` holds, all zeros otherwise.
pub fn bit_to_mask(cond: bool) -> (r: u128)
    ensures
        r == (if cond {
            !0u128
        } else {
            0u128
        }),
{
    if cond {
        !0u128
    } else {
        0
    }
}

/// Removes the lowest set bit of `pieces` and returns its index.
pub fn pop_piece(pieces: &mut u128) -> (r: Option<u8>)
    ensures
        *old(pieces) == 0 ==> r is None && *final(pieces) == 0,
        *old(pieces) != 0 ==> (r matches Some(i) && lowest_bit(*old(pieces), i as int)
            && *final(pieces) == *old(pieces) & !(1u128 << (i as u128))),
{
    if *pieces == 0 {
        return None;
    }
    let tz = u128_trailing_zeros(*pieces);
    proof {
        lemma_clear_lowest(*pieces, tz as u128);
        assert forall|j: int| 0 <= j < tz implies !bit(*old(pieces), j) by {
            lemma_low_mask(*old(pieces), tz as u128, j as u128);
        }
    }
    *pieces &= *pieces - 1;
    Some(tz as u8)
}


/// Value-level facts about masks.
pub proof fn lemma_mask_facts(x: u128)
    by (bit_vector)
    ensures
        x & !0u128 == x,
        x & 0u128 == 0u128,
        x | 0u128 == x,
        0u128 | x == x,
        x | x == x,
        !0u128 & x == x,
        0u128 & x == 0u128,
        x ^ 0u128 == x,
        0u128 ^ x == x,
{
}

pub proof fn lemma_zero_bits()
    ensures
        forall|i: int| !bit(0u128, i),
{
    assert forall|i: int| !bit(0u128, i) by {
        if 0 <= i < 128 {
            lemma_bit_not(0, i as u128);
        }
    }
}


/// Testing a single bit with a mask.
pub proof fn lemma_test_bit(x: u128, i: int)
    requires
        0 <= i < 128,
    ensures
        x & (1u128 << (i as u128)) == (if bit(x, i) {
            1u128 << (i as u128)
        } else {
            0u128
        }),
        (1u128 << (i as u128)) != 0u128,
{
    lemma_and_masks(x, i as u128);
    lemma_mask_facts(x & (1u128 << (i as u128)));
    lemma_single(i);
    lemma_zero_bits();
    assert(bit(1u128 << (i as u128), i));
}


/// The index of the lowest set bit (128 for an empty bitboard).
pub open spec fn lowest_index(x: u128) -> int {
    choose|r: int| lowest_bit(x, r)
}

/// The lowest set bit is unique, and `lowest_index` names it.
pub proof fn lemma_lowest_index(x: u128, r: int)
    requires
        lowest_bit(x, r),
    ensures
        lowest_index(x) == r,
{
    let q = lowest_index(x);
    assert(lowest_bit(x, q));
    if q < r {
        assert(!bit(x, q));
    } else if r < q {
        assert(!bit(x, r));
    }
}

} // verus!
