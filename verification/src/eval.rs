//! Feature-based evaluation of a position.
use vstd::prelude::*;
use crate::bitops::{popcount, count_ones, lowest_index, lemma_lowest_index, lemma_popcount_le};
use crate::board::{State, THRONE, white_mobility_spec, MOBILITY_CAP};
use crate::weights::{Weights, WEIGHT_BOUND};

verus! {

/// All citadel squares.
pub const ALL_CITADELS: u128 = 264600106062302366670904;
/// The four outer 3x3 corners.
pub const EXTERNAL: u128 = 2152881580533779429035975;
/// The ring around the throne.
pub const INTERNAL: u128 = 290208130212560896;

/// The masks of one of the four sectors of the board.
#[derive(Clone, Copy)]
pub struct SectorMasks {
    pub citadel: u128,
    pub quadrant: u128,
    pub white_quadrant: u128,
    pub first: u128,
    pub first_infiltration: u128,
    pub second: u128,
    pub second_infiltration: u128,
    pub third: u128,
    pub third_infiltration: u128,
    pub solid: u128,
}

pub open spec fn sector(i: int) -> SectorMasks {
    if i == 0 {
        SectorMasks {
            citadel: 8248,
            quadrant: 2384656163722786949300224,
            white_quadrant: 18926431620092124741151,
            first: 526336,
            first_infiltration: 263687,
            second: 1048576,
            second_infiltration: 790023,
            third: 538968064,
            third_infiltration: 270278151,
            solid: 540016640,
        }
    } else if i == 1 {
        SectorMasks {
            citadel: 35390664736768,
            quadrant: 297795283697879662723072,
            white_quadrant: 302822905921471986524656,
            first: 33587200,
            first_infiltration: 67305920,
            second: 16777216,
            second_infiltration: 100893120,
            third: 8598323200,
            third_infiltration: 17297555904,
            solid: 8615100416,
        }
    } else if i == 2 {
        SectorMasks {
            citadel: 9033621893545984,
            quadrant: 35392547733055,
            white_quadrant: 146688491952586221422596,
            first: 36929516944438067200,
            first_infiltration: 33084253510596590305280,
            second: 72057594037927936,
            second_infiltration: 33121183027541028372480,
            third: 144255925564211200,
            third_infiltration: 33195042131798648684544,
            solid: 216313519602139136,
        }
    } else {
        SectorMasks {
            citadel: 264600096993289808379904,
            quadrant: 9033652084400632,
            white_quadrant: 2346877790876804363354176,
            first: 592601653367919345664,
            first_infiltration: 2119166570873771717033984,
            second: 1152921504606846976,
            second_infiltration: 2119759172527139636379648,
            third: 578712552117108736,
            third_infiltration: 2120055477857423223422976,
            solid: 1731634056723955712,
        }
    }
}

fn sector_masks(i: usize) -> (m: SectorMasks)
    ensures
        m == sector(i as int),
{
    if i == 0 {
        SectorMasks {
            citadel: 8248,
            quadrant: 2384656163722786949300224,
            white_quadrant: 18926431620092124741151,
            first: 526336,
            first_infiltration: 263687,
            second: 1048576,
            second_infiltration: 790023,
            third: 538968064,
            third_infiltration: 270278151,
            solid: 540016640,
        }
    } else if i == 1 {
        SectorMasks {
            citadel: 35390664736768,
            quadrant: 297795283697879662723072,
            white_quadrant: 302822905921471986524656,
            first: 33587200,
            first_infiltration: 67305920,
            second: 16777216,
            second_infiltration: 100893120,
            third: 8598323200,
            third_infiltration: 17297555904,
            solid: 8615100416,
        }
    } else if i == 2 {
        SectorMasks {
            citadel: 9033621893545984,
            quadrant: 35392547733055,
            white_quadrant: 146688491952586221422596,
            first: 36929516944438067200,
            first_infiltration: 33084253510596590305280,
            second: 72057594037927936,
            second_infiltration: 33121183027541028372480,
            third: 144255925564211200,
            third_infiltration: 33195042131798648684544,
            solid: 216313519602139136,
        }
    } else {
        SectorMasks {
            citadel: 264600096993289808379904,
            quadrant: 9033652084400632,
            white_quadrant: 2346877790876804363354176,
            first: 592601653367919345664,
            first_infiltration: 2119166570873771717033984,
            second: 1152921504606846976,
            second_infiltration: 2119759172527139636379648,
            third: 578712552117108736,
            third_infiltration: 2120055477857423223422976,
            solid: 1731634056723955712,
        }
    }
}

pub open spec fn pcount(x: u128) -> int {
    popcount(x) as int
}

/// Every square of `m` holds a piece of `b`.
pub open spec fn covers(b: u128, m: u128) -> bool {
    b & m == m
}

pub open spec fn ind(b: bool) -> int {
    if b {
        1
    } else {
        0
    }
}

pub open spec fn min_int(a: int, b: int) -> int {
    if a <= b {
        a
    } else {
        b
    }
}

pub open spec fn max_int(a: int, b: int) -> int {
    if a >= b {
        a
    } else {
        b
    }
}

pub open spec fn abs_int(a: int) -> int {
    if a < 0 {
        -a
    } else {
        a
    }
}

/// Black closes sector `i` with its first line and white has not got behind it.
pub open spec fn first_at(s: State, i: int) -> bool {
    covers(s.black, sector(i).first) && s.white & sector(i).first_infiltration == 0
}

pub open spec fn second_at(s: State, i: int) -> bool {
    covers(s.black, sector(i).second) && s.white & sector(i).second_infiltration == 0
}

pub open spec fn third_at(s: State, i: int) -> bool {
    covers(s.black, sector(i).third) && s.white & sector(i).third_infiltration == 0
}

pub open spec fn solid_at(s: State, i: int) -> bool {
    covers(s.black, sector(i).solid)
}

/// Black holds one of the blocking patterns of sector `i`.
pub open spec fn blocked_at(s: State, i: int) -> bool {
    covers(s.black, sector(i).first) || covers(s.black, sector(i).second) || covers(
        s.black,
        sector(i).third,
    ) || covers(s.black, sector(i).solid)
}

pub open spec fn sum4(f: spec_fn(int) -> int) -> int {
    f(0) + f(1) + f(2) + f(3)
}

pub open spec fn min4(f: spec_fn(int) -> int) -> int {
    min_int(min_int(min_int(f(0), f(1)), f(2)), f(3))
}

pub open spec fn ready(s: State) -> int {
    min4(|i: int| pcount(s.black & sector(i).citadel))
}

pub open spec fn balance(s: State) -> int {
    min4(|i: int| pcount(s.black & sector(i).quadrant))
}

pub open spec fn third_lines(s: State) -> int {
    sum4(|i: int| ind(third_at(s, i)))
}

pub open spec fn solid_controls(s: State) -> int {
    sum4(|i: int| ind(solid_at(s, i) && !third_at(s, i)))
}

pub open spec fn second_lines(s: State) -> int {
    sum4(|i: int| ind(second_at(s, i) && !solid_at(s, i) && !third_at(s, i)))
}

pub open spec fn first_lines(s: State) -> int {
    sum4(|i: int| ind(first_at(s, i) && !second_at(s, i) && !solid_at(s, i) && !third_at(s, i)))
}

pub open spec fn king_row(s: State) -> int {
    lowest_index(s.king) / 9
}

pub open spec fn king_col(s: State) -> int {
    lowest_index(s.king) % 9
}

/// Manhattan distance from the king to the corner of sector `i`.
pub open spec fn corner_distance(s: State, i: int) -> int {
    abs_int(9 * (i / 2) - king_row(s)) + abs_int(9 * (i % 2) - king_col(s))
}

pub open spec fn distance_upto(s: State, n: int) -> int
    decreases n,
{
    if n <= 0 {
        15
    } else if !blocked_at(s, n - 1) {
        min_int(distance_upto(s, n - 1), corner_distance(s, n - 1))
    } else {
        distance_upto(s, n - 1)
    }
}

/// Distance from the king to the nearest open sector corner, at most 15.
pub open spec fn distance_from_unblocked(s: State) -> int {
    distance_upto(s, 4)
}

pub open spec fn sector_advantage(s: State, i: int) -> int {
    pcount(s.white & sector(i).white_quadrant) - pcount(s.black & sector(i).white_quadrant)
}

pub open spec fn advantage_upto(s: State, n: int) -> int
    decreases n,
{
    if n <= 0 {
        -1
    } else if !blocked_at(s, n - 1) {
        max_int(advantage_upto(s, n - 1), sector_advantage(s, n - 1))
    } else {
        advantage_upto(s, n - 1)
    }
}

/// Best white material advantage over the open sectors, at least -1.
pub open spec fn quadrant_advantage(s: State) -> int {
    advantage_upto(s, 4)
}

/// The squares of column 0.
pub const COLUMN_0: u128 = 4731607904558235517441;
/// The squares of column 8.
pub const COLUMN_8: u128 = 1211291623566908292464896;
/// The 81 squares of the board.
pub const ON_BOARD: u128 = 2417851639229258349412351;

/// The squares of the board orthogonally next to the squares of `k`: a
/// square of column 0 has no left neighbour and one of column 8 no right
/// one.
pub open spec fn adjacent(k: u128) -> u128 {
    (((k & !COLUMN_0) >> 1u128) | ((k & !COLUMN_8) << 1u128) | (k >> 9u128) | (k << 9u128)) & ON_BOARD
}

/// Neighbours of the king held by black or a citadel.
pub open spec fn encirclement(s: State) -> int {
    pcount(adjacent(s.king) & (s.black | ALL_CITADELS))
}

/// The 2x2 block with the king at corner `j`.
pub open spec fn square_at(k: u128, j: int) -> u128 {
    if j == 0 {
        k | (k << 1u128) | (k << 9u128) | (k << 10u128)
    } else if j == 1 {
        k | (k >> 1u128) | (k << 9u128) | (k << 8u128)
    } else if j == 2 {
        k | (k << 1u128) | (k >> 9u128) | (k >> 8u128)
    } else {
        k | (k >> 1u128) | (k >> 9u128) | (k >> 10u128)
    }
}

/// The 2x2 block with the king at corner `j` stays within the king's row
/// ends: blocks 0 and 2 reach one column right, blocks 1 and 3 one column
/// left.
pub open spec fn square_fits(k: u128, j: int) -> bool {
    if j == 0 || j == 2 {
        k & COLUMN_8 == 0
    } else {
        k & COLUMN_0 == 0
    }
}

/// More than four white pieces and the king, off the throne, in a white 2x2 block.
pub open spec fn square_formation(s: State) -> bool {
    pcount(s.white) > 4 && s.king != THRONE && exists|j: int|
        0 <= j < 4 && square_fits(s.king, j) && #[trigger] covers(s.white, square_at(s.king, j))
}

/// The feature values, in weight order.
pub open spec fn features(s: State) -> Seq<int> {
    seq![
        pcount(s.white),
        pcount(s.black),
        ready(s),
        balance(s),
        first_lines(s),
        second_lines(s),
        third_lines(s),
        solid_controls(s),
        pcount(s.black & INTERNAL),
        pcount(s.white & EXTERNAL),
        white_mobility_spec(s),
        distance_from_unblocked(s),
        quadrant_advantage(s),
        encirclement(s),
    ]
}

pub open spec fn weight_list(w: Weights) -> Seq<int> {
    seq![
        w.white_piece as int,
        w.black_piece as int,
        w.ready as int,
        w.balance as int,
        w.first_line as int,
        w.second_line as int,
        w.third_line as int,
        w.solid_control as int,
        w.black_in as int,
        w.white_out as int,
        w.white_moves as int,
        w.distance_from_unblocked as int,
        w.quadrant_advantage as int,
        w.encirclement as int,
    ]
}

/// Sum of the first `k` weighted features, added left to right.
pub open spec fn weighted_prefix(f: Seq<int>, w: Seq<int>, k: int) -> int
    decreases k,
{
    if k <= 0 {
        0
    } else {
        weighted_prefix(f, w, k - 1) + f[k - 1] * w[k - 1]
    }
}

pub open spec fn fits_i32(x: int) -> bool {
    i32::MIN <= x <= i32::MAX
}

/// The weighted sum of the features.
pub open spec fn raw_score(s: State, w: Weights) -> int {
    weighted_prefix(features(s), weight_list(w), 14)
}

/// The score after the 2x2-block correction, from white's point of view.
pub open spec fn corrected_score(s: State, w: Weights) -> int {
    let score = raw_score(s, w);
    if square_formation(s) && w.square_formation == 1 && score > 100 {
        max_int(100 - 5 * pcount(s.white) + 3 * pcount(s.black), 1)
    } else {
        score
    }
}

/// The evaluation: higher is better for the side to move.
pub open spec fn evaluation(s: State, w: Weights) -> int {
    if s.white_to_move {
        -corrected_score(s, w)
    } else {
        corrected_score(s, w)
    }
}

/// No product or partial sum of the evaluation leaves the `i32` range.
pub open spec fn eval_fits(s: State, w: Weights) -> bool {
    &&& forall|k: int| 0 <= k < 14 ==> fits_i32(#[trigger] (features(s)[k] * weight_list(w)[k]))
    &&& forall|k: int| 1 <= k <= 14 ==> fits_i32(#[trigger] weighted_prefix(features(s), weight_list(w), k))
    &&& fits_i32(evaluation(s, w))
}


fn covers_exec(b: u128, m: u128) -> (r: bool)
    ensures
        r == covers(b, m),
{
    b & m == m
}

fn min_i32(a: i32, b: i32) -> (r: i32)
    ensures
        r == min_int(a as int, b as int),
{
    if a <= b {
        a
    } else {
        b
    }
}

fn max_i32(a: i32, b: i32) -> (r: i32)
    ensures
        r == max_int(a as int, b as int),
{
    if a >= b {
        a
    } else {
        b
    }
}

fn ready_exec(s: &State) -> (r: i32)
    ensures
        r == ready(*s),
{
    let c0 = count_ones(s.black & sector_masks(0).citadel);
    let c1 = count_ones(s.black & sector_masks(1).citadel);
    let c2 = count_ones(s.black & sector_masks(2).citadel);
    let c3 = count_ones(s.black & sector_masks(3).citadel);
    min_i32(min_i32(min_i32(c0, c1), c2), c3)
}

fn balance_exec(s: &State) -> (r: i32)
    ensures
        r == balance(*s),
{
    let c0 = count_ones(s.black & sector_masks(0).quadrant);
    let c1 = count_ones(s.black & sector_masks(1).quadrant);
    let c2 = count_ones(s.black & sector_masks(2).quadrant);
    let c3 = count_ones(s.black & sector_masks(3).quadrant);
    min_i32(min_i32(min_i32(c0, c1), c2), c3)
}

/// The line patterns of sector `i`: (first, second, third, solid), each
/// counted only when no stronger pattern of the sector holds.
fn sector_lines(s: &State, i: usize) -> (r: (i32, i32, i32, i32))
    requires
        i < 4,
    ensures
        r.0 == ind(first_at(*s, i as int) && !second_at(*s, i as int) && !solid_at(*s, i as int)
            && !third_at(*s, i as int)),
        r.1 == ind(second_at(*s, i as int) && !solid_at(*s, i as int) && !third_at(*s, i as int)),
        r.2 == ind(third_at(*s, i as int)),
        r.3 == ind(solid_at(*s, i as int) && !third_at(*s, i as int)),
{
    let m = sector_masks(i);
    let first = covers_exec(s.black, m.first) && s.white & m.first_infiltration == 0;
    let second = covers_exec(s.black, m.second) && s.white & m.second_infiltration == 0;
    let third = covers_exec(s.black, m.third) && s.white & m.third_infiltration == 0;
    let solid = covers_exec(s.black, m.solid);
    let f: i32 = if first && !second && !solid && !third { 1 } else { 0 };
    let se: i32 = if second && !solid && !third { 1 } else { 0 };
    let th: i32 = if third { 1 } else { 0 };
    let so: i32 = if solid && !third { 1 } else { 0 };
    (f, se, th, so)
}

fn blocked_exec(s: &State, i: usize) -> (r: bool)
    requires
        i < 4,
    ensures
        r == blocked_at(*s, i as int),
{
    let m = sector_masks(i);
    covers_exec(s.black, m.first) || covers_exec(s.black, m.second) || covers_exec(s.black, m.third)
        || covers_exec(s.black, m.solid)
}

fn distance_exec(s: &State) -> (r: i32)
    ensures
        r == distance_from_unblocked(*s),
        0 <= r <= 15,
{
    let king_idx = crate::bitops::trailing_zeros(s.king) as i32;
    proof {
        lemma_lowest_index(s.king, king_idx as int);
    }
    let krow = king_idx / 9;
    let kcol = king_idx % 9;
    let mut d: i32 = 15;
    let mut i: usize = 0;
    while i < 4
        invariant
            i <= 4,
            krow == king_row(*s),
            kcol == king_col(*s),
            0 <= krow <= 14,
            0 <= kcol < 9,
            d == distance_upto(*s, i as int),
            0 <= d <= 15,
        decreases 4 - i,
    {
        if !blocked_exec(s, i) {
            let posx = (9 * (i % 2)) as i32;
            let posy = (9 * (i / 2)) as i32;
            let dy = if posy - krow < 0 { krow - posy } else { posy - krow };
            let dx = if posx - kcol < 0 { kcol - posx } else { posx - kcol };
            let dist = dy + dx;
            assert(dist == corner_distance(*s, i as int));
            d = min_i32(d, dist);
        }
        i += 1;
    }
    d
}

fn advantage_exec(s: &State) -> (r: i32)
    ensures
        r == quadrant_advantage(*s),
        -128 <= r <= 128,
{
    let mut a: i32 = -1;
    let mut i: usize = 0;
    while i < 4
        invariant
            i <= 4,
            a == advantage_upto(*s, i as int),
            -128 <= a <= 128,
        decreases 4 - i,
    {
        if !blocked_exec(s, i) {
            let m = sector_masks(i);
            let adv = count_ones(s.white & m.white_quadrant) - count_ones(s.black & m.white_quadrant);
            a = max_i32(a, adv);
        }
        i += 1;
    }
    a
}

fn encirclement_exec(s: &State) -> (r: i32)
    ensures
        r == encirclement(*s),
        0 <= r <= 128,
{
    let k = s.king;
    let adj = (((k & !COLUMN_0) >> 1u128) | ((k & !COLUMN_8) << 1u128) | (k >> 9u128) | (k << 9u128)) & ON_BOARD;
    count_ones(adj & (s.black | ALL_CITADELS))
}

fn square_formation_exec(s: &State, white_count: i32) -> (r: bool)
    requires
        white_count == pcount(s.white),
    ensures
        r == square_formation(*s),
{
    if white_count <= 4 || s.king == THRONE {
        return false;
    }
    let k = s.king;
    let sq0 = k | (k << 1u128) | (k << 9u128) | (k << 10u128);
    let sq1 = k | (k >> 1u128) | (k << 9u128) | (k << 8u128);
    let sq2 = k | (k << 1u128) | (k >> 9u128) | (k >> 8u128);
    let sq3 = k | (k >> 1u128) | (k >> 9u128) | (k >> 10u128);
    assert(sq0 == square_at(k, 0));
    assert(sq1 == square_at(k, 1));
    assert(sq2 == square_at(k, 2));
    assert(sq3 == square_at(k, 3));
    let right = k & COLUMN_8 == 0;
    let left = k & COLUMN_0 == 0;
    let found = (right && covers_exec(s.white, sq0)) || (left && covers_exec(s.white, sq1)) || (right
        && covers_exec(s.white, sq2)) || (left && covers_exec(s.white, sq3));
    proof {
        if found {
            if right && covers(s.white, sq0) {
                assert(square_fits(k, 0) && covers(s.white, square_at(k, 0)));
            } else if left && covers(s.white, sq1) {
                assert(square_fits(k, 1) && covers(s.white, square_at(k, 1)));
            } else if right && covers(s.white, sq2) {
                assert(square_fits(k, 2) && covers(s.white, square_at(k, 2)));
            } else {
                assert(square_fits(k, 3) && covers(s.white, square_at(k, 3)));
            }
        } else {
            assert forall|j: int| 0 <= j < 4 && square_fits(s.king, j) implies !#[trigger] covers(
                s.white,
                square_at(s.king, j),
            ) by {
            }
        }
    }
    found
}

/// Scores the position: the weighted sum of the features, corrected for a
/// king in a white 2x2 block, from the point of view of the side to move.
pub fn evaluate(state: &State, w: &Weights) -> (score: i32)
    requires
        eval_fits(*state, *w),
    ensures
        score == evaluation(*state, *w),
{
    let white_count = count_ones(state.white);
    let black_count = count_ones(state.black);
    let l0 = sector_lines(state, 0);
    let l1 = sector_lines(state, 1);
    let l2 = sector_lines(state, 2);
    let l3 = sector_lines(state, 3);
    let first_line = l0.0 + l1.0 + l2.0 + l3.0;
    let second_line = l0.1 + l1.1 + l2.1 + l3.1;
    let third_line = l0.2 + l1.2 + l2.2 + l3.2;
    let solid_control = l0.3 + l1.3 + l2.3 + l3.3;
    let feats: Vec<i32> = vec![
        white_count,
        black_count,
        ready_exec(state),
        balance_exec(state),
        first_line,
        second_line,
        third_line,
        solid_control,
        count_ones(state.black & INTERNAL),
        count_ones(state.white & EXTERNAL),
        state.white_mobility(),
        distance_exec(state),
        advantage_exec(state),
        encirclement_exec(state),
    ];
    let ws: Vec<i32> = vec![
        w.white_piece,
        w.black_piece,
        w.ready,
        w.balance,
        w.first_line,
        w.second_line,
        w.third_line,
        w.solid_control,
        w.black_in,
        w.white_out,
        w.white_moves,
        w.distance_from_unblocked,
        w.quadrant_advantage,
        w.encirclement,
    ];
    let ghost f = features(*state);
    let ghost wl = weight_list(*w);
    assert(feats@.len() == 14 && ws@.len() == 14);
    assert forall|k: int| 0 <= k < 14 implies feats@[k] as int == f[k] && ws@[k] as int == wl[k] by {}
    let mut score: i32 = 0;
    let mut k: usize = 0;
    while k < 14
        invariant
            k <= 14,
            feats@.len() == 14,
            ws@.len() == 14,
            f == features(*state),
            wl == weight_list(*w),
            eval_fits(*state, *w),
            forall|j: int| 0 <= j < 14 ==> feats@[j] as int == f[j] && ws@[j] as int == wl[j],
            score == weighted_prefix(f, wl, k as int),
        decreases 14 - k,
    {
        assert(fits_i32(f[k as int] * wl[k as int]));
        assert(fits_i32(weighted_prefix(f, wl, k + 1)));
        let term = feats[k] * ws[k];
        score = score + term;
        k += 1;
    }
    if square_formation_exec(state, white_count) && w.square_formation == 1 && score > 100 {
        let clamp = 100 - 5 * white_count + 3 * black_count;
        score = if clamp >= 1 { clamp } else { 1 };
    }
    if state.white_to_move {
        score = -score;
    }
    score
}


/// Largest magnitude of an evaluation with bounded weights.
pub const EVAL_BOUND: i32 = 1_792_000_000;

proof fn lemma_term_bound(f: int, w: int)
    by (nonlinear_arith)
    requires
        -128 <= f <= 128,
        -1_000_000 <= w <= 1_000_000,
    ensures
        -128_000_000 <= f * w <= 128_000_000,
{
}

proof fn lemma_distance_bound(s: State, n: int)
    requires
        0 <= n,
    ensures
        0 <= distance_upto(s, n) <= 15,
    decreases n,
{
    if n > 0 {
        lemma_distance_bound(s, n - 1);
    }
}

proof fn lemma_advantage_bound(s: State, n: int)
    requires
        0 <= n,
    ensures
        -128 <= advantage_upto(s, n) <= 128,
    decreases n,
{
    if n > 0 {
        lemma_advantage_bound(s, n - 1);
        let i = n - 1;
        lemma_popcount_le(s.white & sector(i).white_quadrant);
        lemma_popcount_le(s.black & sector(i).white_quadrant);
    }
}

proof fn lemma_features_bound(s: State)
    ensures
        features(s).len() == 14,
        forall|k: int| 0 <= k < 14 ==> -128 <= #[trigger] features(s)[k] <= 128,
{
    lemma_popcount_le(s.white);
    lemma_popcount_le(s.black);
    lemma_popcount_le(s.black & INTERNAL);
    lemma_popcount_le(s.white & EXTERNAL);
    lemma_popcount_le(adjacent(s.king) & (s.black | ALL_CITADELS));
    lemma_popcount_le(s.black & sector(0).citadel);
    lemma_popcount_le(s.black & sector(0).quadrant);
    lemma_popcount_le(s.black & sector(1).citadel);
    lemma_popcount_le(s.black & sector(1).quadrant);
    lemma_popcount_le(s.black & sector(2).citadel);
    lemma_popcount_le(s.black & sector(2).quadrant);
    lemma_popcount_le(s.black & sector(3).citadel);
    lemma_popcount_le(s.black & sector(3).quadrant);
    lemma_distance_bound(s, 4);
    lemma_advantage_bound(s, 4);
    assert(0 <= ready(s) <= 128);
    assert(0 <= balance(s) <= 128);
    assert(0 <= white_mobility_spec(s) <= MOBILITY_CAP);
}

proof fn lemma_prefix_bound(f: Seq<int>, w: Seq<int>, k: int)
    requires
        0 <= k <= 14,
        f.len() == 14,
        w.len() == 14,
        forall|j: int| 0 <= j < 14 ==> -128_000_000 <= #[trigger] (f[j] * w[j]) <= 128_000_000,
    ensures
        -128_000_000 * k <= weighted_prefix(f, w, k) <= 128_000_000 * k,
    decreases k,
{
    if k > 0 {
        lemma_prefix_bound(f, w, k - 1);
        assert(-128_000_000 <= f[k - 1] * w[k - 1] <= 128_000_000);
    }
}

/// With bounded weights no evaluation overflows, and every evaluation lies
/// within `EVAL_BOUND`.
pub proof fn lemma_eval_bounded(s: State, w: Weights)
    requires
        w.bounded(),
    ensures
        eval_fits(s, w),
        -EVAL_BOUND <= evaluation(s, w) <= EVAL_BOUND,
{
    let f = features(s);
    let wl = weight_list(w);
    lemma_features_bound(s);
    assert forall|k: int| 0 <= k < 14 implies -128_000_000 <= #[trigger] (f[k] * wl[k]) <= 128_000_000 by {
        assert(-WEIGHT_BOUND <= wl[k] <= WEIGHT_BOUND);
        lemma_term_bound(f[k], wl[k]);
    }
    assert forall|k: int| 1 <= k <= 14 implies fits_i32(#[trigger] weighted_prefix(f, wl, k)) by {
        lemma_prefix_bound(f, wl, k);
    }
    lemma_prefix_bound(f, wl, 14);
    lemma_popcount_le(s.white);
    lemma_popcount_le(s.black);
}

proof fn lemma_upto_same_boards(a: State, b: State, n: int)
    requires
        a.white == b.white,
        a.black == b.black,
        a.king == b.king,
    ensures
        distance_upto(a, n) == distance_upto(b, n),
        advantage_upto(a, n) == advantage_upto(b, n),
    decreases n,
{
    if n > 0 {
        lemma_upto_same_boards(a, b, n - 1);
        assert(blocked_at(a, n - 1) == blocked_at(b, n - 1));
        assert(corner_distance(a, n - 1) == corner_distance(b, n - 1));
        assert(sector_advantage(a, n - 1) == sector_advantage(b, n - 1));
    }
}

/// The evaluation is zero-sum: the same position with the other side to move
/// scores the negation.
pub proof fn lemma_eval_side_to_move(s: State, w: Weights)
    ensures
        evaluation(State { white_to_move: !s.white_to_move, ..s }, w) == -evaluation(s, w),
{
    let t = State { white_to_move: !s.white_to_move, ..s };
    assert(State { white_to_move: true, ..t } == State { white_to_move: true, ..s });
    lemma_upto_same_boards(t, s, 4);
    assert(features(t) =~= features(s));
}

proof fn lemma_cover_after_clear(b: u128, mi: u128, mj: u128)
    by (bit_vector)
    requires
        mi & mj == 0,
    ensures
        ((b & !mi) & mj == mj) == (b & mj == mj),
{
}

proof fn lemma_not_cover_after_clear(b: u128, m: u128)
    by (bit_vector)
    requires
        m != 0,
    ensures
        (b & !m) & m != m,
{
}

proof fn lemma_third_masks_disjoint()
    by (bit_vector)
    ensures
        538968064u128 & 8598323200u128 == 0u128,
        8598323200u128 & 538968064u128 == 0u128,
        538968064u128 & 144255925564211200u128 == 0u128,
        144255925564211200u128 & 538968064u128 == 0u128,
        538968064u128 & 578712552117108736u128 == 0u128,
        578712552117108736u128 & 538968064u128 == 0u128,
        8598323200u128 & 144255925564211200u128 == 0u128,
        144255925564211200u128 & 8598323200u128 == 0u128,
        8598323200u128 & 578712552117108736u128 == 0u128,
        578712552117108736u128 & 8598323200u128 == 0u128,
        144255925564211200u128 & 578712552117108736u128 == 0u128,
        578712552117108736u128 & 144255925564211200u128 == 0u128,
{
}

/// The third lines of the four sectors share no square.
proof fn lemma_third_lines_disjoint(i: int, j: int)
    requires
        0 <= i < 4,
        0 <= j < 4,
        i != j,
    ensures
        sector(i).third & sector(j).third == 0,
        sector(i).third != 0,
{
    lemma_third_masks_disjoint();
}

/// A line of a sector that white has got behind is not held: with a white
/// piece on the infiltration squares of sector `i`'s first, second or third
/// line, that line does not count as closed, whatever black holds.
pub proof fn lemma_infiltrated_lines_not_held(s: State, i: int)
    requires
        0 <= i < 4,
    ensures
        s.white & sector(i).first_infiltration != 0 ==> !first_at(s, i),
        s.white & sector(i).second_infiltration != 0 ==> !second_at(s, i),
        s.white & sector(i).third_infiltration != 0 ==> !third_at(s, i),
{
}

/// A third line that white has got behind does not count: while a white
/// piece stands on the infiltration squares of sector `i`'s third line,
/// taking black's pieces off that line leaves the number of third lines
/// counted unchanged.
pub proof fn lemma_infiltrated_third_line_does_not_count(s: State, i: int)
    requires
        0 <= i < 4,
        s.white & sector(i).third_infiltration != 0,
    ensures
        third_lines(s) == third_lines(State { black: s.black & !sector(i).third, ..s }),
{
    let t = State { black: s.black & !sector(i).third, ..s };
    assert forall|j: int| 0 <= j < 4 implies third_at(t, j) == third_at(s, j) by {
        if j == i {
            lemma_third_lines_disjoint(i, (i + 1) % 4);
            lemma_not_cover_after_clear(s.black, sector(i).third);
        } else {
            lemma_third_lines_disjoint(i, j);
            lemma_cover_after_clear(s.black, sector(i).third, sector(j).third);
        }
    }
    assert(third_at(t, 0) == third_at(s, 0));
    assert(third_at(t, 1) == third_at(s, 1));
    assert(third_at(t, 2) == third_at(s, 2));
    assert(third_at(t, 3) == third_at(s, 3));
}

} // verus!
