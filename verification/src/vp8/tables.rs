//! Constant tables of the lossy format.
use vstd::prelude::*;

verus! {

pub const DCT_0: i8 = 0;

pub const DCT_1: i8 = 1;

pub const DCT_2: i8 = 2;

pub const DCT_3: i8 = 3;

pub const DCT_4: i8 = 4;

pub const DCT_CAT1: i8 = 5;

pub const DCT_CAT2: i8 = 6;

pub const DCT_CAT3: i8 = 7;

pub const DCT_CAT4: i8 = 8;

pub const DCT_CAT5: i8 = 9;

pub const DCT_CAT6: i8 = 10;

pub const DCT_EOB: i8 = 11;

/// Smallest value of each category of large coefficients.
pub const DCT_CAT_BASE: [u8; 6] = [
    5, 7, 11, 19, 35, 67,
];

/// Band of each coefficient position.
pub const COEFF_BANDS: [u8; 16] = [
    0, 1, 2, 3, 6, 4, 5, 6, 6, 6, 6, 6, 6, 6, 6, 7,
];

/// Place in the block of each coefficient position.
pub const ZIGZAG: [u8; 16] = [
    0, 1, 4, 8, 5, 2, 3, 6, 9, 12, 13, 10, 7, 11, 14, 15,
];

/// Probabilities of the extra bits of each category, twelve for each.
pub const PROB_DCT_CAT: [u8; 72] = [
    159, 0, 0, 0, 0, 0, 0, 0, 0, 0, 0, 0,
    165, 145, 0, 0, 0, 0, 0, 0, 0, 0, 0, 0,
    173, 148, 140, 0, 0, 0, 0, 0, 0, 0, 0, 0,
    176, 155, 140, 135, 0, 0, 0, 0, 0, 0, 0, 0,
    180, 157, 141, 134, 130, 0, 0, 0, 0, 0, 0, 0,
    254, 254, 243, 230, 196, 177, 153, 140, 133, 130, 129, 0,
];

/// Band of coefficient position `i`.
pub closed spec fn band_of(i: int) -> int {
    COEFF_BANDS[i] as int
}

/// Place in the block of coefficient position `i`.
pub closed spec fn zigzag(i: int) -> int {
    ZIGZAG[i] as int
}

/// Probability of extra bit `k` of a category.
pub closed spec fn extra_prob(category: int, k: int) -> u8 {
    PROB_DCT_CAT[category * 12 + k]
}

pub fn band_at(i: usize) -> (r: usize)
    requires
        i < 16,
    ensures
        r == band_of(i as int),
        r < 8,
{
    COEFF_BANDS[i] as usize
}

pub fn zigzag_at(i: usize) -> (r: usize)
    requires
        i < 16,
    ensures
        r == zigzag(i as int),
        r < 16,
{
    ZIGZAG[i] as usize
}

pub fn extra_prob_at(category: usize, k: usize) -> (r: u8)
    requires
        category < 6,
        k < 12,
    ensures
        r == extra_prob(category as int, k as int),
{
    PROB_DCT_CAT[category * 12 + k]
}

/// Position of block place `j`.
pub closed spec fn zigzag_inverse(j: int) -> int {
    if j == 0 {
        0
    } else if j == 1 {
        1
    } else if j == 2 {
        5
    } else if j == 3 {
        6
    } else if j == 4 {
        2
    } else if j == 5 {
        4
    } else if j == 6 {
        7
    } else if j == 7 {
        12
    } else if j == 8 {
        3
    } else if j == 9 {
        8
    } else if j == 10 {
        11
    } else if j == 11 {
        13
    } else if j == 12 {
        9
    } else if j == 13 {
        10
    } else if j == 14 {
        14
    } else {
        15
    }
}

/// The positions visit every place of a block once.
pub proof fn lemma_zigzag(i: int)
    requires
        0 <= i < 16,
    ensures
        0 <= zigzag(i) < 16,
        0 <= zigzag_inverse(i) < 16,
        zigzag(zigzag_inverse(i)) == i,
        zigzag_inverse(zigzag(i)) == i,
        0 <= band_of(i) < 8,
{
}

/// Positions step along the diagonals of a block.
pub proof fn lemma_zigzag_steps(i: int)
    requires
        0 <= i < 15,
    ensures
        ({
            let d = zigzag(i) / 4 + zigzag(i) % 4;
            let e = zigzag(i + 1) / 4 + zigzag(i + 1) % 4;
            &&& e == d || e == d + 1
            &&& e == d && d % 2 == 1 ==> zigzag(i + 1) / 4 == zigzag(i) / 4 + 1
            &&& e == d && d % 2 == 0 ==> zigzag(i + 1) / 4 == zigzag(i) / 4 - 1
            &&& i == 0 ==> zigzag(i) == 0
        }),
{
}

/// Probabilities fall from one extra bit of a category to the next.
pub proof fn lemma_extra_falls(category: int, k: int)
    requires
        0 <= category < 6,
        0 <= k,
        k < category || (category == 5 && k < 10),
    ensures
        extra_prob(category, k) >= extra_prob(category, k + 1) >= 128,
{
    let at = category * 12 + k;
    assert(PROB_DCT_CAT[at] >= PROB_DCT_CAT[at + 1] >= 128);
}

/// The first four positions and the last have bands of their own, and so have the sixth and the
/// seventh; all others share one.
pub proof fn lemma_bands(i: int, j: int)
    requires
        0 <= i < j < 16,
    ensures
        (band_of(i) == band_of(j)) == (i != 5 && i != 6 && i >= 4 && j != 5 && j != 6 && j < 15),
        i < 4 ==> band_of(i) == i,
        band_of(15) == 7,
        band_of(4) == 6,
        band_of(5) == 4,
        band_of(6) == 5,
{
}

} // verus!
