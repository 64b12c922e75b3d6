//! Quantizer steps.
use vstd::prelude::*;

verus! {

/// Quantizer step of the first coefficient for each quantizer index.
pub const DC_QUANT: [i16; 128] = [
    4, 5, 6, 7, 8, 9, 10, 10, 11, 12, 13, 14, 15, 16, 17, 17,
    18, 19, 20, 20, 21, 21, 22, 22, 23, 23, 24, 25, 25, 26, 27, 28,
    29, 30, 31, 32, 33, 34, 35, 36, 37, 37, 38, 39, 40, 41, 42, 43,
    44, 45, 46, 46, 47, 48, 49, 50, 51, 52, 53, 54, 55, 56, 57, 58,
    59, 60, 61, 62, 63, 64, 65, 66, 67, 68, 69, 70, 71, 72, 73, 74,
    75, 76, 76, 77, 78, 79, 80, 81, 82, 83, 84, 85, 86, 87, 88, 89,
    91, 93, 95, 96, 98, 100, 101, 102, 104, 106, 108, 110, 112, 114, 116, 118,
    122, 124, 126, 128, 130, 132, 134, 136, 138, 140, 143, 145, 148, 151, 154, 157,
];

/// Quantizer step of the other coefficients for each quantizer index.
pub const AC_QUANT: [i16; 128] = [
    4, 5, 6, 7, 8, 9, 10, 11, 12, 13, 14, 15, 16, 17, 18, 19,
    20, 21, 22, 23, 24, 25, 26, 27, 28, 29, 30, 31, 32, 33, 34, 35,
    36, 37, 38, 39, 40, 41, 42, 43, 44, 45, 46, 47, 48, 49, 50, 51,
    52, 53, 54, 55, 56, 57, 58, 60, 62, 64, 66, 68, 70, 72, 74, 76,
    78, 80, 82, 84, 86, 88, 90, 92, 94, 96, 98, 100, 102, 104, 106, 108,
    110, 112, 114, 116, 119, 122, 125, 128, 131, 134, 137, 140, 143, 146, 149, 152,
    155, 158, 161, 164, 167, 170, 173, 177, 181, 185, 189, 193, 197, 201, 205, 209,
    213, 217, 221, 225, 229, 234, 239, 245, 249, 254, 259, 264, 269, 274, 279, 284,
];

/// Quantizer step of coefficient `i` for a quantizer index.
pub closed spec fn quant_step(q_idx: int, i: int) -> int {
    if i == 0 {
        DC_QUANT[q_idx] as int
    } else {
        AC_QUANT[q_idx] as int
    }
}

pub fn dc_step(q_idx: usize) -> (r: i32)
    requires
        q_idx < 128,
    ensures
        r == quant_step(q_idx as int, 0),
        4 <= r <= 157,
{
    DC_QUANT[q_idx] as i32
}

pub fn ac_step(q_idx: usize) -> (r: i32)
    requires
        q_idx < 128,
    ensures
        forall|i: int| i != 0 ==> r == #[trigger] quant_step(q_idx as int, i),
        4 <= r <= 284,
{
    AC_QUANT[q_idx] as i32
}

/// Every step is at least 4.
pub proof fn lemma_quant_step(q_idx: int, i: int)
    requires
        0 <= q_idx < 128,
    ensures
        4 <= quant_step(q_idx, i) <= 284,
{
}

/// Steps grow with the quantizer index, and those of the first coefficient are never the greater.
pub proof fn lemma_steps_in_order(q_idx: int)
    requires
        0 <= q_idx < 127,
    ensures
        forall|i: int| #[trigger] quant_step(q_idx, i) <= quant_step(q_idx + 1, i),
        quant_step(q_idx, 0) <= quant_step(q_idx, 1),
{
}

/// All coefficients but the first share one step.
pub proof fn lemma_two_steps(q_idx: int, i: int)
    requires
        i != 0,
    ensures
        quant_step(q_idx, i) == quant_step(q_idx, 1),
{
}

/// The steps of all coefficients but the first grow by one at first, then by two, three, four and five
/// from one index to the next.
pub proof fn lemma_ac_stretches(q: int)
    requires
        0 <= q < 128,
    ensures
        q <= 54 ==> quant_step(q, 1) == q + 4,
        54 <= q <= 83 ==> quant_step(q, 1) == 58 + 2 * (q - 54),
        83 <= q <= 102 ==> quant_step(q, 1) == 116 + 3 * (q - 83),
        102 <= q <= 116 ==> quant_step(q, 1) == 173 + 4 * (q - 102),
        116 <= q <= 118 ==> quant_step(q, 1) == 229 + 5 * (q - 116),
        q == 119 ==> quant_step(q, 1) == 245,
        120 <= q ==> quant_step(q, 1) == 249 + 5 * (q - 120),
{
}

/// The steps of the first coefficient grow by one over the most of the range, now and then not at
/// all, and towards its end by two, three or four.
pub proof fn lemma_dc_stretches(q: int)
    requires
        0 <= q < 128,
    ensures
        q <= 6 ==> quant_step(q, 0) == q + 4,
        7 <= q <= 14 ==> quant_step(q, 0) == q + 3,
        15 <= q <= 18 ==> quant_step(q, 0) == q + 2,
        19 <= q <= 24 ==> quant_step(q, 0) == 20 + (q - 18) / 2,
        25 <= q <= 27 ==> quant_step(q, 0) == q - 2,
        28 <= q <= 40 ==> quant_step(q, 0) == q - 3,
        41 <= q <= 50 ==> quant_step(q, 0) == q - 4,
        51 <= q <= 81 ==> quant_step(q, 0) == q - 5,
        82 <= q <= 95 ==> quant_step(q, 0) == q - 6,
        95 <= q <= 98 ==> quant_step(q, 0) == 89 + 2 * (q - 95),
        99 <= q <= 101 ==> quant_step(q, 0) == 96 + 2 * (q - 99),
        101 <= q <= 103 ==> quant_step(q, 0) == q - 1,
        103 <= q <= 111 ==> quant_step(q, 0) == 102 + 2 * (q - 103),
        112 <= q <= 121 ==> quant_step(q, 0) == 122 + 2 * (q - 112),
        q == 122 ==> quant_step(q, 0) == 143,
        123 <= q ==> quant_step(q, 0) == 145 + 3 * (q - 123),
{
}

} // verus!
