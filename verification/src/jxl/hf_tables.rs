//! Contexts of high-frequency coefficients.
use vstd::prelude::*;

verus! {

const COEFF_FREQ_CONTEXT: [u32; 63] = [
    0, 1, 2, 3, 4, 5, 6, 7, 8, 9, 10, 11, 12, 13, 14, 15, 15, 16, 16, 17, 17, 18, 18, 19, 19, 20,
    20, 21, 21, 22, 22, 23, 23, 23, 23, 24, 24, 24, 24, 25, 25, 25, 25, 26, 26, 26, 26, 27, 27, 27,
    27, 28, 28, 28, 28, 29, 29, 29, 29, 30, 30, 30, 30,
];

const COEFF_NUM_NONZERO_CONTEXT: [u32; 63] = [
    0, 31, 62, 62, 93, 93, 93, 93, 123, 123, 123, 123, 152, 152, 152, 152, 152, 152, 152, 152, 180,
    180, 180, 180, 180, 180, 180, 180, 180, 180, 180, 180, 206, 206, 206, 206, 206, 206, 206, 206,
    206, 206, 206, 206, 206, 206, 206, 206, 206, 206, 206, 206, 206, 206, 206, 206, 206, 206, 206,
    206, 206, 206, 206,
];

/// Context of a frequency.
pub closed spec fn freq_context(i: int) -> int {
    COEFF_FREQ_CONTEXT[i] as int
}

/// Context of a number of nonzero coefficients that are left.
pub closed spec fn nonzero_context(i: int) -> int {
    COEFF_NUM_NONZERO_CONTEXT[i] as int
}

pub fn freq_context_at(i: usize) -> (r: u32)
    requires
        i < 63,
    ensures
        r == freq_context(i as int),
        r <= 30,
{
    COEFF_FREQ_CONTEXT[i]
}

pub fn nonzero_context_at(i: usize) -> (r: u32)
    requires
        i < 63,
    ensures
        r == nonzero_context(i as int),
        r <= 206,
{
    COEFF_NUM_NONZERO_CONTEXT[i]
}

/// Frequencies have contexts of their own at first, then share them in pairs, then in fours.
pub proof fn lemma_freq_steps(i: int)
    requires
        0 <= i < 63,
    ensures
        i <= 15 ==> freq_context(i) == i,
        15 <= i <= 31 ==> freq_context(i) == (i + 15) / 2,
        31 <= i ==> freq_context(i) == (i + 61) / 4,
{
}

/// The more coefficients are left, the greater the context; from one context to the next there is
/// room for the frequencies that can go with it.
pub proof fn lemma_nonzero_steps(i: int)
    requires
        0 <= i < 63,
    ensures
        (nonzero_context(i) == 0) == (i == 0),
        (nonzero_context(i) == 31) == (i == 1),
        (nonzero_context(i) == 62) == (2 <= i <= 3),
        (nonzero_context(i) == 93) == (4 <= i <= 7),
        (nonzero_context(i) == 123) == (8 <= i <= 11),
        (nonzero_context(i) == 152) == (12 <= i <= 19),
        (nonzero_context(i) == 180) == (20 <= i <= 31),
        (nonzero_context(i) == 206) == (32 <= i),
        i > 0 ==> nonzero_context(i - 1) <= nonzero_context(i),
{
}

} // verus!
