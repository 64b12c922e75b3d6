//! Colors survive conversion to luma and color differences and back.
use crate::jpeg::color_convert::{channel, written};
use vstd::prelude::*;

verus! {

/// A number of millionths rounded to the nearest whole.
pub open spec fn rounded(n: int) -> int {
    (n + 500000) / 1000000
}

pub open spec fn byte_range(v: int) -> int {
    if v < 0 {
        0
    } else if v > 255 {
        255
    } else {
        v
    }
}

/// Luma of a color, in full range.
pub open spec fn full_luma(r: int, g: int, b: int) -> int {
    rounded(299000 * r + 587000 * g + 114000 * b)
}

/// Blue difference of a color, in full range.
pub open spec fn full_cb(r: int, g: int, b: int) -> int {
    byte_range(128 + rounded(-168736 * r - 331264 * g + 500000 * b))
}

/// Red difference of a color, in full range.
pub open spec fn full_cr(r: int, g: int, b: int) -> int {
    byte_range(128 + rounded(500000 * r - 418688 * g - 81312 * b))
}

/// Colors come back: the channels of a color's rounded luma and differences are the color, within
/// one.
#[verifier::rlimit(60)]
pub proof fn lemma_color_returns(r: int, g: int, b: int)
    requires
        0 <= r <= 255,
        0 <= g <= 255,
        0 <= b <= 255,
    ensures
        ({
            let y = full_luma(r, g, b);
            let cb = full_cb(r, g, b);
            let cr = full_cr(r, g, b);
            &&& -1 <= channel(y, cb, cr, 0) - r <= 1
            &&& -1 <= channel(y, cb, cr, 1) - g <= 1
            &&& -1 <= channel(y, cb, cr, 2) - b <= 1
        }),
{
}

/// A value brought into the range of a byte, in thousandths.
pub open spec fn byte_thousandths(v: int) -> int {
    if v < 0 {
        0
    } else if v > 255000 {
        255000
    } else {
        v
    }
}

/// The channels are those of ITU-R BT.601 in full range, rounded to the nearest.
#[verifier::rlimit(60)]
pub proof fn lemma_bt601(y: int, cb: int, cr: int)
    requires
        0 <= y <= 255,
        0 <= cb <= 255,
        0 <= cr <= 255,
    ensures
        -530 < 1000 * channel(y, cb, cr, 0) - byte_thousandths(1000 * y + 1402 * (cr - 128))
            < 530,
        -530 < 1000 * channel(y, cb, cr, 1) - byte_thousandths(
            1000 * y - 344 * (cb - 128) - 714 * (cr - 128),
        ) < 530,
        -530 < 1000 * channel(y, cb, cr, 2) - byte_thousandths(1000 * y + 1772 * (cb - 128))
            < 530,
        channel(y, cb, cr, 3) == 255,
{
}

/// Every channel grows with luma; red grows with red difference and blue with blue difference;
/// green grows with neither; red has no part of blue difference, nor blue of red difference.
#[verifier::rlimit(60)]
pub proof fn lemma_monotone(y: int, cb: int, cr: int, y2: int, cb2: int, cr2: int)
    requires
        y <= y2,
        cb <= cb2,
        cr <= cr2,
    ensures
        channel(y, cb, cr, 0) <= channel(y2, cb2, cr2, 0),
        channel(y, cb, cr, 2) <= channel(y2, cb2, cr2, 2),
        channel(y, cb, cr, 1) <= channel(y2, cb, cr, 1),
        channel(y, cb2, cr2, 1) <= channel(y, cb, cr, 1),
        channel(y, cb, cr, 0) == channel(y, cb2, cr, 0),
        channel(y, cb, cr, 2) == channel(y, cb, cr2, 2),
{
}

/// The pixels that were written are the colors that they were made of, within one: red first, then
/// green and blue; a fourth byte is opaque. What lies before and behind them stays.
#[verifier::rlimit(60)]
pub proof fn lemma_pixels_written(
    before: Seq<u8>,
    offset: int,
    bpp: int,
    y: Seq<i16>,
    cb: Seq<i16>,
    cr: Seq<i16>,
    n: int,
    p: int,
    r: int,
    g: int,
    b: int,
)
    requires
        bpp == 3 || bpp == 4,
        0 <= offset,
        0 <= p < n,
        offset + n * bpp <= before.len(),
        n <= y.len(),
        n <= cb.len(),
        n <= cr.len(),
        0 <= r <= 255,
        0 <= g <= 255,
        0 <= b <= 255,
        y[p] == full_luma(r, g, b),
        cb[p] == full_cb(r, g, b),
        cr[p] == full_cr(r, g, b),
    ensures
        ({
            let after = written(before, offset, bpp, y, cb, cr, n);
            let at = offset + bpp * p;
            &&& after.len() == before.len()
            &&& -1 <= after[at] - r <= 1
            &&& -1 <= after[at + 1] - g <= 1
            &&& -1 <= after[at + 2] - b <= 1
            &&& bpp == 4 ==> after[at + 3] == 255
            &&& forall|i: int| 0 <= i < offset ==> after[i] == before[i]
            &&& forall|i: int| offset + n * bpp <= i < before.len() ==> after[i] == before[i]
        }),
{
    lemma_color_returns(r, g, b);
    if bpp == 3 {
        assert(offset + 3 * p + 2 < offset + n * bpp);
    } else {
        assert(offset + 4 * p + 3 < offset + n * bpp);
    }
}

} // verus!
