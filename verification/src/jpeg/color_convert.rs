//! Conversion of YCbCr samples to RGB and RGBA bytes, sixteen pixels at a time.
//!
//! Fixed-point arithmetic with fourteen fractional bits and the full-range BT.601 coefficients.
use vstd::prelude::*;

verus! {

/// Luma coefficient.
pub const Y_CF: i32 = 16384;

/// Coefficient of red difference in red.
pub const CR_CF: i32 = 22970;

/// Coefficient of blue difference in blue.
pub const CB_CF: i32 = 29032;

/// Coefficient of red difference in green.
pub const C_G_CR_COEF_1: i32 = -11700;

/// Coefficient of blue difference in green.
pub const C_G_CB_COEF_2: i32 = -5638;

/// Rounding term: just under one half.
pub const YUV_RND: i32 = 8191;

/// A fixed-point number without its fraction, in the range of a byte.
pub open spec fn to_byte(v: int) -> int {
    if v < 0 {
        0
    } else if v / 16384 > 255 {
        255
    } else {
        v / 16384
    }
}

/// Channel `k` of a pixel: red, green, blue, opaque alpha.
pub open spec fn channel(y: int, cb: int, cr: int, k: int) -> int {
    let y0 = y * Y_CF + YUV_RND;
    if k == 0 {
        to_byte(y0 + (cr - 128) * CR_CF)
    } else if k == 1 {
        to_byte(y0 + (cr - 128) * C_G_CR_COEF_1 + (cb - 128) * C_G_CB_COEF_2)
    } else if k == 2 {
        to_byte(y0 + (cb - 128) * CB_CF)
    } else {
        255
    }
}

/// Grey stays grey: without colour difference every channel is the luma.
pub proof fn lemma_grey(y: int, k: int)
    requires
        0 <= y <= 255,
        0 <= k < 3,
    ensures
        channel(y, 128, 128, k) == y,
{
}

fn clamp(v: i32) -> (r: u8)
    ensures
        r == to_byte(v as int),
{
    if v < 0 {
        0
    } else {
        let q: i32 = v / 16384;
        if q > 255 {
            255
        } else {
            q as u8
        }
    }
}

/// Red, green and blue of a pixel.
fn pixel(y: i16, cb: i16, cr: i16) -> (r: (u8, u8, u8))
    ensures
        r.0 == channel(y as int, cb as int, cr as int, 0),
        r.1 == channel(y as int, cb as int, cr as int, 1),
        r.2 == channel(y as int, cb as int, cr as int, 2),
{
    let y0: i32 = y as i32 * Y_CF + YUV_RND;
    let crm: i32 = cr as i32 - 128;
    let cbm: i32 = cb as i32 - 128;
    (
        clamp(y0 + crm * CR_CF),
        clamp(y0 + crm * C_G_CR_COEF_1 + cbm * C_G_CB_COEF_2),
        clamp(y0 + cbm * CB_CF),
    )
}

/// The buffer after `n` pixels of `bpp` bytes were written at an offset.
pub open spec fn written(
    before: Seq<u8>,
    offset: int,
    bpp: int,
    y: Seq<i16>,
    cb: Seq<i16>,
    cr: Seq<i16>,
    n: int,
) -> Seq<u8> {
    Seq::new(
        before.len(),
        |i: int|
            if offset <= i < offset + n * bpp {
                let p = (i - offset) / bpp;
                channel(y[p] as int, cb[p] as int, cr[p] as int, (i - offset) % bpp) as u8
            } else {
                before[i]
            },
    )
}

/// Writes sixteen RGBA pixels, opaque, and moves the offset behind them.
pub fn ycbcr_to_rgba_avx512(
    y: &[i16; 16],
    cb: &[i16; 16],
    cr: &[i16; 16],
    out: &mut [u8],
    offset: &mut usize,
)
    requires
        *old(offset) + 64 <= old(out)@.len(),
    ensures
        final(out)@ == written(old(out)@, *old(offset) as int, 4, y@, cb@, cr@, 16),
        *final(offset) == *old(offset) + 64,
{
    let ghost before = out@;
    let at: usize = *offset;
    assert(at + 64 <= out@.len());
    let total: usize = out.len();
    let mut p: usize = 0;
    assert(out@ =~= written(before, at as int, 4, y@, cb@, cr@, 0));
    while p < 16
        invariant
            p <= 16,
            at + 64 <= before.len(),
            out@.len() == before.len(),
            before.len() == total,
            out@ == written(before, at as int, 4, y@, cb@, cr@, p as int),
        decreases 16 - p,
    {
        let (r, g, b) = pixel(y[p], cb[p], cr[p]);
        let k: usize = at + 4 * p;
        out[k] = r;
        out[k + 1] = g;
        out[k + 2] = b;
        out[k + 3] = 255;
        p = p + 1;
        assert(out@ =~= written(before, at as int, 4, y@, cb@, cr@, p as int));
    }
    *offset = at + 64;
}

/// Writes sixteen RGB pixels and moves the offset behind them.
pub fn ycbcr_to_rgb_avx512(
    y: &[i16; 16],
    cb: &[i16; 16],
    cr: &[i16; 16],
    out: &mut [u8],
    offset: &mut usize,
)
    requires
        *old(offset) + 48 <= old(out)@.len(),
    ensures
        final(out)@ == written(old(out)@, *old(offset) as int, 3, y@, cb@, cr@, 16),
        *final(offset) == *old(offset) + 48,
{
    let ghost before = out@;
    let at: usize = *offset;
    assert(at + 48 <= out@.len());
    let total: usize = out.len();
    let mut p: usize = 0;
    assert(out@ =~= written(before, at as int, 3, y@, cb@, cr@, 0));
    while p < 16
        invariant
            p <= 16,
            at + 48 <= before.len(),
            out@.len() == before.len(),
            before.len() == total,
            out@ == written(before, at as int, 3, y@, cb@, cr@, p as int),
        decreases 16 - p,
    {
        let (r, g, b) = pixel(y[p], cb[p], cr[p]);
        let k: usize = at + 3 * p;
        out[k] = r;
        out[k + 1] = g;
        out[k + 2] = b;
        p = p + 1;
        assert(out@ =~= written(before, at as int, 3, y@, cb@, cr@, p as int));
    }
    *offset = at + 48;
}

/// The pixel that fills byte `i` of one sixteen-byte slice of interleaved RGB output from one
/// channel; `-128` where the byte belongs to another channel.
pub open spec fn shuffled(chunk: int, channel: int, i: int) -> int {
    if (chunk * 16 + i) % 3 == channel {
        (chunk * 16 + i) / 3
    } else {
        -128
    }
}

/// For one sixteen-byte slice of interleaved RGB output, the pixel that fills each byte of one
/// channel; `-128` where the byte belongs to another channel.
pub fn rgb_shuffle_mask(chunk: usize, channel: usize) -> (mask: [i8; 16])
    requires
        chunk < 3,
    ensures
        forall|i: int|
            0 <= i < 16 ==> #[trigger] mask@[i] == shuffled(chunk as int, channel as int, i),
{
    let mut mask: [i8; 16] = [-128;16];
    let mut local: usize = 0;
    while local < 16
        invariant
            chunk < 3,
            local <= 16,
            forall|i: int|
                0 <= i < 16 ==> #[trigger] mask@[i] == (if i < local && (chunk * 16 + i) % 3
                    == channel {
                    (chunk * 16 + i) / 3
                } else {
                    -128
                }),
        decreases 16 - local,
    {
        let global: usize = chunk * 16 + local;
        if global % 3 == channel {
            mask[local] = (global / 3) as i8;
        }
        local = local + 1;
    }
    mask
}

/// Each byte of a slice comes from one channel and one pixel: its place among all bytes is three
/// times the pixel, and the channel.
pub proof fn lemma_shuffled(chunk: int, i: int, c: int)
    requires
        0 <= chunk < 3,
        0 <= i < 16,
        0 <= c < 3,
    ensures
        shuffled(chunk, c, i) >= 0 ==> 3 * shuffled(chunk, c, i) + c == 16 * chunk + i,
        shuffled(chunk, c, i) < 0 ==> shuffled(chunk, c, i) == -128,
        shuffled(chunk, 0, i) >= 0 || shuffled(chunk, 1, i) >= 0 || shuffled(chunk, 2, i) >= 0,
        shuffled(chunk, c, i) <= 15,
{
}

} // verus!
