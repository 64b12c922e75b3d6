//! Image planes: color conversion, padding, and access to blocks of pixels.
use crate::vp8::arith::{clamp_byte, clamp_byte_spec, floor_256};
use vstd::prelude::*;

verus! {

/// Luma of an RGB pixel.
pub open spec fn luma(r: int, g: int, b: int) -> int {
    clamp_byte_spec((66 * r + 129 * g + 25 * b + 128) / 256 + 16)
}

/// Blue-difference chroma of an RGB pixel.
pub open spec fn chroma_u(r: int, g: int, b: int) -> int {
    clamp_byte_spec((-38 * r - 74 * g + 112 * b + 128) / 256 + 128)
}

/// Red-difference chroma of an RGB pixel.
pub open spec fn chroma_v(r: int, g: int, b: int) -> int {
    clamp_byte_spec((112 * r - 94 * g - 18 * b + 128) / 256 + 128)
}

pub open spec fn half_up(n: int) -> int {
    (n + 1) / 2
}

/// The luma plane of an RGB image.
pub open spec fn luma_plane(rgb: Seq<u8>, n: nat) -> Seq<u8> {
    Seq::new(
        n,
        |i: int| luma(rgb[3 * i] as int, rgb[3 * i + 1] as int, rgb[3 * i + 2] as int) as u8,
    )
}

/// Index of the pixel that chroma sample `i` is taken from: every second pixel of every
/// second row.
pub open spec fn chroma_source(i: int, width: int) -> int {
    (2 * (i / half_up(width))) * width + 2 * (i % half_up(width))
}

pub open spec fn u_plane(rgb: Seq<u8>, width: int, n: nat) -> Seq<u8> {
    Seq::new(
        n,
        |i: int|
            {
                let p = chroma_source(i, width);
                chroma_u(rgb[3 * p] as int, rgb[3 * p + 1] as int, rgb[3 * p + 2] as int) as u8
            },
    )
}

pub open spec fn v_plane(rgb: Seq<u8>, width: int, n: nat) -> Seq<u8> {
    Seq::new(
        n,
        |i: int|
            {
                let p = chroma_source(i, width);
                chroma_v(rgb[3 * p] as int, rgb[3 * p + 1] as int, rgb[3 * p + 2] as int) as u8
            },
    )
}

/// A cell of a grid lies within it.
pub proof fn lemma_cell(row: int, col: int, width: int, height: int)
    requires
        0 <= row < height,
        0 <= col < width,
    ensures
        0 <= row * width + col < width * height,
        0 <= row * width,
        row * width + width <= width * height,
{
    assert(row * width + width <= width * height) by (nonlinear_arith)
        requires
            row + 1 <= height,
            width >= 0,
    ;
    assert(0 <= row * width) by (nonlinear_arith)
        requires
            row >= 0,
            width >= 0,
    ;
}

/// Row and column of a cell given by its index.
pub proof fn lemma_row_col(row: int, col: int, width: int)
    requires
        0 <= row,
        0 <= col < width,
    ensures
        (row * width + col) / width == row,
        (row * width + col) % width == col,
{
    vstd::arithmetic::div_mod::lemma_fundamental_div_mod_converse(
        row * width + col,
        width,
        row,
        col,
    );
}

/// The pixel that a chroma sample is taken from is in the image.
proof fn lemma_chroma_source(row: int, col: int, width: int, height: int)
    requires
        1 <= width,
        1 <= height,
        0 <= row < half_up(height),
        0 <= col < half_up(width),
    ensures
        ({
            let i = row * half_up(width) + col;
            &&& chroma_source(i, width) == 2 * row * width + 2 * col
            &&& 0 <= chroma_source(i, width) < width * height
            &&& 0 <= 2 * row * width
        }),
{
    lemma_row_col(row, col, half_up(width));
    assert(2 * row < height && 2 * col < width);
    lemma_cell(2 * row, 2 * col, width, height);
}

/// Converts an RGB image to a luma plane and two chroma planes of half the size.
pub fn rgb_to_yuv420(width: u32, height: u32, rgb: &[u8]) -> (r: (Vec<u8>, Vec<u8>, Vec<u8>))
    requires
        1 <= width <= 16383,
        1 <= height <= 16383,
        rgb@.len() == 3 * (width * height),
    ensures
        r.0@ == luma_plane(rgb@, (width * height) as nat),
        r.1@ == u_plane(
            rgb@,
            width as int,
            (half_up(width as int) * half_up(height as int)) as nat,
        ),
        r.2@ == v_plane(
            rgb@,
            width as int,
            (half_up(width as int) * half_up(height as int)) as nat,
        ),
{
    let w: usize = width as usize;
    let h: usize = height as usize;
    assert(0 <= width * height <= 0x1000_0000) by (nonlinear_arith)
        requires
            width <= 16383,
            height <= 16383,
    ;
    let n: usize = w * h;
    let mut y: Vec<u8> = Vec::new();
    let mut i: usize = 0;
    while i < n
        invariant
            i <= n,
            n <= 0x1000_0000,
            rgb@.len() == 3 * n,
            y@.len() == i,
            forall|k: int|
                0 <= k < i ==> #[trigger] y@[k] == luma(
                    rgb@[3 * k] as int,
                    rgb@[3 * k + 1] as int,
                    rgb@[3 * k + 2] as int,
                ),
        decreases n - i,
    {
        let r: i64 = rgb[3 * i] as i64;
        let g: i64 = rgb[3 * i + 1] as i64;
        let b: i64 = rgb[3 * i + 2] as i64;
        y.push(clamp_byte(floor_256(66 * r + 129 * g + 25 * b + 128) + 16));
        i = i + 1;
    }
    assert(y@ =~= luma_plane(rgb@, n as nat));
    let uv_w: usize = (w + 1) / 2;
    let uv_h: usize = (h + 1) / 2;
    let mut u: Vec<u8> = Vec::new();
    let mut v: Vec<u8> = Vec::new();
    let mut row: usize = 0;
    while row < uv_h
        invariant
            row <= uv_h,
            1 <= w <= 16383,
            1 <= h <= 16383,
            uv_w == half_up(w as int),
            uv_h == half_up(h as int),
            n == w * h,
            n <= 0x1000_0000,
            rgb@.len() == 3 * n,
            u@.len() == row * uv_w,
            v@.len() == row * uv_w,
            forall|k: int|
                0 <= k < u@.len() ==> #[trigger] u@[k] == chroma_u(
                    rgb@[3 * chroma_source(k, w as int)] as int,
                    rgb@[3 * chroma_source(k, w as int) + 1] as int,
                    rgb@[3 * chroma_source(k, w as int) + 2] as int,
                ),
            forall|k: int|
                0 <= k < v@.len() ==> #[trigger] v@[k] == chroma_v(
                    rgb@[3 * chroma_source(k, w as int)] as int,
                    rgb@[3 * chroma_source(k, w as int) + 1] as int,
                    rgb@[3 * chroma_source(k, w as int) + 2] as int,
                ),
        decreases uv_h - row,
    {
        let mut col: usize = 0;
        while col < uv_w
            invariant
                row < uv_h,
                col <= uv_w,
                1 <= w <= 16383,
                1 <= h <= 16383,
                uv_w == half_up(w as int),
                uv_h == half_up(h as int),
                n == w * h,
                n <= 0x1000_0000,
                rgb@.len() == 3 * n,
                u@.len() == row * uv_w + col,
                v@.len() == row * uv_w + col,
                forall|k: int|
                    0 <= k < u@.len() ==> #[trigger] u@[k] == chroma_u(
                        rgb@[3 * chroma_source(k, w as int)] as int,
                        rgb@[3 * chroma_source(k, w as int) + 1] as int,
                        rgb@[3 * chroma_source(k, w as int) + 2] as int,
                    ),
                forall|k: int|
                    0 <= k < v@.len() ==> #[trigger] v@[k] == chroma_v(
                        rgb@[3 * chroma_source(k, w as int)] as int,
                        rgb@[3 * chroma_source(k, w as int) + 1] as int,
                        rgb@[3 * chroma_source(k, w as int) + 2] as int,
                    ),
            decreases uv_w - col,
        {
            proof {
                lemma_chroma_source(row as int, col as int, w as int, h as int);
            }
            let p: usize = (2 * row) * w + 2 * col;
            let r: i64 = rgb[3 * p] as i64;
            let g: i64 = rgb[3 * p + 1] as i64;
            let b: i64 = rgb[3 * p + 2] as i64;
            u.push(clamp_byte(floor_256(-38 * r - 74 * g + 112 * b + 128) + 128));
            v.push(clamp_byte(floor_256(112 * r - 94 * g - 18 * b + 128) + 128));
            col = col + 1;
        }
        assert((row + 1) * uv_w == row * uv_w + uv_w) by (nonlinear_arith);
        row = row + 1;
    }
    assert(u@.len() == uv_w * uv_h) by (nonlinear_arith)
        requires
            u@.len() == row * uv_w,
            row == uv_h,
    ;
    assert(v@.len() == u@.len());
    let ghost un = (half_up(width as int) * half_up(height as int)) as nat;
    assert(u@ =~= u_plane(rgb@, width as int, un));
    assert(v@ =~= v_plane(rgb@, width as int, un));
    (y, u, v)
}

pub open spec fn at_most(a: int, b: int) -> int {
    if a < b {
        a
    } else {
        b
    }
}

/// A plane with its last row and column repeated.
pub open spec fn padded_plane(
    src: Seq<u8>,
    width: int,
    height: int,
    padded_width: int,
    padded_height: int,
) -> Seq<u8> {
    Seq::new(
        (padded_width * padded_height) as nat,
        |i: int|
            src[at_most(i / padded_width, height - 1) * width + at_most(
                i % padded_width,
                width - 1,
            )],
    )
}

pub fn pad_plane_clamped(
    src: &Vec<u8>,
    width: usize,
    height: usize,
    padded_width: usize,
    padded_height: usize,
) -> (out: Vec<u8>)
    requires
        1 <= width <= padded_width,
        1 <= height <= padded_height,
        src@.len() == width * height,
    ensures
        out@ == padded_plane(
            src@,
            width as int,
            height as int,
            padded_width as int,
            padded_height as int,
        ),
{
    let total: usize = src.len();
    let mut out: Vec<u8> = Vec::new();
    let mut y: usize = 0;
    proof {
        assert(0 * padded_width == 0) by (nonlinear_arith);
    }
    while y < padded_height
        invariant
            y <= padded_height,
            1 <= width <= padded_width,
            1 <= height <= padded_height,
            src@.len() == width * height,
            src@.len() == total,
            out@.len() == y * padded_width,
            forall|k: int|
                0 <= k < out@.len() ==> #[trigger] out@[k] == src@[at_most(
                    k / (padded_width as int),
                    height - 1,
                ) * width + at_most(k % (padded_width as int), width - 1)],
        decreases padded_height - y,
    {
        let sy: usize = if y < height {
            y
        } else {
            height - 1
        };
        let mut x: usize = 0;
        while x < padded_width
            invariant
                x <= padded_width,
                y < padded_height,
                1 <= width <= padded_width,
                1 <= height <= padded_height,
                src@.len() == width * height,
                src@.len() == total,
                sy == at_most(y as int, height - 1),
                out@.len() == y * padded_width + x,
                forall|k: int|
                    0 <= k < out@.len() ==> #[trigger] out@[k] == src@[at_most(
                        k / (padded_width as int),
                        height - 1,
                    ) * width + at_most(k % (padded_width as int), width - 1)],
            decreases padded_width - x,
        {
            let sx: usize = if x < width {
                x
            } else {
                width - 1
            };
            proof {
                lemma_cell(sy as int, sx as int, width as int, height as int);
                lemma_row_col(y as int, x as int, padded_width as int);
            }
            out.push(src[sy * width + sx]);
            x = x + 1;
        }
        assert((y + 1) * padded_width == y * padded_width + padded_width) by (nonlinear_arith);
        y = y + 1;
    }
    assert(out@.len() == padded_width * padded_height) by (nonlinear_arith)
        requires
            out@.len() == y * padded_width,
            y == padded_height,
    ;
    assert(out@ =~= padded_plane(
        src@,
        width as int,
        height as int,
        padded_width as int,
        padded_height as int,
    ));
    out
}

/// Index of pixel `k` of the four by four block at `(x, y)`.
pub open spec fn block_index(stride: int, x: int, y: int, k: int) -> int {
    (y + k / 4) * stride + x + k % 4
}

/// The four by four block at `(x, y)`.
pub open spec fn block_at(src: Seq<u8>, stride: int, x: int, y: int) -> Seq<u8> {
    Seq::new(16, |k: int| src[block_index(stride, x, y, k)])
}

/// The plane with the first `n` pixels of a block put at `(x, y)`.
pub open spec fn put_block(
    dst: Seq<u8>,
    stride: int,
    x: int,
    y: int,
    block: Seq<u8>,
    n: nat,
) -> Seq<u8>
    decreases n,
{
    if n == 0 {
        dst
    } else {
        put_block(dst, stride, x, y, block, (n - 1) as nat).update(
            block_index(stride, x, y, n - 1),
            block[n - 1],
        )
    }
}

/// A block of size `size` at `(x, y)` lies within the plane.
pub open spec fn block_fits(len: int, stride: int, x: int, y: int, size: int) -> bool {
    &&& 0 <= x
    &&& 0 <= y
    &&& x + size <= stride
    &&& (y + size) * stride <= len
}

/// Every pixel of a block that fits has an index in the plane.
pub proof fn lemma_block_pixel(
    len: int,
    stride: int,
    x: int,
    y: int,
    size: int,
    dx: int,
    dy: int,
)
    requires
        block_fits(len, stride, x, y, size),
        0 <= dx < size,
        0 <= dy < size,
    ensures
        0 <= (y + dy) * stride <= (y + dy) * stride + x + dx < len,
{
    lemma_cell(y + dy, x + dx, stride, y + size);
    assert(stride * (y + size) == (y + size) * stride) by (nonlinear_arith);
}

pub proof fn lemma_put_len(dst: Seq<u8>, stride: int, x: int, y: int, block: Seq<u8>, n: nat)
    requires
        n <= 16,
        block_fits(dst.len() as int, stride, x, y, 4),
    ensures
        put_block(dst, stride, x, y, block, n).len() == dst.len(),
    decreases n,
{
    if n > 0 {
        lemma_put_len(dst, stride, x, y, block, (n - 1) as nat);
        lemma_block_pixel(dst.len() as int, stride, x, y, 4, (n - 1) % 4, (n - 1) / 4);
    }
}

pub fn read_block_4x4(src: &Vec<u8>, stride: usize, x: usize, y: usize) -> (out: [u8; 16])
    requires
        block_fits(src@.len() as int, stride as int, x as int, y as int, 4),
    ensures
        out@ == block_at(src@, stride as int, x as int, y as int),
{
    let mut out: [u8; 16] = [0u8; 16];
    let total: usize = src.len();
    let mut k: usize = 0;
    while k < 16
        invariant
            k <= 16,
            src@.len() == total,
            out@.len() == 16,
            block_fits(src@.len() as int, stride as int, x as int, y as int, 4),
            forall|j: int|
                0 <= j < k ==> #[trigger] out@[j] == src@[block_index(
                    stride as int,
                    x as int,
                    y as int,
                    j,
                )],
        decreases 16 - k,
    {
        let dy: usize = k / 4;
        let dx: usize = k % 4;
        proof {
            lemma_block_pixel(
                src@.len() as int,
                stride as int,
                x as int,
                y as int,
                4,
                dx as int,
                dy as int,
            );
            lemma_row_fits(src@.len() as int, stride as int, x as int, y as int, 4);
        }
        out[k] = src[(y + dy) * stride + x + dx];
        k = k + 1;
    }
    assert(out@ =~= block_at(src@, stride as int, x as int, y as int));
    out
}

/// Row numbers within a plane are small enough to be added to.
proof fn lemma_row_fits(len: int, stride: int, x: int, y: int, size: int)
    requires
        block_fits(len, stride, x, y, size),
        size >= 1,
    ensures
        y + size <= len,
{
    assert(y + size <= (y + size) * stride) by (nonlinear_arith)
        requires
            stride >= 1,
            y + size >= 0,
    ;
}

pub fn write_block_4x4(dst: &mut Vec<u8>, stride: usize, x: usize, y: usize, block: &[u8; 16])
    requires
        block_fits(old(dst)@.len() as int, stride as int, x as int, y as int, 4),
    ensures
        final(dst)@ == put_block(old(dst)@, stride as int, x as int, y as int, block@, 16),
        final(dst)@.len() == old(dst)@.len(),
{
    let total: usize = dst.len();
    let ghost before = dst@;
    let mut k: usize = 0;
    while k < 16
        invariant
            k <= 16,
            dst@.len() == total,
            block@.len() == 16,
            block_fits(total as int, stride as int, x as int, y as int, 4),
            dst@ == put_block(before, stride as int, x as int, y as int, block@, k as nat),
        decreases 16 - k,
    {
        let dy: usize = k / 4;
        let dx: usize = k % 4;
        proof {
            lemma_block_pixel(
                total as int,
                stride as int,
                x as int,
                y as int,
                4,
                dx as int,
                dy as int,
            );
            lemma_row_fits(total as int, stride as int, x as int, y as int, 4);
        }
        dst.set((y + dy) * stride + x + dx, block[k]);
        k = k + 1;
    }
}

/// Sum of `n` pixels from `start` on, `step` apart.
pub open spec fn pixel_sum(s: Seq<u8>, start: int, step: int, n: nat) -> int
    decreases n,
{
    if n == 0 {
        0
    } else {
        pixel_sum(s, start, step, (n - 1) as nat) + s[start + (n - 1) * step]
    }
}

/// Average of the pixels above and to the left of a four by four block; 127 and 129
/// stand for what lies outside of the image.
pub open spec fn bdc_prediction(recon: Seq<u8>, stride: int, x: int, y: int) -> int {
    let above = if y == 0 {
        508int
    } else {
        pixel_sum(recon, (y - 1) * stride + x, 1, 4)
    };
    let left = if x == 0 {
        516int
    } else {
        pixel_sum(recon, y * stride + x - 1, stride, 4)
    };
    (4 + above + left) / 8
}

/// Average of the pixels above and to the left of an eight by eight block, as far as
/// they are in the image; 128 if none is.
pub open spec fn dc_prediction(recon: Seq<u8>, stride: int, x: int, y: int) -> int {
    let above = pixel_sum(recon, (y - 1) * stride + x, 1, 8);
    let left = pixel_sum(recon, y * stride + x - 1, stride, 8);
    if x != 0 && y != 0 {
        (left + above + 8) / 16
    } else if x != 0 {
        (left + 4) / 8
    } else if y != 0 {
        (above + 4) / 8
    } else {
        128
    }
}

/// Sum of the `n` pixels in the row above a block.
fn sum_above(recon: &Vec<u8>, stride: usize, x: usize, y: usize, n: usize) -> (r: u32)
    requires
        1 <= y,
        1 <= n <= 8,
        block_fits(recon@.len() as int, stride as int, x as int, y as int, n as int),
    ensures
        r == pixel_sum(recon@, (y - 1) * stride + x, 1, n as nat),
        r <= 255 * n,
{
    let total: usize = recon.len();
    let mut sum: u32 = 0;
    let mut i: usize = 0;
    while i < n
        invariant
            i <= n <= 8,
            1 <= y,
            recon@.len() == total,
            block_fits(recon@.len() as int, stride as int, x as int, y as int, n as int),
            sum == pixel_sum(recon@, (y - 1) * stride + x, 1, i as nat),
            sum <= 255 * i,
        decreases n - i,
    {
        proof {
            lemma_cell(y - 1, x + i, stride as int, y + n);
            assert(stride * (y + n) == (y + n) * stride) by (nonlinear_arith);
        }
        sum = sum + recon[(y - 1) * stride + x + i] as u32;
        i = i + 1;
    }
    sum
}

/// Sum of the `n` pixels in the column left of a block.
fn sum_left(recon: &Vec<u8>, stride: usize, x: usize, y: usize, n: usize) -> (r: u32)
    requires
        1 <= x,
        1 <= n <= 8,
        block_fits(recon@.len() as int, stride as int, x as int, y as int, n as int),
    ensures
        r == pixel_sum(recon@, y * stride + x - 1, stride as int, n as nat),
        r <= 255 * n,
{
    let total: usize = recon.len();
    let mut sum: u32 = 0;
    let mut i: usize = 0;
    while i < n
        invariant
            i <= n <= 8,
            1 <= x,
            recon@.len() == total,
            block_fits(recon@.len() as int, stride as int, x as int, y as int, n as int),
            sum == pixel_sum(recon@, y * stride + x - 1, stride as int, i as nat),
            sum <= 255 * i,
        decreases n - i,
    {
        proof {
            lemma_cell(y + i, x - 1, stride as int, y + n);
            lemma_row_fits(recon@.len() as int, stride as int, x as int, y as int, n as int);
            assert(stride * (y + n) == (y + n) * stride) by (nonlinear_arith);
            assert((y + i) * stride == y * stride + i * stride) by (nonlinear_arith);
        }
        sum = sum + recon[(y + i) * stride + (x - 1)] as u32;
        i = i + 1;
    }
    sum
}

pub fn predict_bdc_4x4(recon: &Vec<u8>, stride: usize, x: usize, y: usize) -> (r: u8)
    requires
        block_fits(recon@.len() as int, stride as int, x as int, y as int, 4),
    ensures
        r == bdc_prediction(recon@, stride as int, x as int, y as int),
{
    let above: u32 = if y == 0 {
        4 * 127
    } else {
        sum_above(recon, stride, x, y, 4)
    };
    let left: u32 = if x == 0 {
        4 * 129
    } else {
        sum_left(recon, stride, x, y, 4)
    };
    ((4 + above + left) / 8) as u8
}

pub fn predict_dc_8x8(recon: &Vec<u8>, stride: usize, x: usize, y: usize) -> (r: u8)
    requires
        block_fits(recon@.len() as int, stride as int, x as int, y as int, 8),
    ensures
        r == dc_prediction(recon@, stride as int, x as int, y as int),
{
    if x != 0 && y != 0 {
        ((sum_left(recon, stride, x, y, 8) + sum_above(recon, stride, x, y, 8) + 8) / 16) as u8
    } else if x != 0 {
        ((sum_left(recon, stride, x, y, 8) + 4) / 8) as u8
    } else if y != 0 {
        ((sum_above(recon, stride, x, y, 8) + 4) / 8) as u8
    } else {
        128
    }
}

} // verus!
