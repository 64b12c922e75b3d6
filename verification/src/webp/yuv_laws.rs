//! Colors survive conversion to luma and chroma and back.
use crate::vp8::planes::{
    chroma_source, chroma_u, chroma_v, half_up, lemma_cell, lemma_row_col, luma, luma_plane,
    u_plane, v_plane,
};
use crate::webp::yuv::{
    blue, fancy_at, fancy_spec, green, image_row, neighbour, plane_row, planes_ok, red, rgb_channel,
    simple_image_row,
};
use crate::vp8::encoder::{mb_count, source_planes};
use crate::vp8::transform_laws::lemma_padded;
use vstd::prelude::*;

verus! {

/// A value brought into the range of a byte, in thousandths.
pub open spec fn byte_thousandths(v: int) -> int {
    if v < 0 {
        0
    } else if v > 255000 {
        255000
    } else {
        v
    }
}

/// Luma and chroma are those of ITU-R BT.601 in limited range, within one.
#[verifier::rlimit(60)]
pub proof fn lemma_forward_bt601(r: int, g: int, b: int)
    requires
        0 <= r <= 255,
        0 <= g <= 255,
        0 <= b <= 255,
    ensures
        -750 < 1000 * luma(r, g, b) - (16000 + 257 * r + 504 * g + 98 * b) < 750,
        -1000 < 1000 * chroma_u(r, g, b) - (128000 - 148 * r - 291 * g + 439 * b) < 1000,
        -900 < 1000 * chroma_v(r, g, b) - (128000 + 439 * r - 368 * g - 71 * b) < 900,
        16 <= luma(r, g, b) <= 235,
        16 <= chroma_u(r, g, b) <= 240,
        16 <= chroma_v(r, g, b) <= 240,
{
}

/// Red, green and blue are those of ITU-R BT.601 in limited range, rounded.
#[verifier::rlimit(60)]
pub proof fn lemma_inverse_bt601(y: int, u: int, v: int)
    requires
        0 <= y <= 255,
        0 <= u <= 255,
        0 <= v <= 255,
    ensures
        -650 < 1000 * red(y, v) - byte_thousandths(1164 * (y - 16) + 1596 * (v - 128)) < 650,
        -650 < 1000 * green(y, u, v) - byte_thousandths(
            1164 * (y - 16) - 392 * (u - 128) - 813 * (v - 128),
        ) < 650,
        -650 < 1000 * blue(y, u) - byte_thousandths(1164 * (y - 16) + 2017 * (u - 128)) < 650,
{
}

/// A color that is converted to luma and chroma and back is what it was, within three.
#[verifier::rlimit(60)]
pub proof fn lemma_color_returns(r: int, g: int, b: int)
    requires
        0 <= r <= 255,
        0 <= g <= 255,
        0 <= b <= 255,
    ensures
        ({
            let y = luma(r, g, b);
            let u = chroma_u(r, g, b);
            let v = chroma_v(r, g, b);
            &&& -3 <= red(y, v) - r <= 3
            &&& -3 <= green(y, u, v) - g <= 3
            &&& -3 <= blue(y, u) - b <= 3
        }),
{
}

/// Luma grows with every channel; blue difference grows with blue alone, and red difference with
/// red alone.
pub proof fn lemma_forward_monotone(r: int, g: int, b: int, r2: int, g2: int, b2: int)
    requires
        0 <= r <= r2 <= 255,
        0 <= g <= g2 <= 255,
        0 <= b <= b2 <= 255,
    ensures
        luma(r, g, b) <= luma(r2, g2, b2),
        chroma_u(r, g, b) <= chroma_u(r, g, b2),
        chroma_u(r2, g2, b) <= chroma_u(r, g, b),
        chroma_v(r, g, b) <= chroma_v(r2, g, b),
        chroma_v(r, g2, b2) <= chroma_v(r, g, b),
{
}

/// Every channel grows with luma; red grows with red difference and blue with blue difference, and
/// green grows with neither.
pub proof fn lemma_inverse_monotone(y: int, u: int, v: int, y2: int, u2: int, v2: int)
    requires
        0 <= y <= y2 <= 255,
        0 <= u <= u2 <= 255,
        0 <= v <= v2 <= 255,
    ensures
        red(y, v) <= red(y2, v2),
        blue(y, u) <= blue(y2, u2),
        green(y, u, v) <= green(y2, u, v),
        green(y, u2, v2) <= green(y, u, v),
{
}

/// Without chroma a pixel is grey, within one.
pub proof fn lemma_no_chroma(y: int)
    requires
        0 <= y <= 255,
    ensures
        -1 <= red(y, 128) - green(y, 128, 128) <= 1,
        -1 <= blue(y, 128) - green(y, 128, 128) <= 1,
{
}

/// Chroma of a grey pixel is neutral.
pub proof fn lemma_grey_neutral(r: int)
    requires
        0 <= r <= 255,
    ensures
        chroma_u(r, r, r) == 128,
        chroma_v(r, r, r) == 128,
{
}

/// Every pixel in an even row and column of a picture comes back from its luma and the chroma
/// sample of its place, within three.
#[verifier::rlimit(60)]
pub proof fn lemma_planes_keep_colors(rgb: Seq<u8>, width: int, height: int, x: int, y: int)
    requires
        1 <= width,
        1 <= height,
        rgb.len() == 3 * (width * height),
        0 <= x < width,
        0 <= y < height,
        x % 2 == 0,
        y % 2 == 0,
    ensures
        ({
            let n = (half_up(width) * half_up(height)) as nat;
            let p = y * width + x;
            let c = (y / 2) * half_up(width) + x / 2;
            let luma_at = luma_plane(rgb, (width * height) as nat)[p] as int;
            let u_at = u_plane(rgb, width, n)[c] as int;
            let v_at = v_plane(rgb, width, n)[c] as int;
            &&& -3 <= red(luma_at, v_at) - rgb[3 * p] <= 3
            &&& -3 <= green(luma_at, u_at, v_at) - rgb[3 * p + 1] <= 3
            &&& -3 <= blue(luma_at, u_at) - rgb[3 * p + 2] <= 3
        }),
{
    let p = y * width + x;
    let c = (y / 2) * half_up(width) + x / 2;
    lemma_cell(y, x, width, height);
    lemma_cell(y / 2, x / 2, half_up(width), half_up(height));
    lemma_row_col(y / 2, x / 2, half_up(width));
    assert(2 * (y / 2) * width == y * width) by (nonlinear_arith)
        requires
            2 * (y / 2) == y,
    ;
    assert(chroma_source(c, width) == p);
    let r = rgb[3 * p] as int;
    let g = rgb[3 * p + 1] as int;
    let b = rgb[3 * p + 2] as int;
    lemma_forward_bt601(r, g, b);
    lemma_color_returns(r, g, b);
}

/// Luma tells the brightness of every pixel: `0.257 r + 0.504 g + 0.098 b + 16`, within one.
pub proof fn lemma_luma_plane(rgb: Seq<u8>, width: int, height: int, x: int, y: int)
    requires
        1 <= width,
        1 <= height,
        rgb.len() == 3 * (width * height),
        0 <= x < width,
        0 <= y < height,
    ensures
        ({
            let p = y * width + x;
            let v = luma_plane(rgb, (width * height) as nat)[p] as int;
            -1000 < 1000 * v - (16000 + 257 * rgb[3 * p] + 504 * rgb[3 * p + 1] + 98 * rgb[3 * p
                + 2]) < 1000
        }),
{
    let p = y * width + x;
    lemma_cell(y, x, width, height);
    lemma_forward_bt601(rgb[3 * p] as int, rgb[3 * p + 1] as int, rgb[3 * p + 2] as int);
}

/// Interpolated chroma lies between the least and the greatest of its samples.
pub proof fn lemma_fancy_between(m: int, a: int, b: int, t: int, low: int, high: int)
    requires
        low <= m <= high,
        low <= a <= high,
        low <= b <= high,
        low <= t <= high,
    ensures
        low <= fancy_spec(m, a, b, t) <= high,
{
}

/// Interpolated chroma is as near to the sample that the pixel lies in as to the others together:
/// sixteen times it is nine times that one, three times each neighbour and once the one across,
/// rounded to the nearest.
pub proof fn lemma_fancy_weights(m: int, a: int, b: int, t: int)
    ensures
        -8 <= 9 * m + 3 * a + 3 * b + t - 16 * fancy_spec(m, a, b, t) < 8,
        fancy_spec(m, a, b, t) == fancy_spec(m, b, a, t),
{
}

/// Chroma that changes evenly along a row is interpolated evenly: a pixel lies a quarter of a sample
/// left or right of the middle of its own sample, and so does its chroma. The first pixel takes the
/// first sample as it is.
pub proof fn lemma_fancy_ramp(row1: Seq<u8>, row2: Seq<u8>, x: int, base: int, a: int, b: int)
    requires
        row1.len() == row2.len(),
        0 <= x < 2 * row1.len(),
        forall|i: int| 0 <= i < row1.len() ==> #[trigger] row1[i] == base + a * i,
        forall|i: int| 0 <= i < row2.len() ==> #[trigger] row2[i] == base + a * i + b,
    ensures
        1 <= x < 2 * row1.len() - 1 ==> -8 <= 16 * base + a * (8 * x - 4) + 4 * b - 16 * fancy_at(
            row1,
            row2,
            x,
        ) < 8,
        x == 0 ==> -8 <= 16 * base + 4 * b - 16 * fancy_at(row1, row2, x) < 8,
        x == 2 * row1.len() - 1 ==> -8 <= 16 * (base + a * (row1.len() - 1)) + 4 * b - 16
            * fancy_at(row1, row2, x) < 8,
{
    let m = x / 2;
    let s = neighbour(x, row1.len() as int);
    assert(row1[m] == base + a * m && row2[m] == base + a * m + b);
    assert(row1[s] == base + a * s && row2[s] == base + a * s + b);
    if 1 <= x < 2 * row1.len() - 1 {
        if x % 2 == 1 {
            assert(s == m + 1 && x == 2 * m + 1);
            assert(a * (m + 1) == a * m + a) by (nonlinear_arith);
            assert(a * (8 * x - 4) == 16 * (a * m) + 4 * a) by (nonlinear_arith)
                requires
                    x == 2 * m + 1,
            ;
        } else {
            assert(s == m - 1 && x == 2 * m);
            assert(a * (m - 1) == a * m - a) by (nonlinear_arith);
            assert(a * (8 * x - 4) == 16 * (a * m) - 4 * a) by (nonlinear_arith)
                requires
                    x == 2 * m,
            ;
        }
    } else {
        assert(s == m);
        if x == 0 {
            assert(a * m == 0) by (nonlinear_arith)
                requires
                    m == 0,
            ;
        }
    }
}

/// A byte of a pixel in a row of an image.
proof fn lemma_pixel_byte(
    before: Seq<u8>,
    bpp: int,
    y_buffer: Seq<u8>,
    u_buffer: Seq<u8>,
    v_buffer: Seq<u8>,
    width: int,
    height: int,
    buffer_width: int,
    x: int,
    y: int,
    k: int,
)
    requires
        bpp == 3 || bpp == 4,
        planes_ok(y_buffer, u_buffer, v_buffer, width, height, buffer_width),
        before.len() == width * bpp,
        0 <= x < width,
        0 <= y < height,
        0 <= k < bpp,
    ensures
        ({
            let row = image_row(
                before,
                bpp,
                y_buffer,
                u_buffer,
                v_buffer,
                width,
                height,
                buffer_width,
                y,
            );
            let cw = (width + 1) / 2;
            let cs = buffer_width / 2;
            let s = neighbour(y, (height + 1) / 2);
            &&& 0 <= x * bpp + k < row.len()
            &&& row[x * bpp + k] == if k < 3 {
                rgb_channel(
                    y_buffer[y * buffer_width + x] as int,
                    fancy_at(
                        plane_row(u_buffer, cs, y / 2, cw),
                        plane_row(u_buffer, cs, s, cw),
                        x,
                    ),
                    fancy_at(
                        plane_row(v_buffer, cs, y / 2, cw),
                        plane_row(v_buffer, cs, s, cw),
                        x,
                    ),
                    k,
                ) as u8
            } else {
                before[x * bpp + k]
            }
        }),
{
    lemma_row_col(x, k, bpp);
    lemma_cell(x, k, bpp, width);
    assert(bpp * width == width * bpp) by (nonlinear_arith);
    assert(0 <= y * buffer_width <= (height - 1) * buffer_width) by (nonlinear_arith)
        requires
            0 <= y <= height - 1,
            buffer_width >= 0,
    ;
}

/// A sample of a row of a plane, and a row that ends within its plane.
proof fn lemma_plane_row(plane: Seq<u8>, stride: int, rows: int, n: int, j: int)
    requires
        0 <= j < rows,
        0 <= n,
        0 <= stride,
        (rows - 1) * stride + n <= plane.len(),
    ensures
        plane_row(plane, stride, j, n).len() == n,
        forall|i: int|
            0 <= i < n ==> #[trigger] plane_row(plane, stride, j, n)[i] == plane[j * stride + i],
{
    assert(0 <= j * stride <= (rows - 1) * stride) by (nonlinear_arith)
        requires
            0 <= j <= rows - 1,
            stride >= 0,
    ;
}

/// A picture of even chroma has the colors of its luma with that chroma: nothing is interpolated
/// out of it. Red comes first, then green and blue; a fourth byte stays.
#[verifier::rlimit(60)]
pub proof fn lemma_even_chroma(
    before: Seq<u8>,
    bpp: int,
    y_buffer: Seq<u8>,
    u_buffer: Seq<u8>,
    v_buffer: Seq<u8>,
    width: int,
    height: int,
    buffer_width: int,
    x: int,
    y: int,
    u: int,
    v: int,
)
    requires
        bpp == 3 || bpp == 4,
        planes_ok(y_buffer, u_buffer, v_buffer, width, height, buffer_width),
        before.len() == width * bpp,
        0 <= x < width,
        0 <= y < height,
        forall|i: int| 0 <= i < u_buffer.len() ==> #[trigger] u_buffer[i] == u,
        forall|i: int| 0 <= i < v_buffer.len() ==> #[trigger] v_buffer[i] == v,
    ensures
        ({
            let row = image_row(
                before,
                bpp,
                y_buffer,
                u_buffer,
                v_buffer,
                width,
                height,
                buffer_width,
                y,
            );
            let luma_at = y_buffer[y * buffer_width + x] as int;
            &&& row[x * bpp] == red(luma_at, v)
            &&& row[x * bpp + 1] == green(luma_at, u, v)
            &&& row[x * bpp + 2] == blue(luma_at, u)
            &&& bpp == 4 ==> row[x * bpp + 3] == before[x * bpp + 3]
        }),
{
    let cw = (width + 1) / 2;
    let ch = (height + 1) / 2;
    let cs = buffer_width / 2;
    let s = neighbour(y, ch);
    lemma_pixel_byte(before, bpp, y_buffer, u_buffer, v_buffer, width, height, buffer_width, x, y, 0);
    lemma_pixel_byte(before, bpp, y_buffer, u_buffer, v_buffer, width, height, buffer_width, x, y, 1);
    lemma_pixel_byte(before, bpp, y_buffer, u_buffer, v_buffer, width, height, buffer_width, x, y, 2);
    if bpp == 4 {
        lemma_pixel_byte(
            before,
            bpp,
            y_buffer,
            u_buffer,
            v_buffer,
            width,
            height,
            buffer_width,
            x,
            y,
            3,
        );
    }
    lemma_flat_chroma(u_buffer, cs, ch, cw, y, x, u);
    lemma_flat_chroma(v_buffer, cs, ch, cw, y, x, v);
    lemma_channel_range(y_buffer[y * buffer_width + x] as int, u, v);
}

proof fn lemma_channel_range(y: int, u: int, v: int)
    ensures
        0 <= red(y, v) <= 255,
        0 <= green(y, u, v) <= 255,
        0 <= blue(y, u) <= 255,
{
}

/// Even chroma stays what it is.
proof fn lemma_flat_chroma(plane: Seq<u8>, cs: int, ch: int, cw: int, y: int, x: int, u: int)
    requires
        1 <= cw <= cs,
        (ch - 1) * cs + cw <= plane.len(),
        0 <= x < 2 * cw,
        0 <= y < 2 * ch,
        forall|i: int| 0 <= i < plane.len() ==> #[trigger] plane[i] == u,
    ensures
        fancy_at(plane_row(plane, cs, y / 2, cw), plane_row(plane, cs, neighbour(y, ch), cw), x)
            == u,
{
    let s = neighbour(y, ch);
    lemma_plane_row(plane, cs, ch, cw, y / 2);
    lemma_plane_row(plane, cs, ch, cw, s);
    let row1 = plane_row(plane, cs, y / 2, cw);
    let row2 = plane_row(plane, cs, s, cw);
    assert(0 <= (y / 2) * cs <= (ch - 1) * cs && 0 <= s * cs <= (ch - 1) * cs) by (nonlinear_arith)
        requires
            0 <= y / 2 <= ch - 1,
            0 <= s <= ch - 1,
            cs >= 0,
    ;
    assert forall|i: int| 0 <= i < cw implies row1[i] == u && row2[i] == u by {
        assert(row1[i] == plane[(y / 2) * cs + i] && row2[i] == plane[s * cs + i]);
    }
    let m = x / 2;
    let t = neighbour(x, cw);
    assert(row1[m] == u && row1[t] == u && row2[m] == u && row2[t] == u);
}

/// A picture of one color that was converted to planes shows that color, within three, in every
/// pixel.
#[verifier::rlimit(60)]
pub proof fn lemma_one_color(
    before: Seq<u8>,
    bpp: int,
    rgb: Seq<u8>,
    width: int,
    height: int,
    x: int,
    y: int,
    r: u8,
    g: u8,
    b: u8,
)
    requires
        bpp == 3 || bpp == 4,
        1 <= width,
        1 <= height,
        width % 2 == 0,
        rgb.len() == 3 * (width * height),
        forall|p: int|
            0 <= p < width * height ==> #[trigger] rgb[3 * p] == r && rgb[3 * p + 1] == g && rgb[3
                * p + 2] == b,
        before.len() == width * bpp,
        0 <= x < width,
        0 <= y < height,
    ensures
        ({
            let n = (half_up(width) * half_up(height)) as nat;
            let row = image_row(
                before,
                bpp,
                luma_plane(rgb, (width * height) as nat),
                u_plane(rgb, width, n),
                v_plane(rgb, width, n),
                width,
                height,
                width,
                y,
            );
            &&& -3 <= row[x * bpp] - r <= 3
            &&& -3 <= row[x * bpp + 1] - g <= 3
            &&& -3 <= row[x * bpp + 2] - b <= 3
        }),
{
    let n = (half_up(width) * half_up(height)) as nat;
    let ys = luma_plane(rgb, (width * height) as nat);
    let us = u_plane(rgb, width, n);
    let vs = v_plane(rgb, width, n);
    let u = chroma_u(r as int, g as int, b as int);
    let v = chroma_v(r as int, g as int, b as int);
    lemma_flat_planes(rgb, width, height, r, g, b);
    lemma_flat_fit(rgb, width, height);
    lemma_cell(y, x, width, height);
    lemma_even_chroma(before, bpp, ys, us, vs, width, height, width, x, y, u, v);
    assert(ys[y * width + x] == luma(r as int, g as int, b as int));
    lemma_color_returns(r as int, g as int, b as int);
}

proof fn lemma_flat_fit(rgb: Seq<u8>, width: int, height: int)
    requires
        1 <= width,
        1 <= height,
        width % 2 == 0,
    ensures
        ({
            let n = (half_up(width) * half_up(height)) as nat;
            planes_ok(
                luma_plane(rgb, (width * height) as nat),
                u_plane(rgb, width, n),
                v_plane(rgb, width, n),
                width,
                height,
                width,
            )
        }),
{
    let cw = half_up(width);
    let ch = half_up(height);
    lemma_cell(0, 0, cw, ch);
    lemma_cell(0, 0, width, height);
    assert((height - 1) * width + width == width * height) by (nonlinear_arith);
    assert((ch - 1) * cw + cw == cw * ch) by (nonlinear_arith);
}

/// The planes of a picture of one color have one value each.
proof fn lemma_flat_planes(rgb: Seq<u8>, width: int, height: int, r: u8, g: u8, b: u8)
    requires
        1 <= width,
        1 <= height,
        rgb.len() == 3 * (width * height),
        forall|p: int|
            0 <= p < width * height ==> #[trigger] rgb[3 * p] == r && rgb[3 * p + 1] == g && rgb[3
                * p + 2] == b,
    ensures
        ({
            let n = (half_up(width) * half_up(height)) as nat;
            let ys = luma_plane(rgb, (width * height) as nat);
            let us = u_plane(rgb, width, n);
            let vs = v_plane(rgb, width, n);
            &&& forall|i: int|
                0 <= i < ys.len() ==> #[trigger] ys[i] == luma(r as int, g as int, b as int)
            &&& forall|i: int|
                0 <= i < us.len() ==> #[trigger] us[i] == chroma_u(r as int, g as int, b as int)
            &&& forall|i: int|
                0 <= i < vs.len() ==> #[trigger] vs[i] == chroma_v(r as int, g as int, b as int)
        }),
{
    let n = (half_up(width) * half_up(height)) as nat;
    let ys = luma_plane(rgb, (width * height) as nat);
    let us = u_plane(rgb, width, n);
    let vs = v_plane(rgb, width, n);
    lemma_forward_bt601(r as int, g as int, b as int);
    lemma_cell(0, 0, width, height);
    lemma_cell(0, 0, half_up(width), half_up(height));
    assert forall|i: int| 0 <= i < ys.len() implies #[trigger] ys[i] == luma(
        r as int,
        g as int,
        b as int,
    ) by {
        assert(rgb[3 * i] == r);
    }
    assert forall|i: int| 0 <= i < us.len() implies #[trigger] us[i] == chroma_u(
        r as int,
        g as int,
        b as int,
    ) by {
        lemma_sample_inside(i, width, height);
        let p = chroma_source(i, width);
        assert(rgb[3 * p] == r);
    }
    assert forall|i: int| 0 <= i < vs.len() implies #[trigger] vs[i] == chroma_v(
        r as int,
        g as int,
        b as int,
    ) by {
        lemma_sample_inside(i, width, height);
        let p = chroma_source(i, width);
        assert(rgb[3 * p] == r);
    }
}

proof fn lemma_sample_inside(i: int, width: int, height: int)
    requires
        1 <= width,
        1 <= height,
        0 <= i < half_up(width) * half_up(height),
    ensures
        0 <= chroma_source(i, width) < width * height,
{
    let cw = half_up(width);
    vstd::arithmetic::div_mod::lemma_fundamental_div_mod(i, cw);
    vstd::arithmetic::div_mod::lemma_mod_bound(i, cw);
    let q = i / cw;
    assert(0 <= q < half_up(height)) by (nonlinear_arith)
        requires
            i == cw * q + i % cw,
            0 <= i % cw < cw,
            0 <= i < cw * half_up(height),
    ;
    lemma_cell(2 * q, 2 * (i % cw), width, height);
}

/// Chroma that changes evenly over a picture is interpolated evenly, along rows and down columns:
/// the rows that a pixel's chroma comes from are the one it lies in and the nearest other.
pub proof fn lemma_image_ramp(
    u_buffer: Seq<u8>,
    width: int,
    height: int,
    buffer_width: int,
    x: int,
    y: int,
    base: int,
    a: int,
    b: int,
)
    requires
        1 <= width <= buffer_width,
        (width + 1) / 2 <= buffer_width / 2,
        u_buffer.len() >= ((height + 1) / 2 - 1) * (buffer_width / 2) + (width + 1) / 2,
        1 <= x < 2 * ((width + 1) / 2) - 1,
        1 <= y < 2 * ((height + 1) / 2) - 1,
        x < width,
        y < height,
        forall|i: int, j: int|
            #![trigger u_buffer[j * (buffer_width / 2) + i]]
            0 <= i < (width + 1) / 2 && 0 <= j < (height + 1) / 2 ==> u_buffer[j * (buffer_width
                / 2) + i] == base + a * i + b * j,
    ensures
        ({
            let cw = (width + 1) / 2;
            let cs = buffer_width / 2;
            let u = fancy_at(
                plane_row(u_buffer, cs, y / 2, cw),
                plane_row(u_buffer, cs, neighbour(y, (height + 1) / 2), cw),
                x,
            );
            -8 <= 16 * base + a * (8 * x - 4) + b * (8 * y - 4) - 16 * u < 8
        }),
{
    let cw = (width + 1) / 2;
    let ch = (height + 1) / 2;
    let cs = buffer_width / 2;
    let m = y / 2;
    let s = neighbour(y, ch);
    lemma_plane_row(u_buffer, cs, ch, cw, m);
    lemma_plane_row(u_buffer, cs, ch, cw, s);
    let row1 = plane_row(u_buffer, cs, m, cw);
    let row2 = plane_row(u_buffer, cs, s, cw);
    let d = if y % 2 == 1 {
        1int
    } else {
        -1int
    };
    assert(s == m + d && 2 * y - 1 == 4 * m + d);
    assert(b * s == b * m + b * d) by (nonlinear_arith)
        requires
            s == m + d,
    ;
    assert(b * (8 * y - 4) == 16 * (b * m) + 4 * (b * d)) by (nonlinear_arith)
        requires
            2 * y - 1 == 4 * m + d,
    ;
    assert forall|i: int| 0 <= i < cw implies #[trigger] row1[i] == (base + b * m) + a * i by {
        assert(row1[i] == u_buffer[m * cs + i]);
    }
    assert forall|i: int| 0 <= i < cw implies #[trigger] row2[i] == (base + b * m) + a * i + b
        * d by {
        assert(row2[i] == u_buffer[s * cs + i]);
    }
    lemma_fancy_ramp(row1, row2, x, base + b * m, a, b * d);
}

/// Without interpolation the four pixels around a chroma sample take it as it is.
pub proof fn lemma_simple_pixel(
    before: Seq<u8>,
    bpp: int,
    y_buffer: Seq<u8>,
    u_buffer: Seq<u8>,
    v_buffer: Seq<u8>,
    width: int,
    chroma_width: int,
    buffer_width: int,
    i: int,
    j: int,
    dx: int,
    dy: int,
)
    requires
        bpp == 3 || bpp == 4,
        0 <= i < chroma_width,
        0 <= j,
        0 <= dx < 2,
        0 <= dy < 2,
        2 * i + dx < width <= buffer_width,
        before.len() == width * bpp,
        (2 * j + dy) * buffer_width + width <= y_buffer.len(),
        j * (buffer_width / 2) + chroma_width <= u_buffer.len(),
        j * (buffer_width / 2) + chroma_width <= v_buffer.len(),
    ensures
        ({
            let x = 2 * i + dx;
            let y = 2 * j + dy;
            let row = simple_image_row(
                before,
                bpp,
                y_buffer,
                u_buffer,
                v_buffer,
                width,
                chroma_width,
                buffer_width,
                y,
            );
            let luma_at = y_buffer[y * buffer_width + x] as int;
            let u = u_buffer[j * (buffer_width / 2) + i] as int;
            let v = v_buffer[j * (buffer_width / 2) + i] as int;
            &&& row[x * bpp] == red(luma_at, v)
            &&& row[x * bpp + 1] == green(luma_at, u, v)
            &&& row[x * bpp + 2] == blue(luma_at, u)
            &&& bpp == 4 ==> row[x * bpp + 3] == before[x * bpp + 3]
        }),
{
    let x = 2 * i + dx;
    let y = 2 * j + dy;
    lemma_row_col(x, 0, bpp);
    lemma_row_col(x, 1, bpp);
    lemma_row_col(x, 2, bpp);
    lemma_cell(x, 2, bpp, width);
    if bpp == 4 {
        lemma_row_col(x, 3, bpp);
        lemma_cell(x, 3, bpp, width);
    }
    assert(bpp * width == width * bpp) by (nonlinear_arith);
    assert(0 <= y * buffer_width && 0 <= j * (buffer_width / 2)) by (nonlinear_arith)
        requires
            0 <= y,
            0 <= j,
            0 <= buffer_width,
            0 <= buffer_width / 2,
    ;
}

/// The planes that a lossy encoder works on hold the colors of a picture, each plane its own: those of
/// every other pixel of every other row come back within three.
pub proof fn lemma_source_colors(rgb: Seq<u8>, width: int, height: int, x: int, y: int)
    requires
        1 <= width,
        1 <= height,
        rgb.len() == 3 * (width * height),
        0 <= x < width,
        0 <= y < height,
        x % 2 == 0,
        y % 2 == 0,
    ensures
        ({
            let planes = source_planes(rgb, width, height);
            let p = y * width + x;
            let y_stride = 16 * mb_count(width);
            let c_stride = 8 * mb_count(width);
            let luma_at = planes.y[y * y_stride + x] as int;
            let u_at = planes.u[(y / 2) * c_stride + x / 2] as int;
            let v_at = planes.v[(y / 2) * c_stride + x / 2] as int;
            &&& -3 <= red(luma_at, v_at) - rgb[3 * p] <= 3
            &&& -3 <= green(luma_at, u_at, v_at) - rgb[3 * p + 1] <= 3
            &&& -3 <= blue(luma_at, u_at) - rgb[3 * p + 2] <= 3
        }),
{
    let mw = mb_count(width);
    let mh = mb_count(height);
    let uw = half_up(width);
    let uh = half_up(height);
    let n = (uw * uh) as nat;
    assert(0 <= uw * uh) by (nonlinear_arith)
        requires
            0 <= uw,
            0 <= uh,
    ;
    assert(0 <= width * height) by (nonlinear_arith)
        requires
            0 <= width,
            0 <= height,
    ;
    lemma_planes_keep_colors(rgb, width, height, x, y);
    lemma_padded(
        luma_plane(rgb, (width * height) as nat),
        width,
        height,
        mw * 16,
        mh * 16,
        x,
        y,
    );
    lemma_padded(u_plane(rgb, width, n), uw, uh, mw * 8, mh * 8, x / 2, y / 2);
    lemma_padded(v_plane(rgb, width, n), uw, uh, mw * 8, mh * 8, x / 2, y / 2);
    assert(16 * mw == mw * 16 && 8 * mw == mw * 8);
}

} // verus!
