//! Conversion of luma and subsampled chroma planes to RGB.
//!
//! Chroma is interpolated: each pixel takes nine sixteenths from the chroma sample it lies in, three
//! from each of the two nearest neighbours, and one from the neighbour across. Edges are mirrored.
use crate::parallel::{chunk_done, chunk_of, parallel_chunks_mut};
use crate::math::least;
use vstd::prelude::*;

verus! {

/// Product of a byte and a coefficient, without its lowest eight bits.
pub open spec fn mulhi_spec(v: int, coeff: int) -> int {
    v * coeff / 256
}

/// A number of six fractional bits as a byte.
pub open spec fn clip_spec(v: int) -> int {
    if v < 0 {
        0
    } else if v / 64 > 255 {
        255
    } else {
        v / 64
    }
}

pub open spec fn red(y: int, v: int) -> int {
    clip_spec(mulhi_spec(y, 19077) + mulhi_spec(v, 26149) - 14234)
}

pub open spec fn green(y: int, u: int, v: int) -> int {
    clip_spec(mulhi_spec(y, 19077) - mulhi_spec(u, 6419) - mulhi_spec(v, 13320) + 8708)
}

pub open spec fn blue(y: int, u: int) -> int {
    clip_spec(mulhi_spec(y, 19077) + mulhi_spec(u, 33050) - 17685)
}

fn mulhi(v: u8, coeff: u16) -> (r: i32)
    ensures
        r == mulhi_spec(v as int, coeff as int),
        0 <= r <= 65279,
{
    assert(v * coeff <= 255 * 65535) by (nonlinear_arith)
        requires
            v <= 255,
            coeff <= 65535,
    ;
    assert(0 <= v * coeff) by (nonlinear_arith);
    (v as u32 * coeff as u32 / 256) as i32
}

fn clip(v: i32) -> (r: u8)
    ensures
        r == clip_spec(v as int),
{
    if v < 0 {
        0
    } else {
        let q: i32 = v / 64;
        if q > 255 {
            255
        } else {
            q as u8
        }
    }
}

pub fn yuv_to_r(y: u8, v: u8) -> (r: u8)
    ensures
        r == red(y as int, v as int),
{
    clip(mulhi(y, 19077) + mulhi(v, 26149) - 14234)
}

pub fn yuv_to_g(y: u8, u: u8, v: u8) -> (r: u8)
    ensures
        r == green(y as int, u as int, v as int),
{
    clip(mulhi(y, 19077) - mulhi(u, 6419) - mulhi(v, 13320) + 8708)
}

pub fn yuv_to_b(y: u8, u: u8) -> (r: u8)
    ensures
        r == blue(y as int, u as int),
{
    clip(mulhi(y, 19077) + mulhi(u, 33050) - 17685)
}

/// Channel `k` of a pixel.
pub open spec fn rgb_channel(y: int, u: int, v: int, k: int) -> int {
    if k == 0 {
        red(y, v)
    } else if k == 1 {
        green(y, u, v)
    } else {
        blue(y, u)
    }
}

// ---- interpolation ----
pub open spec fn fancy_spec(main: int, secondary1: int, secondary2: int, tertiary: int) -> int {
    (9 * main + 3 * secondary1 + 3 * secondary2 + tertiary + 8) / 16
}

pub fn get_fancy_chroma_value(main: u8, secondary1: u8, secondary2: u8, tertiary: u8) -> (r: u8)
    ensures
        r == fancy_spec(main as int, secondary1 as int, secondary2 as int, tertiary as int),
{
    ((9 * main as u16 + 3 * secondary1 as u16 + 3 * secondary2 as u16 + tertiary as u16 + 8) / 16)
        as u8
}

/// The other chroma sample that pixel `x` lies next to, of `n` samples.
pub open spec fn neighbour(x: int, n: int) -> int {
    if x % 2 == 1 {
        if x / 2 + 1 < n {
            x / 2 + 1
        } else {
            n - 1
        }
    } else if x >= 2 {
        x / 2 - 1
    } else {
        0
    }
}

/// Interpolated chroma of pixel `x` between the row it lies in and the next nearest one.
pub open spec fn fancy_at(row1: Seq<u8>, row2: Seq<u8>, x: int) -> int {
    let m = x / 2;
    let s = neighbour(x, row1.len() as int);
    fancy_spec(row1[m] as int, row1[s] as int, row2[m] as int, row2[s] as int)
}

/// A row of pixels of `bpp` bytes after the first three bytes of each pixel were set.
pub open spec fn fancy_row(
    before: Seq<u8>,
    bpp: int,
    y_row: Seq<u8>,
    u1: Seq<u8>,
    u2: Seq<u8>,
    v1: Seq<u8>,
    v2: Seq<u8>,
) -> Seq<u8> {
    Seq::new(
        before.len(),
        |i: int|
            if i % bpp < 3 {
                rgb_channel(
                    y_row[i / bpp] as int,
                    fancy_at(u1, u2, i / bpp),
                    fancy_at(v1, v2, i / bpp),
                    i % bpp,
                ) as u8
            } else {
                before[i]
            },
    )
}

/// Sets the color of pixel `x` of a row.
fn set_pixel(row: &mut Vec<u8>, bpp: usize, x: usize, y: u8, u: u8, v: u8)
    requires
        bpp == 3 || bpp == 4,
        (x + 1) * bpp <= old(row)@.len(),
    ensures
        final(row)@.len() == old(row)@.len(),
        forall|i: int|
            0 <= i < old(row)@.len() ==> #[trigger] final(row)@[i] == (if x * bpp <= i < x * bpp
                + 3 {
                rgb_channel(y as int, u as int, v as int, i - x * bpp) as u8
            } else {
                old(row)@[i]
            }),
{
    let total: usize = row.len();
    let at: usize = x * bpp;
    row.set(at, yuv_to_r(y, v));
    row.set(at + 1, yuv_to_g(y, u, v));
    row.set(at + 2, yuv_to_b(y, u));
}

pub open spec fn row_inputs_ok(
    row: Seq<u8>,
    bpp: int,
    y_row: Seq<u8>,
    u1: Seq<u8>,
    u2: Seq<u8>,
    v1: Seq<u8>,
    v2: Seq<u8>,
) -> bool {
    let n = (y_row.len() as int + 1) / 2;
    &&& bpp == 3 || bpp == 4
    &&& y_row.len() >= 1
    &&& row.len() == y_row.len() * bpp
    &&& u1.len() == n
    &&& u2.len() == n
    &&& v1.len() == n
    &&& v2.len() == n
}

/// The first `n` pixels of a row are set, the others are not.
spec fn row_until(row: Seq<u8>, before: Seq<u8>, goal: Seq<u8>, bpp: int, n: int) -> bool {
    &&& row.len() == before.len()
    &&& forall|i: int|
        0 <= i < row.len() ==> #[trigger] row[i] == (if i < n * bpp {
            goal[i]
        } else {
            before[i]
        })
}

proof fn lemma_pixel_set(
    row: Seq<u8>,
    after: Seq<u8>,
    before: Seq<u8>,
    bpp: int,
    y_row: Seq<u8>,
    u1: Seq<u8>,
    u2: Seq<u8>,
    v1: Seq<u8>,
    v2: Seq<u8>,
    x: int,
)
    requires
        row_inputs_ok(before, bpp, y_row, u1, u2, v1, v2),
        0 <= x < y_row.len(),
        row_until(row, before, fancy_row(before, bpp, y_row, u1, u2, v1, v2), bpp, x),
        after.len() == row.len(),
        forall|i: int|
            0 <= i < row.len() ==> #[trigger] after[i] == (if x * bpp <= i < x * bpp + 3 {
                rgb_channel(
                    y_row[x] as int,
                    fancy_at(u1, u2, x),
                    fancy_at(v1, v2, x),
                    i - x * bpp,
                ) as u8
            } else {
                row[i]
            }),
    ensures
        row_until(after, before, fancy_row(before, bpp, y_row, u1, u2, v1, v2), bpp, x + 1),
{
    let goal = fancy_row(before, bpp, y_row, u1, u2, v1, v2);
    assert((x + 1) * bpp == x * bpp + bpp) by (nonlinear_arith);
    assert forall|i: int| 0 <= i < after.len() implies #[trigger] after[i] == (if i < (x + 1)
        * bpp {
        goal[i]
    } else {
        before[i]
    }) by {
        if x * bpp <= i < x * bpp + bpp {
            let k = i - x * bpp;
            crate::vp8::planes::lemma_row_col(x, k, bpp);
            assert(row[i] == before[i]);
        } else {
            assert(after[i] == row[i]);
        }
    }
}

/// Sets pixel `x` of a row from the chroma samples `m`, in which it lies, and `s`.
fn fancy_pixel<const BPP: usize>(
    row: &mut Vec<u8>,
    y_row: &Vec<u8>,
    u1: &Vec<u8>,
    u2: &Vec<u8>,
    v1: &Vec<u8>,
    v2: &Vec<u8>,
    x: usize,
    m: usize,
    s: usize,
    Ghost(before): Ghost<Seq<u8>>,
)
    requires
        row_inputs_ok(before, BPP as int, y_row@, u1@, u2@, v1@, v2@),
        x < y_row@.len(),
        m == x as int / 2,
        s == neighbour(x as int, u1@.len() as int),
        row_until(
            old(row)@,
            before,
            fancy_row(before, BPP as int, y_row@, u1@, u2@, v1@, v2@),
            BPP as int,
            x as int,
        ),
    ensures
        row_until(
            final(row)@,
            before,
            fancy_row(before, BPP as int, y_row@, u1@, u2@, v1@, v2@),
            BPP as int,
            x + 1,
        ),
{
    let ghost r0 = row@;
    let u: u8 = get_fancy_chroma_value(u1[m], u1[s], u2[m], u2[s]);
    let v: u8 = get_fancy_chroma_value(v1[m], v1[s], v2[m], v2[s]);
    proof {
        let b = BPP as int;
        let xi = x as int;
        let wi = y_row@.len() as int;
        assert((xi + 1) * b <= wi * b) by (nonlinear_arith)
            requires
                xi + 1 <= wi,
                b >= 0,
        ;
    }
    set_pixel(row, BPP, x, y_row[x], u, v);
    proof {
        lemma_pixel_set(
            r0,
            row@,
            before,
            BPP as int,
            y_row@,
            u1@,
            u2@,
            v1@,
            v2@,
            x as int,
        );
    }
}

/// Fills a row, two pixels at a time: the first and the last pixel stand alone, the others share
/// two chroma samples.
pub fn fill_row_fancy_with_2_uv_rows_scalar<const BPP: usize>(
    row_buffer: &mut Vec<u8>,
    y_row: &Vec<u8>,
    u_row_1: &Vec<u8>,
    u_row_2: &Vec<u8>,
    v_row_1: &Vec<u8>,
    v_row_2: &Vec<u8>,
)
    requires
        row_inputs_ok(
            old(row_buffer)@,
            BPP as int,
            y_row@,
            u_row_1@,
            u_row_2@,
            v_row_1@,
            v_row_2@,
        ),
    ensures
        final(row_buffer)@ == fancy_row(
            old(row_buffer)@,
            BPP as int,
            y_row@,
            u_row_1@,
            u_row_2@,
            v_row_1@,
            v_row_2@,
        ),
{
    let ghost before = row_buffer@;
    let ghost goal = fancy_row(
        before,
        BPP as int,
        y_row@,
        u_row_1@,
        u_row_2@,
        v_row_1@,
        v_row_2@,
    );
    let width: usize = y_row.len();
    let n: usize = u_row_1.len();
    assert(0 * BPP == 0);
    fancy_pixel::<BPP>(
        row_buffer,
        y_row,
        u_row_1,
        u_row_2,
        v_row_1,
        v_row_2,
        0,
        0,
        0,
        Ghost(before),
    );
    let mut x: usize = 1;
    while width - x >= 2
        invariant
            1 <= x <= width,
            x % 2 == 1,
            n == u_row_1@.len(),
            width == y_row@.len(),
            row_inputs_ok(
                before,
                BPP as int,
                y_row@,
                u_row_1@,
                u_row_2@,
                v_row_1@,
                v_row_2@,
            ),
            goal == fancy_row(
                before,
                BPP as int,
                y_row@,
                u_row_1@,
                u_row_2@,
                v_row_1@,
                v_row_2@,
            ),
            row_until(row_buffer@, before, goal, BPP as int, x as int),
        decreases width - x,
    {
        let m: usize = x / 2;
        let s: usize = m + 1;
        fancy_pixel::<BPP>(
            row_buffer,
            y_row,
            u_row_1,
            u_row_2,
            v_row_1,
            v_row_2,
            x,
            m,
            s,
            Ghost(before),
        );
        fancy_pixel::<BPP>(
            row_buffer,
            y_row,
            u_row_1,
            u_row_2,
            v_row_1,
            v_row_2,
            x + 1,
            s,
            m,
            Ghost(before),
        );
        x = x + 2;
    }
    if x < width {
        fancy_pixel::<BPP>(
            row_buffer,
            y_row,
            u_row_1,
            u_row_2,
            v_row_1,
            v_row_2,
            x,
            n - 1,
            n - 1,
            Ghost(before),
        );
    }
    assert(row_buffer@ =~= goal);
}

/// Fills a row pixel by pixel.
pub fn fill_row_fancy_with_2_uv_rows<const BPP: usize>(
    row_buffer: &mut Vec<u8>,
    y_row: &Vec<u8>,
    u_row_1: &Vec<u8>,
    u_row_2: &Vec<u8>,
    v_row_1: &Vec<u8>,
    v_row_2: &Vec<u8>,
)
    requires
        row_inputs_ok(
            old(row_buffer)@,
            BPP as int,
            y_row@,
            u_row_1@,
            u_row_2@,
            v_row_1@,
            v_row_2@,
        ),
    ensures
        final(row_buffer)@ == fancy_row(
            old(row_buffer)@,
            BPP as int,
            y_row@,
            u_row_1@,
            u_row_2@,
            v_row_1@,
            v_row_2@,
        ),
{
    let ghost before = row_buffer@;
    let ghost goal = fancy_row(
        before,
        BPP as int,
        y_row@,
        u_row_1@,
        u_row_2@,
        v_row_1@,
        v_row_2@,
    );
    let width: usize = y_row.len();
    let n: usize = u_row_1.len();
    assert(0 * BPP == 0);
    let mut x: usize = 0;
    while x < width
        invariant
            x <= width,
            n == u_row_1@.len(),
            width == y_row@.len(),
            row_inputs_ok(
                before,
                BPP as int,
                y_row@,
                u_row_1@,
                u_row_2@,
                v_row_1@,
                v_row_2@,
            ),
            goal == fancy_row(
                before,
                BPP as int,
                y_row@,
                u_row_1@,
                u_row_2@,
                v_row_1@,
                v_row_2@,
            ),
            row_until(row_buffer@, before, goal, BPP as int, x as int),
        decreases width - x,
    {
        let m: usize = x / 2;
        let s: usize = if x % 2 == 1 {
            if m + 1 < n {
                m + 1
            } else {
                n - 1
            }
        } else if x >= 2 {
            m - 1
        } else {
            0
        };
        fancy_pixel::<BPP>(
            row_buffer,
            y_row,
            u_row_1,
            u_row_2,
            v_row_1,
            v_row_2,
            x,
            m,
            s,
            Ghost(before),
        );
        x = x + 1;
    }
    assert(row_buffer@ =~= goal);
}

/// Fills a row that has one row of chroma samples.
pub fn fill_row_fancy_with_1_uv_row<const BPP: usize>(
    row_buffer: &mut Vec<u8>,
    y_row: &Vec<u8>,
    u_row: &Vec<u8>,
    v_row: &Vec<u8>,
)
    requires
        row_inputs_ok(old(row_buffer)@, BPP as int, y_row@, u_row@, u_row@, v_row@, v_row@),
    ensures
        final(row_buffer)@ == fancy_row(
            old(row_buffer)@,
            BPP as int,
            y_row@,
            u_row@,
            u_row@,
            v_row@,
            v_row@,
        ),
{
    fill_row_fancy_with_2_uv_rows_scalar::<BPP>(row_buffer, y_row, u_row, u_row, v_row, v_row);
}

// ---- whole images ----
/// Row `y` of a plane: its first `n` samples.
pub open spec fn plane_row(plane: Seq<u8>, stride: int, y: int, n: int) -> Seq<u8> {
    plane.subrange(y * stride, y * stride + n)
}

/// The planes hold every row.
pub open spec fn planes_ok(
    y_buffer: Seq<u8>,
    u_buffer: Seq<u8>,
    v_buffer: Seq<u8>,
    width: int,
    height: int,
    buffer_width: int,
) -> bool {
    let cw = (width + 1) / 2;
    let ch = (height + 1) / 2;
    &&& 1 <= width <= buffer_width
    &&& 1 <= height
    &&& cw <= buffer_width / 2
    &&& y_buffer.len() >= (height - 1) * buffer_width + width
    &&& u_buffer.len() >= (ch - 1) * (buffer_width / 2) + cw
    &&& v_buffer.len() >= (ch - 1) * (buffer_width / 2) + cw
}

/// Row `y` of an image: chroma comes from the row of samples it lies in and the nearest other.
pub open spec fn image_row(
    before: Seq<u8>,
    bpp: int,
    y_buffer: Seq<u8>,
    u_buffer: Seq<u8>,
    v_buffer: Seq<u8>,
    width: int,
    height: int,
    buffer_width: int,
    y: int,
) -> Seq<u8> {
    let cw = (width + 1) / 2;
    let ch = (height + 1) / 2;
    let cs = buffer_width / 2;
    let m = y / 2;
    let s = neighbour(y, ch);
    fancy_row(
        before,
        bpp,
        plane_row(y_buffer, buffer_width, y, width),
        plane_row(u_buffer, cs, m, cw),
        plane_row(u_buffer, cs, s, cw),
        plane_row(v_buffer, cs, m, cw),
        plane_row(v_buffer, cs, s, cw),
    )
}

fn copy_row(plane: &Vec<u8>, stride: usize, y: usize, n: usize) -> (r: Vec<u8>)
    requires
        y * stride + n <= plane@.len(),
    ensures
        r@ == plane_row(plane@, stride as int, y as int, n as int),
        r@.len() == n,
{
    assert(y * stride >= 0) by (nonlinear_arith);
    let total: usize = plane.len();
    vstd::slice::slice_to_vec(
        vstd::slice::slice_subrange(plane.as_slice(), y * stride, y * stride + n),
    )
}

/// A row of a plane ends within it when the last one does.
proof fn lemma_row_end(y: int, rows: int, stride: int, n: int, len: int)
    requires
        0 <= y < rows,
        0 <= stride,
        (rows - 1) * stride + n <= len,
    ensures
        y * stride + n <= len,
{
    assert(y * stride <= (rows - 1) * stride) by (nonlinear_arith)
        requires
            y <= rows - 1,
            stride >= 0,
    ;
}

/// Fills one row of an image.
fn fill_image_row<const BPP: usize>(
    row: Vec<u8>,
    y_buffer: &Vec<u8>,
    u_buffer: &Vec<u8>,
    v_buffer: &Vec<u8>,
    width: usize,
    height: usize,
    buffer_width: usize,
    y: usize,
) -> (r: Vec<u8>)
    requires
        BPP == 3 || BPP == 4,
        planes_ok(
            y_buffer@,
            u_buffer@,
            v_buffer@,
            width as int,
            height as int,
            buffer_width as int,
        ),
        y < height,
        height < usize::MAX,
        width < usize::MAX,
        row@.len() == width * BPP,
    ensures
        r@ == image_row(
            row@,
            BPP as int,
            y_buffer@,
            u_buffer@,
            v_buffer@,
            width as int,
            height as int,
            buffer_width as int,
            y as int,
        ),
{
    let cs: usize = buffer_width / 2;
    let cw: usize = (width + 1) / 2;
    let ch: usize = (height + 1) / 2;
    let m: usize = y / 2;
    let s: usize = if y % 2 == 1 {
        if m + 1 < ch {
            m + 1
        } else {
            ch - 1
        }
    } else if y >= 2 {
        m - 1
    } else {
        0
    };
    proof {
        lemma_row_end(y as int, height as int, buffer_width as int, width as int, y_buffer@.len() as int);
        lemma_row_end(m as int, ch as int, cs as int, cw as int, u_buffer@.len() as int);
        lemma_row_end(s as int, ch as int, cs as int, cw as int, u_buffer@.len() as int);
        lemma_row_end(m as int, ch as int, cs as int, cw as int, v_buffer@.len() as int);
        lemma_row_end(s as int, ch as int, cs as int, cw as int, v_buffer@.len() as int);
    }
    let y_row: Vec<u8> = copy_row(y_buffer, buffer_width, y, width);
    let u1: Vec<u8> = copy_row(u_buffer, cs, m, cw);
    let u2: Vec<u8> = copy_row(u_buffer, cs, s, cw);
    let v1: Vec<u8> = copy_row(v_buffer, cs, m, cw);
    let v2: Vec<u8> = copy_row(v_buffer, cs, s, cw);
    let mut out: Vec<u8> = row;
    if y == 0 {
        fill_row_fancy_with_1_uv_row::<BPP>(&mut out, &y_row, &u1, &v1);
    } else {
        fill_row_fancy_with_2_uv_rows::<BPP>(&mut out, &y_row, &u1, &u2, &v1, &v2);
    }
    out
}

/// Fills the pixels of an image from its planes. Rows are filled on the thread pool. Bytes of a
/// pixel behind the first three are kept.
pub fn fill_rgb_buffer_fancy<const BPP: usize>(
    buffer: &mut Vec<u8>,
    y_buffer: &Vec<u8>,
    u_buffer: &Vec<u8>,
    v_buffer: &Vec<u8>,
    width: usize,
    height: usize,
    buffer_width: usize,
)
    requires
        BPP == 3 || BPP == 4,
        planes_ok(
            y_buffer@,
            u_buffer@,
            v_buffer@,
            width as int,
            height as int,
            buffer_width as int,
        ),
        height < usize::MAX,
        width < usize::MAX,
        old(buffer)@.len() == (width * BPP) * height,
    ensures
        final(buffer)@.len() == old(buffer)@.len(),
        forall|y: int|
            #![trigger chunk_of(final(buffer)@, width * BPP, y)]
            0 <= y < height ==> chunk_of(final(buffer)@, width * BPP, y) == image_row(
                chunk_of(old(buffer)@, width * BPP, y),
                BPP as int,
                y_buffer@,
                u_buffer@,
                v_buffer@,
                width as int,
                height as int,
                buffer_width as int,
                y,
            ),
{
    let total: usize = buffer.len();
    let ghost before = buffer@;
    proof {
        let a = width * BPP;
        assert(a >= 3 && a * height >= a) by (nonlinear_arith)
            requires
                a == width * BPP,
                width >= 1,
                BPP >= 3,
                height >= 1,
        ;
    }
    let row_bytes: usize = width * BPP;
    let fill = |y: usize, row: Vec<u8>| -> (r: Vec<u8>)
        ensures
            r@.len() == row@.len(),
            y < height && row@.len() == row_bytes ==> r@ == image_row(
                row@,
                BPP as int,
                y_buffer@,
                u_buffer@,
                v_buffer@,
                width as int,
                height as int,
                buffer_width as int,
                y as int,
            ),
        {
            if y < height && row.len() == row_bytes {
                fill_image_row::<BPP>(
                    row,
                    y_buffer,
                    u_buffer,
                    v_buffer,
                    width,
                    height,
                    buffer_width,
                    y,
                )
            } else {
                row
            }
        };
    parallel_chunks_mut(buffer, row_bytes, false, fill);
    assert forall|y: int|
        #![trigger chunk_of(buffer@, width * BPP, y)]
        0 <= y < height implies chunk_of(buffer@, width * BPP, y) == image_row(
        chunk_of(before, width * BPP, y),
        BPP as int,
        y_buffer@,
        u_buffer@,
        v_buffer@,
        width as int,
        height as int,
        buffer_width as int,
        y,
    ) by {
        let i = y as usize;
        let a = row_bytes as int;
        assert((y + 1) * a <= a * height && (y + 1) * a == y * a + a && y * a >= 0)
            by (nonlinear_arith)
            requires
                0 <= y < height,
                a >= 3,
        ;
        assert(chunk_done(before, buffer@, a, fill, i));
        let (c, r) = choose|c: Vec<u8>, r: Vec<u8>|
            c@ == chunk_of(before, a, i as int) && r@ == chunk_of(buffer@, a, i as int)
                && #[trigger] call_ensures(fill, (i, c), r);
        assert(c@.len() == a);
    }
}

/// A row whose pixels take the chroma samples they lie in; pixels without samples are kept.
pub open spec fn simple_row(
    before: Seq<u8>,
    bpp: int,
    y: Seq<u8>,
    u: Seq<u8>,
    v: Seq<u8>,
) -> Seq<u8> {
    Seq::new(
        before.len(),
        |i: int|
            if i % bpp < 3 && i / bpp / 2 < u.len() && i / bpp / 2 < v.len() {
                rgb_channel(
                    y[i / bpp] as int,
                    u[i / bpp / 2] as int,
                    v[i / bpp / 2] as int,
                    i % bpp,
                ) as u8
            } else {
                before[i]
            },
    )
}

/// Fills a row without interpolation.
pub fn fill_rgba_row_simple<const BPP: usize>(
    y_vec: &Vec<u8>,
    u_vec: &Vec<u8>,
    v_vec: &Vec<u8>,
    rgba: &mut Vec<u8>,
)
    requires
        BPP == 3 || BPP == 4,
        old(rgba)@.len() == y_vec@.len() * BPP,
    ensures
        final(rgba)@ == simple_row(old(rgba)@, BPP as int, y_vec@, u_vec@, v_vec@),
{
    let ghost before = rgba@;
    let ghost goal = simple_row(before, BPP as int, y_vec@, u_vec@, v_vec@);
    let width: usize = y_vec.len();
    let mut x: usize = 0;
    assert(0 * BPP == 0);
    while x < width
        invariant
            x <= width,
            BPP == 3 || BPP == 4,
            width == y_vec@.len(),
            before.len() == width * BPP,
            goal == simple_row(before, BPP as int, y_vec@, u_vec@, v_vec@),
            row_until(rgba@, before, goal, BPP as int, x as int),
        decreases width - x,
    {
        let ghost r0 = rgba@;
        proof {
            let b = BPP as int;
            let xi = x as int;
            let wi = width as int;
            assert((xi + 1) * b <= wi * b && (xi + 1) * b == xi * b + b) by (nonlinear_arith)
                requires
                    xi + 1 <= wi,
                    b >= 0,
            ;
        }
        if x / 2 < u_vec.len() && x / 2 < v_vec.len() {
            set_pixel(rgba, BPP, x, y_vec[x], u_vec[x / 2], v_vec[x / 2]);
        }
        proof {
            let b = BPP as int;
            assert forall|i: int| 0 <= i < rgba@.len() implies #[trigger] rgba@[i] == (if i < (x
                + 1) * b {
                goal[i]
            } else {
                before[i]
            }) by {
                if x * b <= i < x * b + b {
                    crate::vp8::planes::lemma_row_col(x as int, i - x * b, b);
                    assert(r0[i] == before[i]);
                } else {
                    assert(rgba@[i] == r0[i]);
                }
            }
        }
        x = x + 1;
    }
    assert(rgba@ =~= goal);
}

/// How many whole rows all of the buffers have.
pub open spec fn simple_rows(
    buffer_len: int,
    y_len: int,
    u_len: int,
    v_len: int,
    row_bytes: int,
    buffer_width: int,
) -> int {
    let a = least(buffer_len / row_bytes, y_len / buffer_width);
    let b = least(u_len / (buffer_width / 2), v_len / (buffer_width / 2));
    least(a, 2 * b)
}

/// Row `y` of an image without interpolation.
pub open spec fn simple_image_row(
    before: Seq<u8>,
    bpp: int,
    y_buffer: Seq<u8>,
    u_buffer: Seq<u8>,
    v_buffer: Seq<u8>,
    width: int,
    chroma_width: int,
    buffer_width: int,
    y: int,
) -> Seq<u8> {
    simple_row(
        before,
        bpp,
        plane_row(y_buffer, buffer_width, y, width),
        plane_row(u_buffer, buffer_width / 2, y / 2, chroma_width),
        plane_row(v_buffer, buffer_width / 2, y / 2, chroma_width),
    )
}

fn simple_row_at<const BPP: usize>(
    row: Vec<u8>,
    y_buffer: &Vec<u8>,
    u_buffer: &Vec<u8>,
    v_buffer: &Vec<u8>,
    width: usize,
    chroma_width: usize,
    buffer_width: usize,
    y: usize,
) -> (r: Vec<u8>)
    requires
        BPP == 3 || BPP == 4,
        row@.len() == width * BPP,
        y * buffer_width + width <= y_buffer@.len(),
        (y as int / 2) * (buffer_width as int / 2) + chroma_width <= u_buffer@.len(),
        (y as int / 2) * (buffer_width as int / 2) + chroma_width <= v_buffer@.len(),
    ensures
        r@ == simple_image_row(
            row@,
            BPP as int,
            y_buffer@,
            u_buffer@,
            v_buffer@,
            width as int,
            chroma_width as int,
            buffer_width as int,
            y as int,
        ),
{
    let y_row: Vec<u8> = copy_row(y_buffer, buffer_width, y, width);
    let u_row: Vec<u8> = copy_row(u_buffer, buffer_width / 2, y / 2, chroma_width);
    let v_row: Vec<u8> = copy_row(v_buffer, buffer_width / 2, y / 2, chroma_width);
    let mut out: Vec<u8> = row;
    fill_rgba_row_simple::<BPP>(&y_row, &u_row, &v_row, &mut out);
    out
}

/// Whole rows end within their buffer.
proof fn lemma_whole_rows(len: int, stride: int, y: int)
    requires
        0 <= y < len / stride,
        0 < stride,
    ensures
        y * stride + stride <= len,
{
    assert(y * stride + stride <= len) by (nonlinear_arith)
        requires
            0 <= y < len / stride,
            0 < stride,
    ;
}

/// Fills the pixels of an image without interpolation, as many rows as all buffers have; the
/// rest is kept.
pub fn fill_rgb_buffer_simple<const BPP: usize>(
    buffer: &mut Vec<u8>,
    y_buffer: &Vec<u8>,
    u_buffer: &Vec<u8>,
    v_buffer: &Vec<u8>,
    width: usize,
    chroma_width: usize,
    buffer_width: usize,
)
    requires
        BPP == 3 || BPP == 4,
        1 <= width <= buffer_width,
        width * BPP <= usize::MAX,
        buffer_width >= 2,
        chroma_width <= buffer_width / 2,
    ensures
        final(buffer)@.len() == old(buffer)@.len(),
        forall|y: int|
            #![trigger chunk_of(final(buffer)@, width * BPP, y)]
            0 <= y && y * (width * BPP) < old(buffer)@.len() ==> chunk_of(
                final(buffer)@,
                width * BPP,
                y,
            ) == (if y < simple_rows(
                old(buffer)@.len() as int,
                y_buffer@.len() as int,
                u_buffer@.len() as int,
                v_buffer@.len() as int,
                width * BPP,
                buffer_width as int,
            ) {
                simple_image_row(
                    chunk_of(old(buffer)@, width * BPP, y),
                    BPP as int,
                    y_buffer@,
                    u_buffer@,
                    v_buffer@,
                    width as int,
                    chroma_width as int,
                    buffer_width as int,
                    y,
                )
            } else {
                chunk_of(old(buffer)@, width * BPP, y)
            }),
{
    let ghost before = buffer@;
    let row_bytes: usize = width * BPP;
    assert(row_bytes >= 1) by (nonlinear_arith)
        requires
            row_bytes == width * BPP,
            width >= 1,
            BPP >= 3,
    ;
    let cs: usize = buffer_width / 2;
    let a1: usize = buffer.len() / row_bytes;
    let a2: usize = y_buffer.len() / buffer_width;
    let b1: usize = u_buffer.len() / cs;
    let b2: usize = v_buffer.len() / cs;
    let a: usize = if a1 < a2 {
        a1
    } else {
        a2
    };
    let b: usize = if b1 < b2 {
        b1
    } else {
        b2
    };
    let rows: usize = if a / 2 < b {
        a
    } else {
        2 * b
    };
    let fill = |y: usize, row: Vec<u8>| -> (r: Vec<u8>)
        ensures
            r@.len() == row@.len(),
            y < rows && row@.len() == row_bytes ==> r@ == simple_image_row(
                row@,
                BPP as int,
                y_buffer@,
                u_buffer@,
                v_buffer@,
                width as int,
                chroma_width as int,
                buffer_width as int,
                y as int,
            ),
            y >= rows ==> r@ == row@,
        {
            if y < rows && row.len() == row_bytes {
                proof {
                    lemma_whole_rows(y_buffer@.len() as int, buffer_width as int, y as int);
                    lemma_whole_rows(u_buffer@.len() as int, cs as int, y as int / 2);
                    lemma_whole_rows(v_buffer@.len() as int, cs as int, y as int / 2);
                }
                simple_row_at::<BPP>(
                    row,
                    y_buffer,
                    u_buffer,
                    v_buffer,
                    width,
                    chroma_width,
                    buffer_width,
                    y,
                )
            } else {
                row
            }
        };
    parallel_chunks_mut(buffer, row_bytes, true, fill);
    assert forall|y: int|
        #![trigger chunk_of(buffer@, width * BPP, y)]
        0 <= y && y * (width * BPP) < before.len() implies chunk_of(buffer@, width * BPP, y) == (
    if y < rows {
        simple_image_row(
            chunk_of(before, width * BPP, y),
            BPP as int,
            y_buffer@,
            u_buffer@,
            v_buffer@,
            width as int,
            chroma_width as int,
            buffer_width as int,
            y,
        )
    } else {
        chunk_of(before, width * BPP, y)
    }) by {
        let w = row_bytes as int;
        assert(y <= y * w && (y + 1) * w == y * w + w) by (nonlinear_arith)
            requires
                y >= 0,
                w >= 1,
        ;
        let i = y as usize;
        assert(chunk_done(before, buffer@, w, fill, i));
        let (c, r) = choose|c: Vec<u8>, r: Vec<u8>|
            c@ == chunk_of(before, w, i as int) && r@ == chunk_of(buffer@, w, i as int)
                && #[trigger] call_ensures(fill, (i, c), r);
        if y < rows {
            lemma_whole_rows(before.len() as int, w, y);
            assert(c@.len() == w);
        }
    }
}

} // verus!
