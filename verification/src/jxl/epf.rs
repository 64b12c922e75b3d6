//! The edge-preserving filter: which pixels each pixel is compared with and averaged over.
//!
//! The arithmetic is the caller's kernel; floating-point values are carried as their bits.
use vstd::prelude::*;

verus! {

/// Rows around the one that is filtered, three above and three below.
pub const ROWS: usize = 7;

/// Pixels that a pixel is averaged with in a pass, by their offsets.
pub open spec fn kernel_offsets(step: int) -> Seq<(int, int)> {
    if step == 0 {
        seq![
            (0int, -2int),
            (-1int, -1int),
            (0int, -1int),
            (1int, -1int),
            (-2int, 0int),
            (-1int, 0int),
            (1int, 0int),
            (2int, 0int),
            (-1int, 1int),
            (0int, 1int),
            (1int, 1int),
            (0int, 2int),
        ]
    } else {
        seq![(0int, -1int), (0int, 1int), (-1int, 0int), (1int, 0int)]
    }
}

/// Pixels around two pixels that are compared to tell how much these differ.
pub open spec fn compared_offsets(step: int) -> Seq<(int, int)> {
    if step == 2 {
        seq![(0int, 0int)]
    } else {
        seq![(0int, -1int), (1int, 0int), (0int, 0int), (-1int, 0int), (0int, 1int)]
    }
}

/// Position `x` of a row of `n` pixels, mirrored at the ends.
pub open spec fn mirrored(x: int, n: int) -> int {
    if n <= 0 || 0 <= x < n {
        x
    } else if x < 0 {
        let y = -x - 1;
        if y < n {
            y
        } else {
            n - 1
        }
    } else {
        let y = 2 * n - 1 - x;
        if y >= 0 {
            y
        } else {
            0
        }
    }
}

/// How far the pixels that a pixel depends on lie from it.
pub open spec fn reach(step: int) -> int {
    3 - step
}

/// Rows of the three channels.
pub type EpfRows = Vec<Vec<Vec<u32>>>;

pub open spec fn rows_ok(rows: EpfRows, width: int) -> bool {
    &&& rows@.len() == 3
    &&& forall|c: int| 0 <= c < 3 ==> (#[trigger] rows@[c])@.len() == ROWS
    &&& forall|c: int, r: int|
        #![trigger rows@[c]@[r]]
        0 <= c < 3 && 0 <= r < ROWS ==> rows@[c]@[r]@.len() == width
}

/// The value at an offset from pixel `x` of the middle row.
pub open spec fn value_at(rows: EpfRows, width: int, c: int, x: int, dx: int, dy: int) -> u32 {
    rows@[c]@[3 + dy]@[mirrored(x + dx, width)]
}

/// A pixel that is averaged with another: its value, and the values that are compared, in pairs.
pub struct EpfTap {
    /// Values of the three channels.
    pub value: Vec<u32>,
    /// Values around it, channel by channel.
    pub around: Vec<u32>,
    /// Values around the pixel that is filtered.
    pub base: Vec<u32>,
}

/// What the kernel gets of a pixel.
pub struct EpfPixel {
    /// Values of the three channels.
    pub original: Vec<u32>,
    pub sigma: u32,
    /// Whether the pixel lies at the border of a block of eight by eight.
    pub border: bool,
    pub taps: Vec<EpfTap>,
}

pub open spec fn is_tap(t: EpfTap, rows: EpfRows, width: int, x: int, step: int, k: (int, int)) -> bool {
    let near = compared_offsets(step);
    let n = near.len() as int;
    &&& t.value@ == Seq::new(3, |c: int| value_at(rows, width, c, x, k.0, k.1))
    &&& t.around@ == Seq::new(
        (3 * n) as nat,
        |i: int|
            value_at(rows, width, i / n, x, k.0 + near[i % n].0, k.1 + near[i % n].1),
    )
    &&& t.base@ == Seq::new(
        (3 * n) as nat,
        |i: int| value_at(rows, width, i / n, x, near[i % n].0, near[i % n].1),
    )
}

/// Whether a pixel lies at the border of its block.
pub open spec fn at_border(x: int, y: int) -> bool {
    x % 8 == 0 || x % 8 == 7 || y % 8 == 0 || y % 8 == 7
}

pub open spec fn is_pixel(
    p: EpfPixel,
    rows: EpfRows,
    width: int,
    sigma_row: Seq<u32>,
    step: int,
    x: int,
    y: int,
) -> bool {
    let offsets = kernel_offsets(step);
    &&& p.original@ == Seq::new(3, |c: int| value_at(rows, width, c, x, 0, 0))
    &&& p.sigma == sigma_row[x / 8]
    &&& p.border == at_border(x, y)
    &&& p.taps@.len() == offsets.len()
    &&& forall|i: int|
        0 <= i < offsets.len() ==> is_tap(#[trigger] p.taps@[i], rows, width, x, step, offsets[i])
}

/// The offsets of a pass.
pub fn epf_kernel_offsets(step: usize) -> (r: Vec<(i32, i32)>)
    requires
        step <= 2,
    ensures
        same_offsets(r@, kernel_offsets(step as int)),
        forall|i: int|
            0 <= i < r@.len() ==> -2 <= (#[trigger] r@[i]).0 <= 2 && -2 <= r@[i].1 <= 2,
        step >= 1 ==> forall|i: int|
            0 <= i < r@.len() ==> -1 <= (#[trigger] r@[i]).0 <= 1 && -1 <= r@[i].1 <= 1,
{
    let mut r: Vec<(i32, i32)> = Vec::new();
    if step == 0 {
        r.push((0, -2));
        r.push((-1, -1));
        r.push((0, -1));
        r.push((1, -1));
        r.push((-2, 0));
        r.push((-1, 0));
        r.push((1, 0));
        r.push((2, 0));
        r.push((-1, 1));
        r.push((0, 1));
        r.push((1, 1));
        r.push((0, 2));
    } else {
        r.push((0, -1));
        r.push((0, 1));
        r.push((-1, 0));
        r.push((1, 0));
    }
    r
}

pub open spec fn same_offsets(a: Seq<(i32, i32)>, b: Seq<(int, int)>) -> bool {
    &&& a.len() == b.len()
    &&& forall|i: int| 0 <= i < a.len() ==> (#[trigger] a[i]).0 == b[i].0 && a[i].1 == b[i].1
}

fn near_offsets(step: usize) -> (r: Vec<(i32, i32)>)
    requires
        step <= 2,
    ensures
        same_offsets(r@, compared_offsets(step as int)),
        1 <= r@.len() <= 5,
        forall|i: int|
            0 <= i < r@.len() ==> -1 <= (#[trigger] r@[i]).0 <= 1 && -1 <= r@[i].1 <= 1,
{
    let mut r: Vec<(i32, i32)> = Vec::new();
    if step == 2 {
        r.push((0, 0));
    } else {
        r.push((0, -1));
        r.push((1, 0));
        r.push((0, 0));
        r.push((-1, 0));
        r.push((0, 1));
    }
    r
}

/// The value at an offset from pixel `x` of the middle row.
fn read_value(rows: &EpfRows, width: usize, c: usize, x: usize, dx: i32, dy: i32) -> (r: u32)
    requires
        rows_ok(*rows, width as int),
        c < 3,
        x < width,
        -3 <= dx <= 3,
        -3 <= dy <= 3,
    ensures
        r == value_at(*rows, width as int, c as int, x as int, dx as int, dy as int),
{
    let at: i128 = x as i128 + dx as i128;
    let n: i128 = width as i128;
    let col: i128 = if at < 0 {
        let y: i128 = -at - 1;
        if y < n {
            y
        } else {
            n - 1
        }
    } else if at >= n {
        let y: i128 = 2 * n - 1 - at;
        if y >= 0 {
            y
        } else {
            0
        }
    } else {
        at
    };
    let row: usize = (3 + dy) as usize;
    assert(rows@[c as int]@.len() == ROWS);
    assert(rows@[c as int]@[row as int]@.len() == width);
    rows[c][row][col as usize]
}

/// Values of three channels at some offsets, channel by channel.
fn read_around(
    rows: &EpfRows,
    width: usize,
    x: usize,
    near: &Vec<(i32, i32)>,
    kx: i32,
    ky: i32,
    Ghost(step): Ghost<int>,
) -> (r: Vec<u32>)
    requires
        rows_ok(*rows, width as int),
        x < width,
        same_offsets(near@, compared_offsets(step)),
        1 <= near@.len() <= 5,
        forall|i: int|
            0 <= i < near@.len() ==> -1 <= (#[trigger] near@[i]).0 <= 1 && -1 <= near@[i].1 <= 1,
        -2 <= kx <= 2,
        -2 <= ky <= 2,
    ensures
        ({
            let n = compared_offsets(step).len() as int;
            r@ == Seq::new(
                (3 * n) as nat,
                |i: int|
                    value_at(
                        *rows,
                        width as int,
                        i / n,
                        x as int,
                        kx + compared_offsets(step)[i % n].0,
                        ky + compared_offsets(step)[i % n].1,
                    ),
            )
        }),
{
    let count: usize = near.len();
    let mut r: Vec<u32> = Vec::new();
    let ghost n = compared_offsets(step).len() as int;
    let ghost goal = Seq::new(
        (3 * n) as nat,
        |i: int|
            value_at(
                *rows,
                width as int,
                i / n,
                x as int,
                kx + compared_offsets(step)[i % n].0,
                ky + compared_offsets(step)[i % n].1,
            ),
    );
    let mut c: usize = 0;
    let mut d: usize = 0;
    while c < 3
        invariant
            c <= 3,
            d <= count,
            c == 3 ==> d == 0,
            count == near@.len(),
            n == count,
            1 <= count <= 5,
            rows_ok(*rows, width as int),
            x < width,
            same_offsets(near@, compared_offsets(step)),
            n == compared_offsets(step).len(),
            forall|i: int|
                0 <= i < near@.len() ==> -1 <= (#[trigger] near@[i]).0 <= 1 && -1 <= near@[i].1
                    <= 1,
            -2 <= kx <= 2,
            -2 <= ky <= 2,
            goal == Seq::new(
                (3 * n) as nat,
                |i: int|
                    value_at(
                        *rows,
                        width as int,
                        i / n,
                        x as int,
                        kx + compared_offsets(step)[i % n].0,
                        ky + compared_offsets(step)[i % n].1,
                    ),
            ),
            r@.len() == c * count + d,
            forall|i: int| 0 <= i < r@.len() ==> #[trigger] r@[i] == goal[i],
        decreases 3 - c, count - d,
    {
        if d >= count {
            assert((c + 1) * count == c * count + count) by (nonlinear_arith);
            d = 0;
            c = c + 1;
        } else {
            let (ox, oy) = near[d];
            assert(-1 <= near@[d as int].0 <= 1);
            proof {
                crate::jxl::grid::lemma_flat(d as int, c as int, count as int, 3);
                crate::vp8::planes::lemma_row_col(c as int, d as int, count as int);
            }
            let v: u32 = read_value(rows, width, c, x, kx + ox, ky + oy);
            assert(near@[d as int].0 == compared_offsets(step)[d as int].0);
            r.push(v);
            d = d + 1;
        }
    }
    assert(c * count + d == 3 * n) by (nonlinear_arith)
        requires
            c == 3,
            d == 0,
            n == count,
    ;
    assert(r@ =~= goal);
    r
}

fn read_three(rows: &EpfRows, width: usize, x: usize, kx: i32, ky: i32) -> (r: Vec<u32>)
    requires
        rows_ok(*rows, width as int),
        x < width,
        -2 <= kx <= 2,
        -2 <= ky <= 2,
    ensures
        r@ == Seq::new(
            3,
            |c: int| value_at(*rows, width as int, c, x as int, kx as int, ky as int),
        ),
{
    let mut r: Vec<u32> = Vec::new();
    r.push(read_value(rows, width, 0, x, kx, ky));
    r.push(read_value(rows, width, 1, x, kx, ky));
    r.push(read_value(rows, width, 2, x, kx, ky));
    assert(r@ =~= Seq::new(
        3,
        |c: int| value_at(*rows, width as int, c, x as int, kx as int, ky as int),
    ));
    r
}

fn read_pixel(
    rows: &EpfRows,
    width: usize,
    sigma_row: &Vec<u32>,
    step: usize,
    x: usize,
    y: usize,
) -> (p: EpfPixel)
    requires
        step <= 2,
        rows_ok(*rows, width as int),
        x < width,
        sigma_row@.len() * 8 >= width,
    ensures
        is_pixel(p, *rows, width as int, sigma_row@, step as int, x as int, y as int),
{
    let offsets: Vec<(i32, i32)> = epf_kernel_offsets(step);
    let near: Vec<(i32, i32)> = near_offsets(step);
    let ghost wanted = kernel_offsets(step as int);
    let mut taps: Vec<EpfTap> = Vec::new();
    let mut i: usize = 0;
    while i < offsets.len()
        invariant
            i <= offsets@.len(),
            step <= 2,
            rows_ok(*rows, width as int),
            x < width,
            wanted == kernel_offsets(step as int),
            same_offsets(offsets@, wanted),
            forall|k: int|
                0 <= k < offsets@.len() ==> -2 <= (#[trigger] offsets@[k]).0 <= 2 && -2
                    <= offsets@[k].1 <= 2,
            same_offsets(near@, compared_offsets(step as int)),
            1 <= near@.len() <= 5,
            forall|k: int|
                0 <= k < near@.len() ==> -1 <= (#[trigger] near@[k]).0 <= 1 && -1 <= near@[k].1
                    <= 1,
            taps@.len() == i,
            forall|k: int|
                0 <= k < i ==> is_tap(
                    #[trigger] taps@[k],
                    *rows,
                    width as int,
                    x as int,
                    step as int,
                    wanted[k],
                ),
        decreases offsets@.len() - i,
    {
        let (kx, ky) = offsets[i];
        assert(-2 <= offsets@[i as int].0 <= 2 && offsets@[i as int].0 == wanted[i as int].0);
        let tap = EpfTap {
            value: read_three(rows, width, x, kx, ky),
            around: read_around(rows, width, x, &near, kx, ky, Ghost(step as int)),
            base: read_around(rows, width, x, &near, 0, 0, Ghost(step as int)),
        };
        proof {
            let n = compared_offsets(step as int).len() as int;
            assert(tap.base@ =~= Seq::new(
                (3 * n) as nat,
                |i: int|
                    value_at(
                        *rows,
                        width as int,
                        i / n,
                        x as int,
                        compared_offsets(step as int)[i % n].0,
                        compared_offsets(step as int)[i % n].1,
                    ),
            ));
            assert(is_tap(
                tap,
                *rows,
                width as int,
                x as int,
                step as int,
                wanted[i as int],
            ));
        }
        taps.push(tap);
        i = i + 1;
    }
    EpfPixel {
        original: read_three(rows, width, x, 0, 0),
        sigma: sigma_row[x / 8],
        border: x % 8 == 0 || x % 8 == 7 || y % 8 == 0 || y % 8 == 7,
        taps,
    }
}

/// Which pixels of a row are filtered.
#[derive(Debug, Clone, Copy, PartialEq, Eq, Structural)]
pub enum EpfPart {
    /// Whole blocks of eight pixels, but the first, whose neighbours lie within the row.
    Inner,
    /// The others.
    Border,
    Whole,
}

/// Where the whole blocks of eight pixels end that reach no further than the row.
pub open spec fn inner_end(width: int, step: int) -> int {
    let end = (width - reach(step)) / 8 * 8;
    if end < 8 {
        8
    } else {
        end
    }
}

/// Whether a pixel belongs to the inner part of a row.
pub open spec fn is_inner(x: int, width: int, step: int) -> bool {
    width >= 2 * reach(step) && 8 <= x < inner_end(width, step)
}

pub open spec fn in_part(part: EpfPart, x: int, width: int, step: int) -> bool {
    match part {
        EpfPart::Inner => is_inner(x, width, step),
        EpfPart::Border => !is_inner(x, width, step),
        EpfPart::Whole => true,
    }
}

/// Columns of the inner part of a row.
pub fn inner_range(width: usize, step: usize) -> (r: (usize, usize))
    requires
        step <= 2,
    ensures
        r.0 == 8,
        r.0 <= r.1,
        r.1 == if width >= 2 * reach(step as int) {
            inner_end(width as int, step as int)
        } else {
            8
        },
{
    let padding: usize = 3 - step;
    if width < padding * 2 {
        return (8, 8);
    }
    let end: usize = (width - padding) / 8 * 8;
    if end < 8 {
        (8, 8)
    } else {
        (8, end)
    }
}

/// The pixels that an inner pixel depends on lie within the row.
pub proof fn lemma_inner_reach(x: int, width: int, step: int, d: int)
    requires
        0 <= step <= 2,
        is_inner(x, width, step),
        -reach(step) <= d <= reach(step),
    ensures
        0 <= x + d < width,
        mirrored(x + d, width) == x + d,
{
}

/// The kernel may make these values of a pixel.
pub open spec fn pixel_made<K: Fn(&EpfPixel) -> [u32; 3]>(
    kernel: K,
    rows: EpfRows,
    width: int,
    sigma_row: Seq<u32>,
    step: int,
    x: int,
    y: int,
    o: Seq<u32>,
) -> bool {
    exists|p: EpfPixel, a: [u32; 3]|
        is_pixel(p, rows, width, sigma_row, step, x, y) && #[trigger] call_ensures(
            kernel,
            (&p,),
            a,
        ) && a@ == o
}

/// Values of the three channels of a pixel.
pub open spec fn channels_at(out: Seq<Vec<u32>>, x: int) -> Seq<u32> {
    Seq::new(3, |c: int| out[c]@[x])
}

pub open spec fn out_ok(out: Seq<Vec<u32>>, width: int) -> bool {
    &&& out.len() == 3
    &&& forall|c: int| 0 <= c < 3 ==> (#[trigger] out[c])@.len() == width
}

/// Filters a part of a row; the other pixels are kept.
pub fn epf_row<K: Fn(&EpfPixel) -> [u32; 3]>(
    kernel: &K,
    rows: &EpfRows,
    width: usize,
    sigma_row: &Vec<u32>,
    step: usize,
    y: usize,
    part: EpfPart,
    out: &mut Vec<Vec<u32>>,
)
    requires
        step <= 2,
        rows_ok(*rows, width as int),
        sigma_row@.len() * 8 >= width,
        out_ok(old(out)@, width as int),
        forall|p: EpfPixel| #[trigger] call_requires(*kernel, (&p,)),
    ensures
        out_ok(final(out)@, width as int),
        forall|x: int|
            #![trigger channels_at(final(out)@, x)]
            0 <= x < width ==> if in_part(part, x, width as int, step as int) {
                pixel_made(
                    *kernel,
                    *rows,
                    width as int,
                    sigma_row@,
                    step as int,
                    x,
                    y as int,
                    channels_at(final(out)@, x),
                )
            } else {
                channels_at(final(out)@, x) == channels_at(old(out)@, x)
            },
{
    let (first, last) = inner_range(width, step);
    let ghost start = out@;
    let mut x: usize = 0;
    while x < width
        invariant
            x <= width,
            step <= 2,
            rows_ok(*rows, width as int),
            sigma_row@.len() * 8 >= width,
            first == 8,
            first <= last,
            last == if width >= 2 * reach(step as int) {
                inner_end(width as int, step as int)
            } else {
                8
            },
            out_ok(start, width as int),
            out_ok(out@, width as int),
            forall|p: EpfPixel| #[trigger] call_requires(*kernel, (&p,)),
            forall|i: int|
                #![trigger channels_at(out@, i)]
                0 <= i < x ==> if in_part(part, i, width as int, step as int) {
                    pixel_made(
                        *kernel,
                        *rows,
                        width as int,
                        sigma_row@,
                        step as int,
                        i,
                        y as int,
                        channels_at(out@, i),
                    )
                } else {
                    channels_at(out@, i) == channels_at(start, i)
                },
            forall|i: int|
                #![trigger channels_at(out@, i)]
                x <= i < width ==> channels_at(out@, i) == channels_at(start, i),
        decreases width - x,
    {
        let inner: bool = first <= x && x < last;
        let selected: bool = match part {
            EpfPart::Inner => inner,
            EpfPart::Border => !inner,
            EpfPart::Whole => true,
        };
        assert(selected == in_part(part, x as int, width as int, step as int));
        let ghost before = out@;
        if selected {
            let p = read_pixel(rows, width, sigma_row, step, x, y);
            assert(call_requires(*kernel, (&p,)));
            let a: [u32; 3] = kernel(&p);
            assert(call_ensures(*kernel, (&p,), a));
            assert(before[0]@.len() == width && before[1]@.len() == width && before[2]@.len()
                == width);
            out[0].set(x, a[0]);
            out[1].set(x, a[1]);
            out[2].set(x, a[2]);
            proof {
                assert(channels_at(out@, x as int) =~= a@);
                assert forall|i: int|
                    #![trigger channels_at(out@, i)]
                    0 <= i < width && i != x implies channels_at(out@, i) == channels_at(
                    before,
                    i,
                ) by {
                    assert(channels_at(out@, i) =~= channels_at(before, i));
                }
            }
        } else {
            assert(channels_at(out@, x as int) == channels_at(start, x as int));
        }
        x = x + 1;
    }
}

/// Filtering the inner part and the border part filters every pixel once.
pub proof fn lemma_parts(x: int, width: int, step: int)
    ensures
        in_part(EpfPart::Inner, x, width, step) != in_part(EpfPart::Border, x, width, step),
{
}

} // verus!
