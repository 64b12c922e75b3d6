//! Chroma from luma, and low frequencies on their way into the coefficients.
//!
//! Arithmetic is the caller's kernel. Floating-point values are carried as their bits.
use crate::jxl::block::TransformType;
use crate::jxl::block_transform::{put_rect, rect_put};
use crate::jxl::dequant::{lf_for, lf_values};
use crate::jxl::grid::{lemma_flat, lemma_flat_injective, Grid, SharedSubgrid};
use crate::jxl::group_transform::lemma_sides;
use crate::jxl::varblocks::VarblockInfo;
use vstd::prelude::*;

verus! {

/// A pixel's values, and the factors by which luma enters the two others.
#[derive(Debug, Clone, Copy, PartialEq, Eq, Structural)]
pub struct CflJob {
    pub x_factor: i32,
    pub b_factor: i32,
    pub x: u32,
    pub y: u32,
    pub b: u32,
}

/// How many tiles have factors of both kinds.
pub open spec fn tile_count(x_from_y: SharedSubgrid<i32>, b_from_y: SharedSubgrid<i32>) -> int {
    if b_from_y.width < x_from_y.width {
        b_from_y.width as int
    } else {
        x_from_y.width as int
    }
}

/// What the kernel gets of a pixel.
pub open spec fn cfl_job(
    x_from_y: SharedSubgrid<i32>,
    b_from_y: SharedSubgrid<i32>,
    before: Seq<Grid<u32>>,
    x: int,
    y: int,
) -> CflJob {
    CflJob {
        x_factor: x_from_y.at(x / 64, y / 64),
        b_factor: b_from_y.at(x / 64, y / 64),
        x: before[0].at(x, y),
        y: before[1].at(x, y),
        b: before[2].at(x, y),
    }
}

/// A pixel after the prediction: where there are factors, what the kernel makes of it; luma, and
/// all else, stays.
pub open spec fn cfl_pixel<K: Fn(&CflJob) -> (u32, u32)>(
    kernel: K,
    x_from_y: SharedSubgrid<i32>,
    b_from_y: SharedSubgrid<i32>,
    before: Seq<Grid<u32>>,
    after: Seq<Grid<u32>>,
    x: int,
    y: int,
) -> bool {
    if x / 64 < tile_count(x_from_y, b_from_y) {
        call_ensures(
            kernel,
            (&cfl_job(x_from_y, b_from_y, before, x, y),),
            (after[0].at(x, y), after[2].at(x, y)),
        )
    } else {
        after[0].at(x, y) == before[0].at(x, y) && after[2].at(x, y) == before[2].at(x, y)
    }
}

/// The grids have one size, and every row has factors.
pub open spec fn cfl_fits(
    x_from_y: SharedSubgrid<i32>,
    b_from_y: SharedSubgrid<i32>,
    grids: Seq<Grid<u32>>,
) -> bool {
    &&& grids.len() == 3
    &&& forall|c: int|
        0 <= c < 3 ==> (#[trigger] grids[c]).wf() && grids[c].width == grids[0].width
            && grids[c].height == grids[0].height
    &&& x_from_y.wf()
    &&& b_from_y.wf()
    &&& grids[0].height > 0 ==> (grids[0].height - 1) / 64 < x_from_y.height && (grids[0].height
        - 1) / 64 < b_from_y.height
}

/// The grids of the same sizes as before, luma unchanged.
pub open spec fn cfl_frame(before: Seq<Grid<u32>>, after: Seq<Grid<u32>>) -> bool {
    &&& after.len() == 3
    &&& forall|c: int|
        0 <= c < 3 ==> (#[trigger] after[c]).wf() && after[c].width == before[c].width
            && after[c].height == before[c].height
    &&& after[1].data@ == before[1].data@
}

/// Predicts chroma from luma in the coefficients of a group.
pub fn chroma_from_luma_hf_grouped<K: Fn(&CflJob) -> (u32, u32)>(
    kernel: &K,
    coeff_xyb: &mut Vec<Grid<u32>>,
    x_from_y: &SharedSubgrid<'_, i32>,
    b_from_y: &SharedSubgrid<'_, i32>,
)
    requires
        forall|job: &CflJob| #[trigger] call_requires(*kernel, (job,)),
        cfl_fits(*x_from_y, *b_from_y, old(coeff_xyb)@),
    ensures
        cfl_frame(old(coeff_xyb)@, final(coeff_xyb)@),
        forall|x: int, y: int|
            0 <= x < old(coeff_xyb)@[0].width && 0 <= y < old(coeff_xyb)@[0].height
                ==> #[trigger] cfl_pixel(
                *kernel,
                *x_from_y,
                *b_from_y,
                old(coeff_xyb)@,
                final(coeff_xyb)@,
                x,
                y,
            ),
{
    let ghost before = coeff_xyb@;
    assert(before[0].wf() && before[1].wf() && before[2].wf());
    let width: usize = coeff_xyb[0].width;
    let height: usize = coeff_xyb[0].height;
    let tiles: usize = if b_from_y.width < x_from_y.width {
        b_from_y.width
    } else {
        x_from_y.width
    };
    let mut x: usize = 0;
    let mut y: usize = 0;
    while y < height
        invariant
            x <= width,
            y <= height,
            y == height ==> x == 0,
            forall|job: &CflJob| #[trigger] call_requires(*kernel, (job,)),
            cfl_fits(*x_from_y, *b_from_y, before),
            cfl_frame(before, coeff_xyb@),
            width == before[0].width,
            height == before[0].height,
            tiles == tile_count(*x_from_y, *b_from_y),
            forall|i: int, j: int|
                0 <= i < width && 0 <= j && (j < y || (j == y && i < x)) ==> #[trigger] cfl_pixel(
                    *kernel,
                    *x_from_y,
                    *b_from_y,
                    before,
                    coeff_xyb@,
                    i,
                    j,
                ),
            forall|i: int, j: int|
                #![trigger coeff_xyb@[0].at(i, j)]
                #![trigger coeff_xyb@[2].at(i, j)]
                0 <= i < width && j < height && (j > y || (j == y && i >= x))
                    ==> coeff_xyb@[0].at(i, j) == before[0].at(i, j) && coeff_xyb@[2].at(i, j)
                    == before[2].at(i, j),
        decreases height - y, width - x,
    {
        if x >= width {
            x = 0;
            y = y + 1;
        } else {
            let ghost mid = coeff_xyb@;
            assert(before[0].wf() && before[1].wf() && before[2].wf());
            assert(mid[0].wf() && mid[1].wf() && mid[2].wf());
            if x / 64 < tiles {
                assert(y / 64 <= (height - 1) / 64);
                assert(mid[0].at(x as int, y as int) == before[0].at(x as int, y as int));
                let job: CflJob = CflJob {
                    x_factor: x_from_y.get(x / 64, y / 64),
                    b_factor: b_from_y.get(x / 64, y / 64),
                    x: coeff_xyb[0].get(x, y),
                    y: coeff_xyb[1].get(x, y),
                    b: coeff_xyb[2].get(x, y),
                };
                assert(job == cfl_job(*x_from_y, *b_from_y, before, x as int, y as int));
                let (nx, nb): (u32, u32) = kernel(&job);
                assert(call_ensures(*kernel, (&job,), (nx, nb)));
                coeff_xyb[0].set(x, y, nx);
                coeff_xyb[2].set(x, y, nb);
                proof {
                    lemma_flat(x as int, y as int, width as int, height as int);
                    assert forall|i: int, j: int|
                        0 <= i < width && 0 <= j < height && (i != x || j != y) implies (
                    #[trigger] coeff_xyb@[0].at(i, j)) == mid[0].at(i, j) && coeff_xyb@[2].at(i, j)
                        == mid[2].at(i, j) by {
                        if j * width + i == y * width + x {
                            lemma_flat_injective(i, j, x as int, y as int, width as int);
                        }
                        lemma_flat(i, j, width as int, height as int);
                    }
                    assert(coeff_xyb@[0].at(x as int, y as int) == nx);
                    assert(coeff_xyb@[2].at(x as int, y as int) == nb);
                }
            }
            proof {
                assert(coeff_xyb@[0].wf() && coeff_xyb@[1].wf() && coeff_xyb@[2].wf());
                assert(cfl_pixel(
                    *kernel,
                    *x_from_y,
                    *b_from_y,
                    before,
                    coeff_xyb@,
                    x as int,
                    y as int,
                )) by {
                    assert(mid[0].at(x as int, y as int) == before[0].at(x as int, y as int));
                    assert(mid[2].at(x as int, y as int) == before[2].at(x as int, y as int));
                }
                assert forall|i: int, j: int|
                    0 <= i < width && 0 <= j && (j < y || (j == y && i < x + 1)) implies
                #[trigger] cfl_pixel(*kernel, *x_from_y, *b_from_y, before, coeff_xyb@, i, j) by {
                    if j < y || i < x {
                        assert(cfl_pixel(*kernel, *x_from_y, *b_from_y, before, mid, i, j));
                        assert(coeff_xyb@[0].at(i, j) == mid[0].at(i, j));
                        assert(coeff_xyb@[2].at(i, j) == mid[2].at(i, j));
                    }
                }
                assert forall|i: int, j: int|
                    #![trigger coeff_xyb@[0].at(i, j)]
                    #![trigger coeff_xyb@[2].at(i, j)]
                    0 <= i < width && j < height && (j > y || (j == y && i >= x + 1)) implies
                coeff_xyb@[0].at(i, j) == before[0].at(i, j) && coeff_xyb@[2].at(i, j)
                    == before[2].at(i, j) by {
                    assert(coeff_xyb@[0].at(i, j) == mid[0].at(i, j));
                    assert(coeff_xyb@[2].at(i, j) == mid[2].at(i, j));
                }
            }
            x = x + 1;
        }
    }
}

/// Values of one sample of the low frequencies.
#[derive(Debug, Clone, Copy, PartialEq, Eq, Structural)]
pub struct LfSample {
    pub x: u32,
    pub y: u32,
    pub b: u32,
}

/// Predicts chroma from luma in the low frequencies; samples that some channel lacks stay.
pub fn chroma_from_luma_lf<K: Fn(&LfSample) -> (u32, u32)>(
    kernel: &K,
    xs: &mut Vec<u32>,
    ys: &Vec<u32>,
    bs: &mut Vec<u32>,
)
    requires
        forall|s: &LfSample| #[trigger] call_requires(*kernel, (s,)),
    ensures
        final(xs)@.len() == old(xs)@.len(),
        final(bs)@.len() == old(bs)@.len(),
        forall|i: int|
            #![trigger final(xs)@[i]]
            #![trigger final(bs)@[i]]
            0 <= i < old(xs)@.len() && i < ys@.len() && i < old(bs)@.len() ==> call_ensures(
                *kernel,
                (&(LfSample { x: old(xs)@[i], y: ys@[i], b: old(bs)@[i] }),),
                (final(xs)@[i], final(bs)@[i]),
            ),
        forall|i: int|
            0 <= i < old(xs)@.len() && (i >= ys@.len() || i >= old(bs)@.len()) ==>
                #[trigger] final(xs)@[i] == old(xs)@[i],
        forall|i: int|
            0 <= i < old(bs)@.len() && (i >= ys@.len() || i >= old(xs)@.len()) ==>
                #[trigger] final(bs)@[i] == old(bs)@[i],
{
    let ghost x0 = xs@;
    let ghost b0 = bs@;
    let mut i: usize = 0;
    while i < xs.len() && i < ys.len() && i < bs.len()
        invariant
            forall|s: &LfSample| #[trigger] call_requires(*kernel, (s,)),
            xs@.len() == x0.len(),
            bs@.len() == b0.len(),
            i <= xs@.len(),
            i <= ys@.len(),
            i <= bs@.len(),
            forall|k: int|
                #![trigger xs@[k]]
                #![trigger bs@[k]]
                0 <= k < i ==> call_ensures(
                    *kernel,
                    (&(LfSample { x: x0[k], y: ys@[k], b: b0[k] }),),
                    (xs@[k], bs@[k]),
                ),
            forall|k: int| i <= k < x0.len() ==> #[trigger] xs@[k] == x0[k],
            forall|k: int| i <= k < b0.len() ==> #[trigger] bs@[k] == b0[k],
        decreases xs@.len() - i,
    {
        let s: LfSample = LfSample { x: xs[i], y: ys[i], b: bs[i] };
        let (nx, nb): (u32, u32) = kernel(&s);
        assert(call_ensures(*kernel, (&s,), (nx, nb)));
        xs.set(i, nx);
        bs.set(i, nb);
        i = i + 1;
    }
}

/// Dequantizes low frequencies into the upper left of a grid; the rest of the grid stays.
pub fn copy_lf_dequant<K: Fn(i32) -> u32>(
    kernel: &K,
    grid: &mut Grid<u32>,
    channel_data: &Grid<i32>,
)
    requires
        forall|q: i32| #[trigger] call_requires(*kernel, (q,)),
        old(grid).wf(),
        channel_data.wf(),
        channel_data.width <= old(grid).width,
        channel_data.height <= old(grid).height,
    ensures
        final(grid).wf(),
        final(grid).width == old(grid).width,
        final(grid).height == old(grid).height,
        forall|x: int, y: int|
            #![trigger final(grid).at(x, y)]
            0 <= x < old(grid).width && 0 <= y < old(grid).height ==> (if x < channel_data.width
                && y < channel_data.height {
                call_ensures(*kernel, (channel_data.at(x, y),), final(grid).at(x, y))
            } else {
                final(grid).at(x, y) == old(grid).at(x, y)
            }),
{
    let ghost start = *grid;
    let width: usize = channel_data.width;
    let height: usize = channel_data.height;
    let mut x: usize = 0;
    let mut y: usize = 0;
    while y < height
        invariant
            x <= width,
            y <= height,
            y == height ==> x == 0,
            forall|q: i32| #[trigger] call_requires(*kernel, (q,)),
            start.wf(),
            grid.wf(),
            grid.width == start.width,
            grid.height == start.height,
            channel_data.wf(),
            width == channel_data.width,
            height == channel_data.height,
            width <= start.width,
            height <= start.height,
            forall|i: int, j: int|
                #![trigger grid.at(i, j)]
                0 <= i < start.width && 0 <= j < start.height ==> (if i < width && (j < y || (j
                    == y && i < x)) {
                    call_ensures(*kernel, (channel_data.at(i, j),), grid.at(i, j))
                } else {
                    grid.at(i, j) == start.at(i, j)
                }),
        decreases height - y, width - x,
    {
        if x >= width {
            x = 0;
            y = y + 1;
        } else {
            let ghost mid = *grid;
            let v: u32 = kernel(channel_data.get(x, y));
            assert(call_ensures(*kernel, (channel_data.at(x as int, y as int),), v));
            grid.set(x, y, v);
            proof {
                lemma_flat(x as int, y as int, start.width as int, start.height as int);
                assert forall|i: int, j: int|
                    #![trigger grid.at(i, j)]
                    0 <= i < start.width && 0 <= j < start.height implies (if i < width && (j < y
                    || (j == y && i < x + 1)) {
                    call_ensures(*kernel, (channel_data.at(i, j),), grid.at(i, j))
                } else {
                    grid.at(i, j) == start.at(i, j)
                }) by {
                    lemma_flat(i, j, start.width as int, start.height as int);
                    if i == x && j == y {
                        assert(grid.at(i, j) == v);
                    } else {
                        if j * start.width + i == y * start.width + x {
                            lemma_flat_injective(i, j, x as int, y as int, start.width as int);
                        }
                        assert(grid.at(i, j) == mid.at(i, j));
                    }
                }
            }
            x = x + 1;
        }
    }
}

/// A band of low frequencies on its way into the coefficients of a large transform.
pub struct LfBand {
    pub dct_select: TransformType,
    /// Low frequencies, one per cell of the block.
    pub values: Vec<u32>,
}

/// The coefficients of a block with its low frequencies: a block of one cell takes the value
/// itself; a larger one takes what the kernel makes of its band, in the upper left.
pub open spec fn lf_inserted<K: Fn(&LfBand) -> Vec<u32>>(
    kernel: K,
    before: Seq<u32>,
    width: int,
    lf: SharedSubgrid<u32>,
    v: VarblockInfo,
    after: Seq<u32>,
) -> bool {
    if v.dct_select.size() == (1int, 1int) {
        after == before.update(0, lf.at(v.shifted_bx as int, v.shifted_by as int))
    } else {
        exists|band: LfBand, out: Vec<u32>|
            {
                &&& #[trigger] call_ensures(kernel, (&band,), out)
                &&& band.dct_select == v.dct_select
                &&& band.values@ == lf_values(lf, v)
                &&& after == rect_put(
                    before,
                    width,
                    0,
                    0,
                    v.dct_select.size().0,
                    v.dct_select.size().1,
                    out@,
                )
            }
    }
}

/// Puts the low frequencies of a block into its coefficients.
pub fn insert_lf_dc<K: Fn(&LfBand) -> Vec<u32>>(
    kernel: &K,
    coeff: &mut Grid<u32>,
    lf: &SharedSubgrid<'_, u32>,
    v: VarblockInfo,
)
    requires
        forall|band: LfBand| #[trigger] call_requires(*kernel, (&band,)),
        forall|band: LfBand, out: Vec<u32>|
            #[trigger] call_ensures(*kernel, (&band,), out) ==> out@.len()
                == band.dct_select.blocks(),
        old(coeff).wf(),
        old(coeff).width == 8 * v.dct_select.size().0,
        old(coeff).height == 8 * v.dct_select.size().1,
        lf.wf(),
        v.shifted_bx + v.dct_select.size().0 <= lf.width,
        v.shifted_by + v.dct_select.size().1 <= lf.height,
    ensures
        final(coeff).wf(),
        final(coeff).width == old(coeff).width,
        final(coeff).height == old(coeff).height,
        lf_inserted(
            *kernel,
            old(coeff).data@,
            old(coeff).width as int,
            *lf,
            v,
            final(coeff).data@,
        ),
{
    let (w, h) = v.dct_select.dct_select_size();
    proof {
        lemma_sides(v.dct_select);
    }
    if w == 1 && h == 1 {
        coeff.set(0, 0, lf.get(v.shifted_bx, v.shifted_by));
        return ;
    }
    let band: LfBand = LfBand { dct_select: v.dct_select, values: lf_for(lf, v) };
    let out: Vec<u32> = kernel(&band);
    assert(call_ensures(*kernel, (&band,), out));
    proof {
        let s = coeff.width as int;
        let t = h as int;
        assert(t * s <= s * coeff.height) by (nonlinear_arith)
            requires
                t <= coeff.height,
                s >= 0,
        ;
    }
    put_rect(&mut coeff.data, coeff.width, 0, 0, w as usize, h as usize, &out);
}

/// A pixel is corrected by the factors of the tile of 64 by 64 pixels that holds it, from its own
/// luma.
pub proof fn lemma_cfl_tile(
    x_from_y: SharedSubgrid<i32>,
    b_from_y: SharedSubgrid<i32>,
    before: Seq<Grid<u32>>,
    tx: int,
    ty: int,
    i: int,
    j: int,
)
    requires
        0 <= tx,
        0 <= ty,
        0 <= i < 64,
        0 <= j < 64,
    ensures
        ({
            let job = cfl_job(x_from_y, b_from_y, before, 64 * tx + i, 64 * ty + j);
            &&& job.x_factor == x_from_y.at(tx, ty)
            &&& job.b_factor == b_from_y.at(tx, ty)
            &&& job.y == before[1].at(64 * tx + i, 64 * ty + j)
            &&& job.x == before[0].at(64 * tx + i, 64 * ty + j)
            &&& job.b == before[2].at(64 * tx + i, 64 * ty + j)
        }),
{
    assert((64 * tx + i) / 64 == tx && (64 * ty + j) / 64 == ty);
}

} // verus!
