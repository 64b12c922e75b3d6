//! Work on the blocks of one channel at a time, in place: dequantization, and the transform with
//! low frequencies.
//!
//! The arithmetic of a block is the caller's kernel. Floating-point values are carried as their
//! bits.
use crate::jxl::block::{lemma_blocks, BlockInfo, ChannelShift, TransformType};
use crate::jxl::block_transform::{get_rect, rect_of, rect_put};
use crate::jxl::dequant::{
    block_kernel_ok, factors_for, lf_for, lf_values, pixels_ok, put_pixels, row_factors, BlockJob,
    Pixels,
};
use crate::jxl::dequant_rows::fill_from_lf;
use crate::jxl::grid::{Grid, SharedSubgrid};
use crate::jxl::group_transform::lemma_sides;
use crate::jxl::varblocks::{all_varblocks, for_each_varblocks, VarblockInfo};
use vstd::prelude::*;

verus! {

/// What the kernel gets of a block.
pub struct PlaneJob {
    pub channel: usize,
    pub dct_select: TransformType,
    pub hf_mul: i32,
    /// Values of the block, row by row.
    pub values: Vec<u32>,
    /// Low frequencies, one per cell of the block; none in dequantization.
    pub lf: Vec<u32>,
}

/// The values of a block in a grid.
pub open spec fn block_values(data: Seq<u32>, width: int, v: VarblockInfo) -> Seq<u32> {
    rect_of(
        data,
        width,
        v.shifted_bx * 8,
        v.shifted_by * 8,
        v.dct_select.size().0 * 8,
        v.dct_select.size().1 * 8,
    )
}

/// A grid after the first `n` blocks were replaced.
pub open spec fn replaced(
    data: Seq<u32>,
    width: int,
    blocks: Seq<VarblockInfo>,
    outs: Seq<Vec<u32>>,
    n: nat,
) -> Seq<u32>
    decreases n,
{
    if n == 0 {
        data
    } else {
        let v = blocks[n - 1];
        rect_put(
            replaced(data, width, blocks, outs, (n - 1) as nat),
            width,
            v.shifted_bx * 8,
            v.shifted_by * 8,
            v.dct_select.size().0 * 8,
            v.dct_select.size().1 * 8,
            outs[n - 1]@,
        )
    }
}

/// Low frequencies of a block, where there are any.
pub open spec fn lf_part(lf: Option<SharedSubgrid<u32>>, v: VarblockInfo) -> Seq<u32> {
    match lf {
        Some(lf) => lf_values(lf, v),
        None => Seq::empty(),
    }
}

/// The kernel's input for a block.
pub open spec fn is_plane_job(
    job: PlaneJob,
    channel: int,
    v: VarblockInfo,
    values: Seq<u32>,
    lf: Seq<u32>,
) -> bool {
    &&& job.channel == channel
    &&& job.dct_select == v.dct_select
    &&& job.hf_mul == v.hf_mul
    &&& job.values@ == values
    &&& job.lf@ == lf
}

/// The kernel may make these values of a block.
pub open spec fn plane_block_made<K: Fn(&PlaneJob) -> Vec<u32>>(
    kernel: K,
    channel: int,
    v: VarblockInfo,
    values: Seq<u32>,
    lf: Seq<u32>,
    out: Vec<u32>,
) -> bool {
    exists|job: PlaneJob| #[trigger]
        is_plane_job(job, channel, v, values, lf) && call_ensures(kernel, (&job,), out)
}

/// The grid after every block was replaced by what the kernel makes of it.
pub open spec fn plane_done<K: Fn(&PlaneJob) -> Vec<u32>>(
    kernel: K,
    channel: int,
    blocks: Seq<VarblockInfo>,
    lf: Option<SharedSubgrid<u32>>,
    width: int,
    before: Seq<u32>,
    after: Seq<u32>,
) -> bool {
    exists|outs: Seq<Vec<u32>>|
        {
            &&& #[trigger] outs.len() == blocks.len()
            &&& forall|i: int|
                0 <= i < blocks.len() ==> plane_block_made(
                    kernel,
                    channel,
                    blocks[i],
                    block_values(
                        replaced(before, width, blocks, outs, i as nat),
                        width,
                        blocks[i],
                    ),
                    lf_part(lf, blocks[i]),
                    #[trigger] outs[i],
                )
            &&& after == replaced(before, width, blocks, outs, blocks.len())
        }
}

/// What the kernel has to take and give.
pub open spec fn plane_kernel_ok<K: Fn(&PlaneJob) -> Vec<u32>>(kernel: K) -> bool {
    &&& forall|job: PlaneJob| #[trigger] call_requires(kernel, (&job,))
    &&& forall|job: PlaneJob, out: Vec<u32>|
        #[trigger] call_ensures(kernel, (&job,), out) ==> out@.len() == 64
            * job.dct_select.blocks()
}

/// The blocks lie within the grid, and low frequencies, where there are any, cover them.
pub open spec fn plane_holds(
    grid: Grid<u32>,
    blocks: Seq<VarblockInfo>,
    lf: Option<SharedSubgrid<u32>>,
) -> bool {
    &&& grid.wf()
    &&& lf is Some ==> lf->Some_0.wf()
    &&& forall|i: int|
        0 <= i < blocks.len() ==> block_held(grid, #[trigger] blocks[i], lf)
}

/// One block lies within the grid, and low frequencies, where there are any, cover it.
pub open spec fn block_held(
    grid: Grid<u32>,
    v: VarblockInfo,
    lf: Option<SharedSubgrid<u32>>,
) -> bool {
    let w = v.dct_select.size().0;
    let h = v.dct_select.size().1;
    &&& (v.shifted_bx + w) * 8 <= grid.width
    &&& (v.shifted_by + h) * 8 <= grid.height
    &&& lf is Some ==> v.shifted_bx + w <= lf->Some_0.width && v.shifted_by + h
        <= lf->Some_0.height
}

/// Earlier outputs decide what a grid holds.
proof fn lemma_same_replaced(
    data: Seq<u32>,
    width: int,
    blocks: Seq<VarblockInfo>,
    outs: Seq<Vec<u32>>,
    outs2: Seq<Vec<u32>>,
    n: nat,
)
    requires
        n <= outs.len() <= outs2.len(),
        forall|k: int| 0 <= k < outs.len() ==> outs[k] == outs2[k],
    ensures
        replaced(data, width, blocks, outs, n) == replaced(data, width, blocks, outs2, n),
        replaced(data, width, blocks, outs, n).len() == data.len(),
    decreases n,
{
    if n > 0 {
        lemma_same_replaced(data, width, blocks, outs, outs2, (n - 1) as nat);
    }
}

/// Replacing blocks keeps the number of pixels.
pub proof fn lemma_plane_len<K: Fn(&PlaneJob) -> Vec<u32>>(
    kernel: K,
    channel: int,
    blocks: Seq<VarblockInfo>,
    lf: Option<SharedSubgrid<u32>>,
    width: int,
    before: Seq<u32>,
    after: Seq<u32>,
)
    requires
        plane_done(kernel, channel, blocks, lf, width, before, after),
    ensures
        after.len() == before.len(),
{
    let outs = choose|outs: Seq<Vec<u32>>|
        #[trigger] outs.len() == blocks.len() && after == replaced(
            before,
            width,
            blocks,
            outs,
            blocks.len(),
        );
    lemma_same_replaced(before, width, blocks, outs, outs, blocks.len());
}

/// The values of a block.
fn read_block(grid: &Grid<u32>, v: VarblockInfo) -> (r: Vec<u32>)
    requires
        grid.wf(),
        block_held(*grid, v, None),
    ensures
        r@ == block_values(grid.data@, grid.width as int, v),
{
    let (w8, h8) = v.dct_select.dct_select_size();
    let w: usize = w8 as usize * 8;
    let h: usize = h8 as usize * 8;
    proof {
        lemma_sides(v.dct_select);
        let a = (v.shifted_by * 8 + h) as int;
        let s = grid.width as int;
        assert(a * s <= s * grid.height) by (nonlinear_arith)
            requires
                a <= grid.height,
                s >= 0,
        ;
    }
    get_rect(&grid.data, grid.width, v.shifted_bx * 8, v.shifted_by * 8, w, h)
}

/// Replaces every block of a channel by what the kernel makes of it.
fn run_blocks<K: Fn(&PlaneJob) -> Vec<u32>>(
    kernel: &K,
    channel: usize,
    blocks: &Vec<VarblockInfo>,
    lf: Option<&SharedSubgrid<'_, u32>>,
    grid: &mut Grid<u32>,
)
    requires
        plane_kernel_ok(*kernel),
        plane_holds(*old(grid), blocks@, opt_copy(lf)),
    ensures
        final(grid).wf(),
        final(grid).width == old(grid).width,
        final(grid).height == old(grid).height,
        plane_done(
            *kernel,
            channel as int,
            blocks@,
            opt_copy(lf),
            old(grid).width as int,
            old(grid).data@,
            final(grid).data@,
        ),
{
    let ghost start = *grid;
    let ghost before = grid.data@;
    let ghost width = grid.width as int;
    let ghost mut outs: Seq<Vec<u32>> = Seq::empty();
    let mut i: usize = 0;
    while i < blocks.len()
        invariant
            i <= blocks@.len(),
            plane_kernel_ok(*kernel),
            plane_holds(start, blocks@, opt_copy(lf)),
            grid.wf(),
            grid.width == start.width,
            grid.height == start.height,
            width == start.width,
            before == start.data@,
            outs.len() == i,
            forall|k: int|
                0 <= k < i ==> plane_block_made(
                    *kernel,
                    channel as int,
                    blocks@[k],
                    block_values(replaced(before, width, blocks@, outs, k as nat), width, blocks@[k]),
                    lf_part(opt_copy(lf), blocks@[k]),
                    #[trigger] outs[k],
                ),
            grid.data@ == replaced(before, width, blocks@, outs, i as nat),
        decreases blocks@.len() - i,
    {
        let v: VarblockInfo = blocks[i];
        assert(block_held(start, blocks@[i as int], opt_copy(lf)));
        proof {
            lemma_blocks(v.dct_select);
        }
        let values: Vec<u32> = read_block(grid, v);
        let lf_values: Vec<u32> = match lf {
            Some(lf) => lf_for(lf, v),
            None => Vec::new(),
        };
        assert(lf_values@ =~= lf_part(opt_copy(lf), v));
        let job: PlaneJob = PlaneJob {
            channel,
            dct_select: v.dct_select,
            hf_mul: v.hf_mul,
            values,
            lf: lf_values,
        };
        let out: Vec<u32> = kernel(&job);
        let ghost outs2 = outs.push(out);
        proof {
            assert(call_ensures(*kernel, (&job,), out));
            assert(is_plane_job(
                job,
                channel as int,
                v,
                block_values(grid.data@, width, v),
                lf_part(opt_copy(lf), v),
            ));
            lemma_same_replaced(before, width, blocks@, outs, outs2, i as nat);
        }
        put_pixels(grid, v, &out);
        proof {
            assert forall|k: int| 0 <= k < i + 1 implies plane_block_made(
                *kernel,
                channel as int,
                blocks@[k],
                block_values(replaced(before, width, blocks@, outs2, k as nat), width, blocks@[k]),
                lf_part(opt_copy(lf), blocks@[k]),
                #[trigger] outs2[k],
            ) by {
                lemma_same_replaced(before, width, blocks@, outs, outs2, k as nat);
                if k < i {
                    assert(outs2[k] == outs[k]);
                }
            }
            outs = outs2;
        }
        i = i + 1;
    }
    assert(outs.len() == blocks@.len());
}

/// An optional part of a grid by its value.
pub open spec fn opt_copy<'a>(lf: Option<&SharedSubgrid<'a, u32>>) -> Option<
    SharedSubgrid<'a, u32>,
> {
    match lf {
        Some(lf) => Some(*lf),
        None => None,
    }
}

/// The grids after every block of every channel was replaced.
pub open spec fn planes_done<K: Fn(&PlaneJob) -> Vec<u32>>(
    kernel: K,
    info: SharedSubgrid<BlockInfo>,
    shifts: Seq<ChannelShift>,
    lf: Seq<Option<SharedSubgrid<u32>>>,
    before: Seq<Grid<u32>>,
    after: Seq<Grid<u32>>,
) -> bool {
    &&& after.len() == before.len()
    &&& forall|c: int|
        0 <= c < 3 ==> {
            &&& (#[trigger] after[c]).width == before[c].width
            &&& after[c].height == before[c].height
            &&& plane_done(
                kernel,
                c,
                all_varblocks(info, shifts[c]),
                lf[c],
                before[c].width as int,
                before[c].data@,
                after[c].data@,
            )
        }
}

/// The grids hold the blocks of their channels.
pub open spec fn planes_hold(
    grids: Seq<Grid<u32>>,
    info: SharedSubgrid<BlockInfo>,
    shifts: Seq<ChannelShift>,
    lf: Seq<Option<SharedSubgrid<u32>>>,
) -> bool {
    &&& info.wf()
    &&& grids.len() == 3
    &&& shifts.len() == 3
    &&& lf.len() == 3
    &&& forall|c: int|
        0 <= c < 3 ==> plane_holds(#[trigger] grids[c], all_varblocks(info, shifts[c]), lf[c])
}

/// Dequantizes every block of a group, in place.
pub fn dequant_hf_varblock_grouped<K: Fn(&PlaneJob) -> Vec<u32>>(
    kernel: &K,
    block_info: &SharedSubgrid<'_, BlockInfo>,
    shifts: &[ChannelShift; 3],
    out: &mut Vec<Grid<u32>>,
)
    requires
        plane_kernel_ok(*kernel),
        planes_hold(old(out)@, *block_info, shifts@, seq![None, None, None]),
    ensures
        planes_done(
            *kernel,
            *block_info,
            shifts@,
            seq![None, None, None],
            old(out)@,
            final(out)@,
        ),
{
    let ghost before = out@;
    let ghost lf: Seq<Option<SharedSubgrid<u32>>> = seq![None, None, None];
    assert(plane_holds(before[0], all_varblocks(*block_info, shifts@[0]), lf[0]));
    assert(plane_holds(before[1], all_varblocks(*block_info, shifts@[1]), lf[1]));
    assert(plane_holds(before[2], all_varblocks(*block_info, shifts@[2]), lf[2]));
    let blocks: Vec<VarblockInfo> = for_each_varblocks(block_info, shifts[0]);
    run_blocks(kernel, 0, &blocks, None, &mut out[0]);
    let blocks: Vec<VarblockInfo> = for_each_varblocks(block_info, shifts[1]);
    run_blocks(kernel, 1, &blocks, None, &mut out[1]);
    let blocks: Vec<VarblockInfo> = for_each_varblocks(block_info, shifts[2]);
    run_blocks(kernel, 2, &blocks, None, &mut out[2]);
}

/// Low frequencies of three channels by their values.
pub open spec fn lf_options<'a>(lf: Seq<SharedSubgrid<'a, u32>>) -> Seq<
    Option<SharedSubgrid<'a, u32>>,
> {
    seq![Some(lf[0]), Some(lf[1]), Some(lf[2])]
}

/// Transforms every block of a group, in place, with its low frequencies.
pub fn transform_varblocks<K: Fn(&PlaneJob) -> Vec<u32>>(
    kernel: &K,
    lf: &Vec<SharedSubgrid<'_, u32>>,
    coeff_out: &mut Vec<Grid<u32>>,
    shifts: &[ChannelShift; 3],
    block_info: &SharedSubgrid<'_, BlockInfo>,
)
    requires
        plane_kernel_ok(*kernel),
        lf@.len() == 3,
        planes_hold(old(coeff_out)@, *block_info, shifts@, lf_options(lf@)),
    ensures
        planes_done(
            *kernel,
            *block_info,
            shifts@,
            lf_options(lf@),
            old(coeff_out)@,
            final(coeff_out)@,
        ),
{
    let ghost before = coeff_out@;
    let ghost parts = lf_options(lf@);
    assert(plane_holds(before[0], all_varblocks(*block_info, shifts@[0]), parts[0]));
    assert(plane_holds(before[1], all_varblocks(*block_info, shifts@[1]), parts[1]));
    assert(plane_holds(before[2], all_varblocks(*block_info, shifts@[2]), parts[2]));
    let blocks: Vec<VarblockInfo> = for_each_varblocks(block_info, shifts[0]);
    run_blocks(kernel, 0, &blocks, Some(&lf[0]), &mut coeff_out[0]);
    let blocks: Vec<VarblockInfo> = for_each_varblocks(block_info, shifts[1]);
    run_blocks(kernel, 1, &blocks, Some(&lf[1]), &mut coeff_out[1]);
    let blocks: Vec<VarblockInfo> = for_each_varblocks(block_info, shifts[2]);
    run_blocks(kernel, 2, &blocks, Some(&lf[2]), &mut coeff_out[2]);
}

/// What is known of the blocks of a group.
pub enum GroupBlocks<'a> {
    /// The group it belongs to was not decoded.
    Missing,
    /// There are low frequencies only.
    LfOnly,
    /// There are blocks.
    Blocks(SharedSubgrid<'a, BlockInfo>),
}

/// Every pixel has the low frequency of its block.
pub open spec fn filled_from_lf(
    lf: Seq<SharedSubgrid<u32>>,
    before: Seq<Grid<u32>>,
    after: Seq<Grid<u32>>,
) -> bool {
    &&& after.len() == before.len()
    &&& forall|c: int|
        0 <= c < 3 ==> {
            &&& (#[trigger] after[c]).width == before[c].width
            &&& after[c].height == before[c].height
            &&& after[c].wf()
            &&& lf_everywhere(lf[c], after[c])
        }
}

/// Every pixel of a channel has the low frequency of its block.
pub open spec fn lf_everywhere(lf: SharedSubgrid<u32>, grid: Grid<u32>) -> bool {
    forall|x: int, y: int|
        #![trigger grid.at(x, y)]
        0 <= x < grid.width && 0 <= y < grid.height ==> grid.at(x, y) == lf.at(x / 8, y / 8)
}

/// Low frequencies cover the grids.
pub open spec fn lf_covers(lf: Seq<SharedSubgrid<u32>>, grids: Seq<Grid<u32>>) -> bool {
    &&& lf.len() == 3
    &&& grids.len() == 3
    &&& forall|c: int|
        0 <= c < 3 ==> {
            &&& (#[trigger] grids[c]).wf()
            &&& lf[c].wf()
            &&& grids[c].width <= 8 * lf[c].width
            &&& grids[c].height <= 8 * lf[c].height
        }
}

/// Transforms a group with its low frequencies: without blocks every pixel takes the low frequency
/// of its block; a group that belongs to none that was decoded stays as it is.
pub fn transform_with_lf_grouped<K: Fn(&PlaneJob) -> Vec<u32>>(
    kernel: &K,
    lf: &Vec<SharedSubgrid<'_, u32>>,
    coeff_out: &mut Vec<Grid<u32>>,
    shifts: &[ChannelShift; 3],
    blocks: &GroupBlocks<'_>,
)
    requires
        plane_kernel_ok(*kernel),
        lf@.len() == 3,
        blocks is LfOnly ==> lf_covers(lf@, old(coeff_out)@),
        blocks is Blocks ==> planes_hold(
            old(coeff_out)@,
            blocks->Blocks_0,
            shifts@,
            lf_options(lf@),
        ),
    ensures
        blocks is Missing ==> final(coeff_out)@ == old(coeff_out)@,
        blocks is LfOnly ==> filled_from_lf(lf@, old(coeff_out)@, final(coeff_out)@),
        blocks is Blocks ==> planes_done(
            *kernel,
            blocks->Blocks_0,
            shifts@,
            lf_options(lf@),
            old(coeff_out)@,
            final(coeff_out)@,
        ),
{
    match blocks {
        GroupBlocks::Missing => {},
        GroupBlocks::LfOnly => {
            let ghost before = coeff_out@;
            assert(before[0].wf() && before[1].wf() && before[2].wf());
            fill_from_lf(&mut coeff_out[0], &lf[0]);
            fill_from_lf(&mut coeff_out[1], &lf[1]);
            fill_from_lf(&mut coeff_out[2], &lf[2]);
        },
        GroupBlocks::Blocks(info) => {
            transform_varblocks(kernel, lf, coeff_out, shifts, info);
        },
    }
}

// ---- one block of three channels ----
/// The kernel's input for a block whose coefficients are at hand.
pub open spec fn is_direct_job(
    job: BlockJob,
    coeffs: Seq<Vec<i32>>,
    lf: Seq<SharedSubgrid<u32>>,
    x_from_y: SharedSubgrid<i32>,
    b_from_y: SharedSubgrid<i32>,
    v: VarblockInfo,
) -> bool {
    &&& job.bx == v.shifted_bx
    &&& job.by == v.shifted_by
    &&& job.dct_select == v.dct_select
    &&& job.hf_mul == v.hf_mul
    &&& job.coeffs@.len() == 3
    &&& forall|c: int| 0 <= c < 3 ==> (#[trigger] job.coeffs@[c])@ == coeffs[c]@
    &&& job.x_from_y@ == row_factors(x_from_y, v)
    &&& job.b_from_y@ == row_factors(b_from_y, v)
    &&& job.lf@.len() == 3
    &&& forall|c: int| 0 <= c < 3 ==> (#[trigger] job.lf@[c])@ == lf_values(lf[c], v)
}

/// The grids after the block's pixels were put into them.
pub open spec fn direct_block_put(
    v: VarblockInfo,
    pixels: Pixels,
    before: Seq<Grid<u32>>,
    after: Seq<Grid<u32>>,
) -> bool {
    &&& after.len() == before.len()
    &&& forall|c: int|
        0 <= c < 3 ==> {
            &&& (#[trigger] after[c]).width == before[c].width
            &&& after[c].height == before[c].height
            &&& after[c].data@ == rect_put(
                before[c].data@,
                before[c].width as int,
                v.shifted_bx * 8,
                v.shifted_by * 8,
                v.dct_select.size().0 * 8,
                v.dct_select.size().1 * 8,
                pixels@[c]@,
            )
        }
}

/// Low frequencies and factors cover the block, and the grids hold it.
pub open spec fn direct_block_fits(
    lf: Seq<SharedSubgrid<u32>>,
    x_from_y: SharedSubgrid<i32>,
    b_from_y: SharedSubgrid<i32>,
    v: VarblockInfo,
    grids: Seq<Grid<u32>>,
) -> bool {
    let h = v.dct_select.size().1;
    &&& lf.len() == 3
    &&& grids.len() == 3
    &&& forall|c: int|
        0 <= c < 3 ==> (#[trigger] grids[c]).wf() && lf[c].wf() && block_held(
            grids[c],
            v,
            Some(lf[c]),
        )
    &&& x_from_y.wf()
    &&& b_from_y.wf()
    &&& (v.shifted_bx * 8) / 64 < x_from_y.width
    &&& (v.shifted_by * 8 + 8 * h - 1) / 64 < x_from_y.height
    &&& (v.shifted_bx * 8) / 64 < b_from_y.width
    &&& (v.shifted_by * 8 + 8 * h - 1) / 64 < b_from_y.height
}

/// Hands a block to the kernel as soon as its coefficients were read, and puts its pixels into
/// the grids.
pub fn dequant_cfl_direct_transform_block<K: Fn(&BlockJob) -> Pixels>(
    kernel: &K,
    coeffs: Vec<Vec<i32>>,
    out: &mut Vec<Grid<u32>>,
    lf: &Vec<SharedSubgrid<'_, u32>>,
    v: VarblockInfo,
    x_from_y: &SharedSubgrid<'_, i32>,
    b_from_y: &SharedSubgrid<'_, i32>,
)
    requires
        block_kernel_ok(*kernel),
        coeffs@.len() == 3,
        direct_block_fits(lf@, *x_from_y, *b_from_y, v, old(out)@),
    ensures
        exists|job: BlockJob, pixels: Pixels|
            {
                &&& #[trigger] call_ensures(*kernel, (&job,), pixels)
                &&& is_direct_job(job, coeffs@, lf@, *x_from_y, *b_from_y, v)
                &&& direct_block_put(v, pixels, old(out)@, final(out)@)
            },
{
    let ghost before = out@;
    let ghost given = coeffs@;
    proof {
        lemma_blocks(v.dct_select);
        assert(before[0].wf() && before[1].wf() && before[2].wf());
    }
    let mut lf_blocks: Vec<Vec<u32>> = Vec::new();
    lf_blocks.push(lf_for(&lf[0], v));
    lf_blocks.push(lf_for(&lf[1], v));
    lf_blocks.push(lf_for(&lf[2], v));
    let job: BlockJob = BlockJob {
        bx: v.shifted_bx,
        by: v.shifted_by,
        dct_select: v.dct_select,
        hf_mul: v.hf_mul,
        coeffs,
        x_from_y: factors_for(x_from_y, v),
        b_from_y: factors_for(b_from_y, v),
        lf: lf_blocks,
    };
    let pixels: Pixels = kernel(&job);
    proof {
        assert(call_ensures(*kernel, (&job,), pixels));
        assert(is_direct_job(job, given, lf@, *x_from_y, *b_from_y, v));
        assert(pixels_ok(pixels, v.dct_select));
    }
    put_pixels(&mut out[0], v, &pixels[0]);
    put_pixels(&mut out[1], v, &pixels[1]);
    put_pixels(&mut out[2], v, &pixels[2]);
    assert(direct_block_put(v, pixels, before, out@));
}

} // verus!
