//! Dequantization and transform of a group: which coefficients, factors and low frequencies each
//! block takes, and where its pixels go.
//!
//! The arithmetic of a block, a row or a tile is the caller's kernel. Floating-point values are
//! carried as their bits.
use crate::jxl::block::{lemma_blocks, BlockInfo, ChannelShift, TransformType};
use crate::jxl::block_transform::{put_rect, rect_put};
use crate::jxl::compact::CompactHfCoeffStore;
use crate::jxl::grid::{lemma_flat, Grid, SharedSubgrid};
use crate::jxl::group_transform::lemma_sides;
use crate::jxl::varblocks::{all_varblocks, for_each_varblocks, only_dct8, VarblockInfo, TILE};
use vstd::prelude::*;

verus! {

/// What the kernel gets of a block.
pub struct BlockJob {
    pub bx: usize,
    pub by: usize,
    pub dct_select: TransformType,
    pub hf_mul: i32,
    /// Coefficients of the three channels.
    pub coeffs: Vec<Vec<i32>>,
    /// Factors of chroma prediction for every row of pixels.
    pub x_from_y: Vec<i32>,
    pub b_from_y: Vec<i32>,
    /// Low frequencies of the three channels, one per cell of the block.
    pub lf: Vec<Vec<u32>>,
}

/// Factors for the rows of a block: those of the tile that the row meets at the block's left.
pub open spec fn row_factors(factors: SharedSubgrid<i32>, v: VarblockInfo) -> Seq<i32> {
    Seq::new(
        (8 * v.dct_select.size().1) as nat,
        |y: int| factors.at((v.shifted_bx * 8) / 64, (v.shifted_by * 8 + y) / 64),
    )
}

/// Low frequencies of the cells of a block.
pub open spec fn lf_values(lf: SharedSubgrid<u32>, v: VarblockInfo) -> Seq<u32> {
    Seq::new(
        v.dct_select.blocks() as nat,
        |p: int|
            lf.at(
                v.shifted_bx + p % v.dct_select.size().0,
                v.shifted_by + p / v.dct_select.size().0,
            ),
    )
}

/// Everything that a group takes its blocks from.
pub struct GroupInput<'a> {
    pub store: &'a CompactHfCoeffStore,
    pub block_info: SharedSubgrid<'a, BlockInfo>,
    pub shift: ChannelShift,
    /// Low frequencies of the three channels.
    pub lf: Vec<SharedSubgrid<'a, u32>>,
    pub x_from_y: SharedSubgrid<'a, i32>,
    pub b_from_y: SharedSubgrid<'a, i32>,
}

impl<'a> GroupInput<'a> {
    pub open spec fn blocks(&self) -> Seq<VarblockInfo> {
        all_varblocks(self.block_info, self.shift)
    }

    /// There are coefficients, low frequencies and factors for a block.
    pub open spec fn block_fits(&self, v: VarblockInfo) -> bool {
        let w = v.dct_select.size().0;
        let h = v.dct_select.size().1;
        &&& v.shifted_bx < self.store.grid_width
        &&& v.shifted_by < self.store.grid_height
        &&& self.store.size(self.store.cell(v.shifted_bx as int, v.shifted_by as int)) == 64
            * v.dct_select.blocks()
        &&& forall|c: int|
            0 <= c < 3 ==> v.shifted_bx + w <= (#[trigger] self.lf@[c]).width && v.shifted_by + h
                <= self.lf@[c].height
        &&& (v.shifted_bx * 8) / 64 < self.x_from_y.width
        &&& (v.shifted_by * 8 + 8 * h - 1) / 64 < self.x_from_y.height
        &&& (v.shifted_bx * 8) / 64 < self.b_from_y.width
        &&& (v.shifted_by * 8 + 8 * h - 1) / 64 < self.b_from_y.height
    }

    pub open spec fn wf(&self) -> bool {
        &&& self.store.wf()
        &&& self.block_info.wf()
        &&& self.lf@.len() == 3
        &&& forall|c: int| 0 <= c < 3 ==> (#[trigger] self.lf@[c]).wf()
        &&& self.x_from_y.wf()
        &&& self.b_from_y.wf()
        &&& forall|i: int|
            0 <= i < self.blocks().len() ==> self.block_fits(#[trigger] self.blocks()[i])
    }

    /// The kernel's input for a block.
    pub open spec fn is_job(&self, job: BlockJob, v: VarblockInfo) -> bool {
        &&& job.bx == v.shifted_bx
        &&& job.by == v.shifted_by
        &&& job.dct_select == v.dct_select
        &&& job.hf_mul == v.hf_mul
        &&& job.coeffs@.len() == 3
        &&& forall|c: int|
            0 <= c < 3 ==> (#[trigger] job.coeffs@[c])@ == self.store.channel(
                v.shifted_bx as int,
                v.shifted_by as int,
                c,
            )
        &&& job.x_from_y@ == row_factors(self.x_from_y, v)
        &&& job.b_from_y@ == row_factors(self.b_from_y, v)
        &&& job.lf@.len() == 3
        &&& forall|c: int| 0 <= c < 3 ==> (#[trigger] job.lf@[c])@ == lf_values(self.lf@[c], v)
    }
}

/// Pixels of the three channels of a block.
pub type Pixels = Vec<Vec<u32>>;

pub open spec fn pixels_ok(p: Pixels, t: TransformType) -> bool {
    &&& p@.len() == 3
    &&& forall|c: int| 0 <= c < 3 ==> (#[trigger] p@[c])@.len() == 64 * t.blocks()
}

/// What the kernel has to take and give.
pub open spec fn block_kernel_ok<K: Fn(&BlockJob) -> Pixels>(kernel: K) -> bool {
    &&& forall|job: BlockJob| #[trigger] call_requires(kernel, (&job,))
    &&& forall|job: BlockJob, p: Pixels|
        #[trigger] call_ensures(kernel, (&job,), p) ==> pixels_ok(p, job.dct_select)
}

/// The kernel may make these pixels of a block.
pub open spec fn block_made<K: Fn(&BlockJob) -> Pixels>(
    kernel: K,
    input: GroupInput,
    v: VarblockInfo,
    p: Pixels,
) -> bool {
    exists|job: BlockJob| #[trigger]
        input.is_job(job, v) && call_ensures(kernel, (&job,), p)
}

/// A grid after the pixels of the first `n` blocks were put into it.
pub open spec fn grid_after(
    data: Seq<u32>,
    width: int,
    blocks: Seq<VarblockInfo>,
    outs: Seq<Pixels>,
    c: int,
    n: nat,
) -> Seq<u32>
    decreases n,
{
    if n == 0 {
        data
    } else {
        let v = blocks[n - 1];
        rect_put(
            grid_after(data, width, blocks, outs, c, (n - 1) as nat),
            width,
            v.shifted_bx * 8,
            v.shifted_by * 8,
            v.dct_select.size().0 * 8,
            v.dct_select.size().1 * 8,
            outs[n - 1]@[c]@,
        )
    }
}

/// The blocks lie within the grids.
pub open spec fn grids_hold(grids: Seq<Grid<u32>>, blocks: Seq<VarblockInfo>) -> bool {
    &&& grids.len() == 3
    &&& forall|c: int| 0 <= c < 3 ==> (#[trigger] grids[c]).wf()
    &&& forall|c: int, i: int|
        #![trigger grids[c], blocks[i]]
        0 <= c < 3 && 0 <= i < blocks.len() ==> (blocks[i].shifted_bx
            + blocks[i].dct_select.size().0) * 8 <= grids[c].width && (blocks[i].shifted_by
            + blocks[i].dct_select.size().1) * 8 <= grids[c].height
}

/// The grids after the pixels of all blocks were put into them.
pub open spec fn group_rendered<K: Fn(&BlockJob) -> Pixels>(
    kernel: K,
    input: GroupInput,
    before: Seq<Grid<u32>>,
    after: Seq<Grid<u32>>,
) -> bool {
    let blocks = input.blocks();
    &&& after.len() == before.len()
    &&& forall|c: int|
        0 <= c < 3 ==> (#[trigger] after[c]).width == before[c].width && after[c].height
            == before[c].height
    &&& exists|outs: Seq<Pixels>|
        {
            &&& #[trigger] outs.len() == blocks.len()
            &&& forall|i: int|
                0 <= i < blocks.len() ==> block_made(kernel, input, blocks[i], #[trigger] outs[i])
            &&& forall|c: int|
                0 <= c < 3 ==> (#[trigger] after[c]).data@ == grid_after(
                    before[c].data@,
                    before[c].width as int,
                    blocks,
                    outs,
                    c,
                    blocks.len(),
                )
        }
}

pub fn factors_for(factors: &SharedSubgrid<'_, i32>, v: VarblockInfo) -> (r: Vec<i32>)
    requires
        factors.wf(),
        (v.shifted_bx + v.dct_select.size().0) * 8 <= usize::MAX,
        (v.shifted_by + v.dct_select.size().1) * 8 <= usize::MAX,
        (v.shifted_bx * 8) / 64 < factors.width,
        (v.shifted_by * 8 + 8 * v.dct_select.size().1 - 1) / 64 < factors.height,
    ensures
        r@ == row_factors(*factors, v),
{
    let (w, h) = v.dct_select.dct_select_size();
    let rows: usize = h as usize * 8;
    let tile_x: usize = v.shifted_bx * 8 / TILE;
    let mut r: Vec<i32> = Vec::new();
    let mut y: usize = 0;
    while y < rows
        invariant
            y <= rows,
            rows == 8 * v.dct_select.size().1,
            rows <= 256,
            factors.wf(),
            v.shifted_bx * 8 <= usize::MAX,
            v.shifted_by * 8 + rows <= usize::MAX,
            tile_x == (v.shifted_bx * 8) / 64,
            tile_x < factors.width,
            (v.shifted_by * 8 + rows - 1) / 64 < factors.height,
            r@.len() == y,
            forall|k: int| 0 <= k < y ==> #[trigger] r@[k] == row_factors(*factors, v)[k],
        decreases rows - y,
    {
        let tile_y: usize = (v.shifted_by * 8 + y) / TILE;
        r.push(factors.get(tile_x, tile_y));
        y = y + 1;
    }
    assert(r@ =~= row_factors(*factors, v));
    r
}

pub fn lf_for(lf: &SharedSubgrid<'_, u32>, v: VarblockInfo) -> (r: Vec<u32>)
    requires
        lf.wf(),
        v.shifted_bx + v.dct_select.size().0 <= lf.width,
        v.shifted_by + v.dct_select.size().1 <= lf.height,
    ensures
        r@ == lf_values(*lf, v),
{
    let (w, h) = v.dct_select.dct_select_size();
    let width: usize = w as usize;
    let height: usize = h as usize;
    let mut r: Vec<u32> = Vec::new();
    let mut x: usize = 0;
    let mut y: usize = 0;
    proof {
        lemma_sides(v.dct_select);
    }
    while y < height
        invariant
            x <= width,
            y <= height,
            y == height ==> x == 0,
            1 <= width <= 32,
            1 <= height <= 32,
            width == v.dct_select.size().0,
            height == v.dct_select.size().1,
            v.dct_select.blocks() == width * height,
            lf.wf(),
            v.shifted_bx + width <= lf.width,
            v.shifted_by + height <= lf.height,
            r@.len() == y * width + x,
            forall|k: int| 0 <= k < r@.len() ==> #[trigger] r@[k] == lf_values(*lf, v)[k],
        decreases height - y, width - x,
    {
        if x >= width {
            assert((y + 1) * width == y * width + width) by (nonlinear_arith);
            x = 0;
            y = y + 1;
        } else {
            proof {
                lemma_flat(x as int, y as int, width as int, height as int);
                crate::vp8::planes::lemma_row_col(y as int, x as int, width as int);
            }
            r.push(lf.get(v.shifted_bx + x, v.shifted_by + y));
            x = x + 1;
        }
    }
    assert(y * width + x == width * height) by (nonlinear_arith)
        requires
            y == height,
            x == 0,
    ;
    assert(r@ =~= lf_values(*lf, v));
    r
}

fn make_job(input: &GroupInput<'_>, v: VarblockInfo) -> (job: BlockJob)
    requires
        input.store.wf(),
        input.lf@.len() == 3,
        forall|c: int| 0 <= c < 3 ==> (#[trigger] input.lf@[c]).wf(),
        input.x_from_y.wf(),
        input.b_from_y.wf(),
        input.block_fits(v),
        (v.shifted_bx + v.dct_select.size().0) * 8 <= usize::MAX,
        (v.shifted_by + v.dct_select.size().1) * 8 <= usize::MAX,
    ensures
        input.is_job(job, v),
{
    proof {
        lemma_blocks(v.dct_select);
        assert(input.lf@[0].wf() && input.lf@[1].wf() && input.lf@[2].wf());
    }
    let mut coeffs: Vec<Vec<i32>> = Vec::new();
    coeffs.push(
        vstd::slice::slice_to_vec(input.store.get_channel(v.shifted_bx, v.shifted_by, 0)),
    );
    coeffs.push(
        vstd::slice::slice_to_vec(input.store.get_channel(v.shifted_bx, v.shifted_by, 1)),
    );
    coeffs.push(
        vstd::slice::slice_to_vec(input.store.get_channel(v.shifted_bx, v.shifted_by, 2)),
    );
    let mut lf: Vec<Vec<u32>> = Vec::new();
    lf.push(lf_for(&input.lf[0], v));
    lf.push(lf_for(&input.lf[1], v));
    lf.push(lf_for(&input.lf[2], v));
    BlockJob {
        bx: v.shifted_bx,
        by: v.shifted_by,
        dct_select: v.dct_select,
        hf_mul: v.hf_mul,
        coeffs,
        x_from_y: factors_for(&input.x_from_y, v),
        b_from_y: factors_for(&input.b_from_y, v),
        lf,
    }
}

/// Earlier outputs decide what a grid holds.
pub proof fn lemma_same_grid(
    data: Seq<u32>,
    width: int,
    blocks: Seq<VarblockInfo>,
    outs: Seq<Pixels>,
    outs2: Seq<Pixels>,
    c: int,
    n: nat,
)
    requires
        n <= outs.len() <= outs2.len(),
        forall|k: int| 0 <= k < outs.len() ==> outs[k] == outs2[k],
    ensures
        grid_after(data, width, blocks, outs, c, n) == grid_after(
            data,
            width,
            blocks,
            outs2,
            c,
            n,
        ),
        grid_after(data, width, blocks, outs, c, n).len() == data.len(),
    decreases n,
{
    if n > 0 {
        lemma_same_grid(data, width, blocks, outs, outs2, c, (n - 1) as nat);
    }
}

/// Puts the pixels of a block into a grid.
pub fn put_pixels(grid: &mut Grid<u32>, v: VarblockInfo, values: &Vec<u32>)
    requires
        old(grid).wf(),
        (v.shifted_bx + v.dct_select.size().0) * 8 <= old(grid).width,
        (v.shifted_by + v.dct_select.size().1) * 8 <= old(grid).height,
        values@.len() == 64 * v.dct_select.blocks(),
    ensures
        final(grid).wf(),
        final(grid).width == old(grid).width,
        final(grid).height == old(grid).height,
        final(grid).data@ == rect_put(
            old(grid).data@,
            old(grid).width as int,
            v.shifted_bx * 8,
            v.shifted_by * 8,
            v.dct_select.size().0 * 8,
            v.dct_select.size().1 * 8,
            values@,
        ),
{
    let (w8, h8) = v.dct_select.dct_select_size();
    let w: usize = w8 as usize * 8;
    let h: usize = h8 as usize * 8;
    proof {
        lemma_sides(v.dct_select);
        let a = (v.shifted_by * 8 + h) as int;
        let s = grid.width as int;
        assert(a * s <= s * grid.height) by (nonlinear_arith)
            requires
                a <= grid.height,
                s >= 0,
        ;
        assert(w * h == 64 * v.dct_select.blocks()) by (nonlinear_arith)
            requires
                w == v.dct_select.size().0 * 8,
                h == v.dct_select.size().1 * 8,
                v.dct_select.blocks() == v.dct_select.size().0 * v.dct_select.size().1,
        ;
    }
    put_rect(
        &mut grid.data,
        grid.width,
        v.shifted_bx * 8,
        v.shifted_by * 8,
        w,
        h,
        values,
    );
}

/// Hands every block of a group to the kernel and puts its pixels into the grids.
pub fn dequant_cfl_compact_transform_grouped<K: Fn(&BlockJob) -> Pixels>(
    kernel: &K,
    input: &GroupInput<'_>,
    out: &mut Vec<Grid<u32>>,
)
    requires
        block_kernel_ok(*kernel),
        input.wf(),
        grids_hold(old(out)@, input.blocks()),
    ensures
        group_rendered(*kernel, *input, old(out)@, final(out)@),
{
    let blocks: Vec<VarblockInfo> = for_each_varblocks(&input.block_info, input.shift);
    let ghost before = out@;
    let ghost mut outs: Seq<Pixels> = Seq::empty();
    let mut i: usize = 0;
    while i < blocks.len()
        invariant
            i <= blocks@.len(),
            blocks@ == input.blocks(),
            block_kernel_ok(*kernel),
            input.wf(),
            grids_hold(before, blocks@),
            outs.len() == i,
            out@.len() == 3,
            forall|c: int|
                0 <= c < 3 ==> (#[trigger] out@[c]).wf() && out@[c].width == before[c].width
                    && out@[c].height == before[c].height,
            forall|k: int|
                0 <= k < i ==> block_made(*kernel, *input, blocks@[k], #[trigger] outs[k]),
            forall|c: int|
                0 <= c < 3 ==> (#[trigger] out@[c]).data@ == grid_after(
                    before[c].data@,
                    before[c].width as int,
                    blocks@,
                    outs,
                    c,
                    i as nat,
                ),
        decreases blocks@.len() - i,
    {
        let v: VarblockInfo = blocks[i];
        assert(input.block_fits(input.blocks()[i as int]));
        proof {
            let grid = before[0];
            assert((blocks@[i as int].shifted_bx + v.dct_select.size().0) * 8 <= grid.width);
        }
        let job: BlockJob = make_job(input, v);
        let pixels: Pixels = kernel(&job);
        let ghost mid = out@;
        let ghost outs2 = outs.push(pixels);
        proof {
            assert(call_ensures(*kernel, (&job,), pixels));
            assert(block_made(*kernel, *input, v, pixels));
            assert(pixels_ok(pixels, v.dct_select));
            assert(before[0].wf() && before[1].wf() && before[2].wf());
            assert(mid[0].wf() && mid[1].wf() && mid[2].wf());
            assert(blocks@[i as int] == v);
        }
        put_pixels(&mut out[0], v, &pixels[0]);
        put_pixels(&mut out[1], v, &pixels[1]);
        put_pixels(&mut out[2], v, &pixels[2]);
        proof {
            assert forall|c: int| 0 <= c < 3 implies (#[trigger] out@[c]).data@ == grid_after(
                before[c].data@,
                before[c].width as int,
                blocks@,
                outs2,
                c,
                (i + 1) as nat,
            ) by {
                lemma_same_grid(
                    before[c].data@,
                    before[c].width as int,
                    blocks@,
                    outs,
                    outs2,
                    c,
                    i as nat,
                );
                assert(mid[c].data@ == grid_after(
                    before[c].data@,
                    before[c].width as int,
                    blocks@,
                    outs,
                    c,
                    i as nat,
                ));
            }
            assert forall|k: int| 0 <= k < i + 1 implies block_made(
                *kernel,
                *input,
                blocks@[k],
                #[trigger] outs2[k],
            ) by {
                if k < i {
                    assert(outs2[k] == outs[k]);
                }
            }
            outs = outs2;
        }
        i = i + 1;
    }
    assert(outs.len() == blocks@.len());
}

/// Like `dequant_cfl_compact_transform_grouped`, for groups of the smallest transform: every
/// block has one factor of each kind.
pub fn dequant_cfl_transform_compact_dct8_grouped<K: Fn(&BlockJob) -> Pixels>(
    kernel: &K,
    input: &GroupInput<'_>,
    out: &mut Vec<Grid<u32>>,
)
    requires
        block_kernel_ok(*kernel),
        input.wf(),
        only_dct8(input.block_info),
        grids_hold(old(out)@, input.blocks()),
    ensures
        group_rendered(*kernel, *input, old(out)@, final(out)@),
{
    dequant_cfl_compact_transform_grouped(kernel, input, out)
}

/// All rows of a block of the smallest transform have the same factor.
pub proof fn lemma_dct8_factor(factors: SharedSubgrid<i32>, v: VarblockInfo, y: int)
    requires
        v.dct_select == TransformType::Dct8,
        0 <= y < 8,
    ensures
        row_factors(factors, v).len() == 8,
        row_factors(factors, v)[y] == factors.at(
            (v.shifted_bx * 8) / 64,
            (v.shifted_by * 8) / 64,
        ),
{
}

} // verus!
