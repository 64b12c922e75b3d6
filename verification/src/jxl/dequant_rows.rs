//! Dequantization row by row into the grids of a group, and the smaller steps around it.
use crate::jxl::block_transform::{put_rect, rect_put};
use crate::jxl::compact::CompactHfCoeffStore;
use crate::jxl::dequant::{grids_hold, GroupInput, Pixels};
use crate::jxl::grid::{lemma_flat, Grid, SharedSubgrid};
use crate::jxl::group_transform::lemma_sides;
use crate::jxl::varblocks::{
    for_each_varblocks, row_segments, segments_from, Segment, VarblockInfo, TILE,
};
use crate::jxl::plane_blocks::lf_everywhere;
use vstd::prelude::*;

verus! {

/// A part of a row of a block that lies in one tile.
#[derive(Debug, Clone, Copy)]
pub struct RowPlan {
    pub block: VarblockInfo,
    /// Row within the block.
    pub y: usize,
    pub segment: Segment,
}

pub open spec fn block_segments(v: VarblockInfo) -> Seq<Segment> {
    segments_from(v.shifted_bx * 8, v.dct_select.size().0 * 8, 0)
}

/// The parts of all rows of the blocks from part `s` of row `y` of block `i` on.
pub open spec fn plans_from(blocks: Seq<VarblockInfo>, i: int, y: int, s: int) -> Seq<RowPlan>
    decreases
            blocks.len() - i,
            (if 0 <= i < blocks.len() {
                blocks[i].dct_select.size().1 * 8 - y
            } else {
                0
            }),
            (if 0 <= i < blocks.len() {
                block_segments(blocks[i]).len() - s
            } else {
                0
            }),
{
    if i < 0 || i >= blocks.len() {
        Seq::empty()
    } else if y >= blocks[i].dct_select.size().1 * 8 {
        plans_from(blocks, i + 1, 0, 0)
    } else if s >= block_segments(blocks[i]).len() {
        plans_from(blocks, i, y + 1, 0)
    } else {
        seq![RowPlan { block: blocks[i], y: y as usize, segment: block_segments(blocks[i])[s] }]
            + plans_from(blocks, i, y, s + 1)
    }
}

/// A part of a row lies within its block and one tile.
pub open spec fn plan_fits(p: RowPlan) -> bool {
    let w = p.block.dct_select.size().0 * 8;
    &&& p.y < p.block.dct_select.size().1 * 8
    &&& p.segment.x + p.segment.len <= w
    &&& p.segment.len >= 1
    &&& p.segment.tile == (p.block.shifted_bx * 8 + p.segment.x) / 64
}

proof fn lemma_segments_fit(left: int, width: int, x: int)
    requires
        0 <= left,
        0 <= x,
        left + width <= usize::MAX,
    ensures
        forall|i: int|
            0 <= i < segments_from(left, width, x).len() ==> {
                let s = #[trigger] segments_from(left, width, x)[i];
                s.x + s.len <= width && s.len >= 1 && s.tile == (left + s.x) / 64
            },
    decreases width - x,
{
    if x < width {
        let end = crate::jxl::varblocks::segment_end(left, width, x);
        lemma_segments_fit(left, width, end);
        let list = segments_from(left, width, x);
        let rest = segments_from(left, width, end);
        assert forall|i: int| 0 <= i < list.len() implies {
            let s = #[trigger] list[i];
            s.x + s.len <= width && s.len >= 1 && s.tile == (left + s.x) / 64
        } by {
            if i > 0 {
                assert(list[i] == rest[i - 1]);
            }
        }
    }
}

/// The pixels of a block can be counted.
pub open spec fn reachable(v: VarblockInfo) -> bool {
    &&& (v.shifted_bx + v.dct_select.size().0) * 8 <= usize::MAX
    &&& (v.shifted_by + v.dct_select.size().1) * 8 <= usize::MAX
}

/// Lists the parts of all rows of the blocks.
fn list_plans(blocks: &Vec<VarblockInfo>) -> (r: Vec<RowPlan>)
    requires
        forall|i: int| 0 <= i < blocks@.len() ==> reachable(#[trigger] blocks@[i]),
    ensures
        r@ == plans_from(blocks@, 0, 0, 0),
        forall|k: int| 0 <= k < r@.len() ==> plan_fits(#[trigger] r@[k]),
        forall|k: int|
            0 <= k < r@.len() ==> exists|i: int|
                0 <= i < blocks@.len() && #[trigger] blocks@[i] == (#[trigger] r@[k]).block,
{
    let mut r: Vec<RowPlan> = Vec::new();
    let ghost goal = plans_from(blocks@, 0, 0, 0);
    assert(r@ + goal =~= goal);
    let mut i: usize = 0;
    while i < blocks.len()
        invariant
            i <= blocks@.len(),
            forall|k: int|
                0 <= k < blocks@.len() ==> reachable(#[trigger] blocks@[k]),
            r@ + plans_from(blocks@, i as int, 0, 0) == goal,
            forall|k: int| 0 <= k < r@.len() ==> plan_fits(#[trigger] r@[k]),
            forall|k: int|
                0 <= k < r@.len() ==> exists|j: int|
                    0 <= j < blocks@.len() && #[trigger] blocks@[j] == (#[trigger] r@[k]).block,
        decreases blocks@.len() - i,
    {
        let v: VarblockInfo = blocks[i];
        assert(reachable(blocks@[i as int]));
        let (w8, h8) = v.dct_select.dct_select_size();
        let segments: Vec<Segment> = row_segments(v.shifted_bx * 8, w8 as usize * 8);
        proof {
            lemma_segments_fit(v.shifted_bx * 8, v.dct_select.size().0 * 8, 0);
        }
        let rows: usize = h8 as usize * 8;
        let mut y: usize = 0;
        while y < rows
            invariant
                i < blocks@.len(),
                v == blocks@[i as int],
                y <= rows,
                rows == v.dct_select.size().1 * 8,
                segments@ == block_segments(v),
                forall|k: int|
                    0 <= k < segments@.len() ==> {
                        let s = #[trigger] segments@[k];
                        s.x + s.len <= v.dct_select.size().0 * 8 && s.len >= 1 && s.tile == (
                        v.shifted_bx * 8 + s.x) / 64
                    },
                r@ + plans_from(blocks@, i as int, y as int, 0) == goal,
                forall|k: int| 0 <= k < r@.len() ==> plan_fits(#[trigger] r@[k]),
                forall|k: int|
                    0 <= k < r@.len() ==> exists|j: int|
                        0 <= j < blocks@.len() && #[trigger] blocks@[j] == (#[trigger] r@[k]).block,
            decreases rows - y,
        {
            let mut s: usize = 0;
            while s < segments.len()
                invariant
                    i < blocks@.len(),
                    v == blocks@[i as int],
                    y < rows,
                    rows == v.dct_select.size().1 * 8,
                    s <= segments@.len(),
                    segments@ == block_segments(v),
                    forall|k: int|
                        0 <= k < segments@.len() ==> {
                            let s = #[trigger] segments@[k];
                            s.x + s.len <= v.dct_select.size().0 * 8 && s.len >= 1 && s.tile == (
                            v.shifted_bx * 8 + s.x) / 64
                        },
                    r@ + plans_from(blocks@, i as int, y as int, s as int) == goal,
                    forall|k: int| 0 <= k < r@.len() ==> plan_fits(#[trigger] r@[k]),
                    forall|k: int|
                        0 <= k < r@.len() ==> exists|j: int|
                            0 <= j < blocks@.len() && #[trigger] blocks@[j] == (
                            #[trigger] r@[k]).block,
                decreases segments@.len() - s,
            {
                let ghost before = r@;
                let ghost rest = plans_from(blocks@, i as int, y as int, s + 1);
                let plan = RowPlan { block: v, y, segment: segments[s] };
                r.push(plan);
                proof {
                    assert(segments@[s as int].len >= 1);
                    assert(before + (seq![plan] + rest) =~= r@ + rest);
                    assert forall|k: int| 0 <= k < r@.len() implies exists|j: int|
                        0 <= j < blocks@.len() && #[trigger] blocks@[j] == (
                        #[trigger] r@[k]).block by {
                        if k == before.len() {
                            assert(blocks@[i as int] == r@[k].block);
                        } else {
                            assert(r@[k] == before[k]);
                        }
                    }
                }
                s = s + 1;
            }
            y = y + 1;
        }
        i = i + 1;
    }
    assert(r@ + Seq::<RowPlan>::empty() =~= r@);
    r
}

/// What the kernel gets of a part of a row.
pub struct RowJob {
    pub plan: RowPlan,
    /// Coefficients of the three channels.
    pub coeffs: Vec<Vec<i32>>,
    /// Factors of chroma prediction.
    pub kx: i32,
    pub kb: i32,
}

/// Where the coefficients of a part of a row start among those of its block.
pub open spec fn row_start(p: RowPlan) -> int {
    p.y * (p.block.dct_select.size().0 * 8) + p.segment.x
}

pub open spec fn is_row_job(job: RowJob, input: GroupInput, p: RowPlan) -> bool {
    &&& job.plan == p
    &&& job.coeffs@.len() == 3
    &&& forall|c: int|
        0 <= c < 3 ==> (#[trigger] job.coeffs@[c])@ == input.store.channel(
            p.block.shifted_bx as int,
            p.block.shifted_by as int,
            c,
        ).subrange(row_start(p), row_start(p) + p.segment.len)
    &&& job.kx == input.x_from_y.at(
        p.segment.tile as int,
        (p.block.shifted_by * 8 + p.y) / 64,
    )
    &&& job.kb == input.b_from_y.at(
        p.segment.tile as int,
        (p.block.shifted_by * 8 + p.y) / 64,
    )
}

/// The tiles of all columns of a block have factors.
pub open spec fn tiles_exist(input: GroupInput, v: VarblockInfo) -> bool {
    let right = (v.shifted_bx * 8 + v.dct_select.size().0 * 8 - 1) / 64;
    right < input.x_from_y.width && right < input.b_from_y.width
}

fn make_row_job(input: &GroupInput<'_>, p: RowPlan) -> (job: RowJob)
    requires
        input.store.wf(),
        input.x_from_y.wf(),
        input.b_from_y.wf(),
        input.block_fits(p.block),
        tiles_exist(*input, p.block),
        plan_fits(p),
        reachable(p.block),
    ensures
        is_row_job(job, *input, p),
{
    let v: VarblockInfo = p.block;
    let (w8, h8) = v.dct_select.dct_select_size();
    let width: usize = w8 as usize * 8;
    let ghost t = v.dct_select;
    proof {
        lemma_sides(t);
        lemma_flat(p.segment.x + p.segment.len - 1, p.y as int, width as int, t.size().1 * 8);
        assert(width * (t.size().1 * 8) == 64 * t.blocks()) by (nonlinear_arith)
            requires
                width == t.size().0 * 8,
                t.blocks() == t.size().0 * t.size().1,
        ;
        assert(p.y * width >= 0) by (nonlinear_arith);
    }
    let start: usize = p.y * width + p.segment.x;
    let end: usize = start + p.segment.len;
    let x: &[i32] = input.store.get_channel(v.shifted_bx, v.shifted_by, 0);
    let y: &[i32] = input.store.get_channel(v.shifted_bx, v.shifted_by, 1);
    let b: &[i32] = input.store.get_channel(v.shifted_bx, v.shifted_by, 2);
    proof {
        lemma_channel_len(*input.store, v.shifted_bx as int, v.shifted_by as int, 0);
        lemma_channel_len(*input.store, v.shifted_bx as int, v.shifted_by as int, 1);
        lemma_channel_len(*input.store, v.shifted_bx as int, v.shifted_by as int, 2);
    }
    let mut coeffs: Vec<Vec<i32>> = Vec::new();
    coeffs.push(vstd::slice::slice_to_vec(vstd::slice::slice_subrange(x, start, end)));
    coeffs.push(vstd::slice::slice_to_vec(vstd::slice::slice_subrange(y, start, end)));
    coeffs.push(vstd::slice::slice_to_vec(vstd::slice::slice_subrange(b, start, end)));
    let tile_y: usize = (v.shifted_by * 8 + p.y) / TILE;
    RowJob {
        plan: p,
        coeffs,
        kx: input.x_from_y.get(p.segment.tile, tile_y),
        kb: input.b_from_y.get(p.segment.tile, tile_y),
    }
}

proof fn lemma_channel_len(store: CompactHfCoeffStore, bx: int, by: int, c: int)
    requires
        store.wf(),
        0 <= bx < store.grid_width,
        0 <= by < store.grid_height,
        0 <= c < 3,
        store.size(store.cell(bx, by)) != 0,
    ensures
        store.channel(bx, by, c).len() == store.size(store.cell(bx, by)),
{
    store.lemma_channel(bx, by, c);
}

pub open spec fn row_out_ok(o: Pixels, len: int) -> bool {
    &&& o@.len() == 3
    &&& forall|c: int| 0 <= c < 3 ==> (#[trigger] o@[c])@.len() == len
}

pub open spec fn row_kernel_ok<K: Fn(&RowJob) -> Pixels>(kernel: K) -> bool {
    &&& forall|job: RowJob| #[trigger] call_requires(kernel, (&job,))
    &&& forall|job: RowJob, o: Pixels|
        #[trigger] call_ensures(kernel, (&job,), o) ==> row_out_ok(o, job.plan.segment.len as int)
}

pub open spec fn row_made<K: Fn(&RowJob) -> Pixels>(
    kernel: K,
    input: GroupInput,
    p: RowPlan,
    o: Pixels,
) -> bool {
    exists|job: RowJob| #[trigger] is_row_job(job, input, p) && call_ensures(kernel, (&job,), o)
}

/// A grid after the first `n` parts of rows were put into it.
pub open spec fn rows_after(
    data: Seq<u32>,
    width: int,
    plans: Seq<RowPlan>,
    outs: Seq<Pixels>,
    c: int,
    n: nat,
) -> Seq<u32>
    decreases n,
{
    if n == 0 {
        data
    } else {
        let p = plans[n - 1];
        rect_put(
            rows_after(data, width, plans, outs, c, (n - 1) as nat),
            width,
            p.block.shifted_bx * 8 + p.segment.x,
            p.block.shifted_by * 8 + p.y,
            p.segment.len as int,
            1,
            outs[n - 1]@[c]@,
        )
    }
}

proof fn lemma_same_rows(
    data: Seq<u32>,
    width: int,
    plans: Seq<RowPlan>,
    outs: Seq<Pixels>,
    outs2: Seq<Pixels>,
    c: int,
    n: nat,
)
    requires
        n <= outs.len() <= outs2.len(),
        forall|k: int| 0 <= k < outs.len() ==> outs[k] == outs2[k],
    ensures
        rows_after(data, width, plans, outs, c, n) == rows_after(
            data,
            width,
            plans,
            outs2,
            c,
            n,
        ),
    decreases n,
{
    if n > 0 {
        lemma_same_rows(data, width, plans, outs, outs2, c, (n - 1) as nat);
    }
}

fn put_row(grid: &mut Grid<u32>, p: RowPlan, values: &Vec<u32>)
    requires
        old(grid).wf(),
        plan_fits(p),
        (p.block.shifted_bx + p.block.dct_select.size().0) * 8 <= old(grid).width,
        (p.block.shifted_by + p.block.dct_select.size().1) * 8 <= old(grid).height,
        values@.len() == p.segment.len,
    ensures
        final(grid).wf(),
        final(grid).width == old(grid).width,
        final(grid).height == old(grid).height,
        final(grid).data@ == rect_put(
            old(grid).data@,
            old(grid).width as int,
            p.block.shifted_bx * 8 + p.segment.x,
            p.block.shifted_by * 8 + p.y,
            p.segment.len as int,
            1,
            values@,
        ),
{
    proof {
        let a = (p.block.shifted_by * 8 + p.y + 1) as int;
        let s = grid.width as int;
        assert(a * s <= s * grid.height) by (nonlinear_arith)
            requires
                a <= grid.height,
                s >= 0,
        ;
    }
    put_rect(
        &mut grid.data,
        grid.width,
        p.block.shifted_bx * 8 + p.segment.x,
        p.block.shifted_by * 8 + p.y,
        p.segment.len,
        1,
        values,
    );
}

/// Hands every row of every block to the kernel, split where tiles meet, and puts the results
/// into the grids.
pub fn dequant_cfl_compact_to_strided<K: Fn(&RowJob) -> Pixels>(
    kernel: &K,
    input: &GroupInput<'_>,
    out: &mut Vec<Grid<u32>>,
)
    requires
        row_kernel_ok(*kernel),
        input.wf(),
        forall|i: int|
            0 <= i < input.blocks().len() ==> tiles_exist(*input, #[trigger] input.blocks()[i]),
        grids_hold(old(out)@, input.blocks()),
    ensures
        ({
            let plans = plans_from(input.blocks(), 0, 0, 0);
            &&& final(out)@.len() == 3
            &&& forall|c: int|
                0 <= c < 3 ==> (#[trigger] final(out)@[c]).width == old(out)@[c].width
                    && final(out)@[c].height == old(out)@[c].height
            &&& exists|outs: Seq<Pixels>|
                {
                    &&& #[trigger] outs.len() == plans.len()
                    &&& forall|i: int|
                        0 <= i < plans.len() ==> row_made(
                            *kernel,
                            *input,
                            plans[i],
                            #[trigger] outs[i],
                        )
                    &&& forall|c: int|
                        0 <= c < 3 ==> (#[trigger] final(out)@[c]).data@ == rows_after(
                            old(out)@[c].data@,
                            old(out)@[c].width as int,
                            plans,
                            outs,
                            c,
                            plans.len(),
                        )
                }
        }),
{
    let blocks: Vec<VarblockInfo> = for_each_varblocks(&input.block_info, input.shift);
    assert forall|i: int| 0 <= i < blocks@.len() implies reachable(#[trigger] blocks@[i]) by {
        let grid = out@[0];
        assert((blocks@[i].shifted_bx + blocks@[i].dct_select.size().0) * 8 <= grid.width);
    }
    let plans: Vec<RowPlan> = list_plans(&blocks);
    let ghost before = out@;
    let ghost mut outs: Seq<Pixels> = Seq::empty();
    let mut i: usize = 0;
    while i < plans.len()
        invariant
            i <= plans@.len(),
            blocks@ == input.blocks(),
            plans@ == plans_from(blocks@, 0, 0, 0),
            forall|k: int| 0 <= k < plans@.len() ==> plan_fits(#[trigger] plans@[k]),
            forall|k: int|
                0 <= k < plans@.len() ==> exists|j: int|
                    0 <= j < blocks@.len() && #[trigger] blocks@[j] == (
                    #[trigger] plans@[k]).block,
            row_kernel_ok(*kernel),
            input.wf(),
            forall|k: int|
                0 <= k < input.blocks().len() ==> tiles_exist(
                    *input,
                    #[trigger] input.blocks()[k],
                ),
            grids_hold(before, blocks@),
            outs.len() == i,
            out@.len() == 3,
            forall|c: int|
                0 <= c < 3 ==> (#[trigger] out@[c]).wf() && out@[c].width == before[c].width
                    && out@[c].height == before[c].height,
            forall|k: int|
                0 <= k < i ==> row_made(*kernel, *input, plans@[k], #[trigger] outs[k]),
            forall|c: int|
                0 <= c < 3 ==> (#[trigger] out@[c]).data@ == rows_after(
                    before[c].data@,
                    before[c].width as int,
                    plans@,
                    outs,
                    c,
                    i as nat,
                ),
        decreases plans@.len() - i,
    {
        let p: RowPlan = plans[i];
        proof {
            assert(plan_fits(plans@[i as int]));
            let j = choose|j: int|
                0 <= j < blocks@.len() && #[trigger] blocks@[j] == plans@[i as int].block;
            assert(input.block_fits(input.blocks()[j]));
            assert(tiles_exist(*input, input.blocks()[j]));
            assert(before[0].wf() && before[1].wf() && before[2].wf());
            assert(out@[0].wf() && out@[1].wf() && out@[2].wf());
            assert(blocks@[j] == p.block);
        }
        let job: RowJob = make_row_job(input, p);
        let row: Pixels = kernel(&job);
        let ghost mid = out@;
        let ghost outs2 = outs.push(row);
        proof {
            assert(call_ensures(*kernel, (&job,), row));
            assert(row_made(*kernel, *input, p, row));
            assert(row_out_ok(row, p.segment.len as int));
        }
        put_row(&mut out[0], p, &row[0]);
        put_row(&mut out[1], p, &row[1]);
        put_row(&mut out[2], p, &row[2]);
        proof {
            assert forall|c: int| 0 <= c < 3 implies (#[trigger] out@[c]).data@ == rows_after(
                before[c].data@,
                before[c].width as int,
                plans@,
                outs2,
                c,
                (i + 1) as nat,
            ) by {
                lemma_same_rows(
                    before[c].data@,
                    before[c].width as int,
                    plans@,
                    outs,
                    outs2,
                    c,
                    i as nat,
                );
                assert(mid[c].data@ == rows_after(
                    before[c].data@,
                    before[c].width as int,
                    plans@,
                    outs,
                    c,
                    i as nat,
                ));
            }
            assert forall|k: int| 0 <= k < i + 1 implies row_made(
                *kernel,
                *input,
                plans@[k],
                #[trigger] outs2[k],
            ) by {
                if k < i {
                    assert(outs2[k] == outs[k]);
                }
            }
            outs = outs2;
        }
        i = i + 1;
    }
    assert(outs.len() == plans@.len());
}

/// Fills a group that has low frequencies only: every pixel takes the value of its block.
pub fn fill_from_lf(out: &mut Grid<u32>, lf: &SharedSubgrid<'_, u32>)
    requires
        old(out).wf(),
        lf.wf(),
        old(out).width <= 8 * lf.width,
        old(out).height <= 8 * lf.height,
    ensures
        final(out).wf(),
        final(out).width == old(out).width,
        final(out).height == old(out).height,
        lf_everywhere(*lf, *final(out)),
        forall|x: int, y: int|
            #![trigger final(out).at(x, y)]
            0 <= x < old(out).width && 0 <= y < old(out).height ==> final(out).at(x, y) == lf.at(
                x / 8,
                y / 8,
            ),
{
    let width: usize = out.width;
    let height: usize = out.height;
    let mut data: Vec<u32> = Vec::new();
    let mut y: usize = 0;
    let mut x: usize = 0;
    while y < height
        invariant
            x <= width,
            y <= height,
            y == height ==> x == 0,
            lf.wf(),
            width <= 8 * lf.width,
            height <= 8 * lf.height,
            data@.len() == y * width + x,
            forall|i: int, j: int|
                #![trigger data@[j * width + i]]
                0 <= i < width && 0 <= j && (j < y || (j == y && i < x)) ==> data@[j * width + i]
                    == lf.at(i / 8, j / 8),
        decreases height - y, width - x,
    {
        if x >= width {
            assert((y + 1) * width == y * width + width) by (nonlinear_arith);
            x = 0;
            y = y + 1;
        } else {
            let ghost before = data@;
            data.push(lf.get(x / 8, y / 8));
            assert forall|i: int, j: int|
                #![trigger data@[j * width + i]]
                0 <= i < width && 0 <= j && (j < y || (j == y && i < x + 1)) implies data@[j
                * width + i] == lf.at(i / 8, j / 8) by {
                if j < y || i < x {
                    lemma_flat(i, j, width as int, y + 1);
                    assert(j * width + i < y * width + x) by {
                        if j < y {
                            assert(j * width + width <= y * width) by (nonlinear_arith)
                                requires
                                    j + 1 <= y,
                                    width >= 0,
                            ;
                        }
                    }
                    assert(before[j * width + i] == lf.at(i / 8, j / 8));
                }
            }
            x = x + 1;
        }
    }
    assert(y * width + x == width * height) by (nonlinear_arith)
        requires
            y == height,
            x == 0,
    ;
    out.data = data;
    assert forall|x: int, y: int|
        #![trigger out.at(x, y)]
        0 <= x < width && 0 <= y < height implies out.at(x, y) == lf.at(x / 8, y / 8) by {
        assert(data@[y * width + x] == lf.at(x / 8, y / 8));
    }
}

} // verus!
