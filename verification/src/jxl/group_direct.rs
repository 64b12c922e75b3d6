//! Decoding the one pass of a group block by block, each of which is rendered at once.
use crate::jxl::block::{lemma_blocks, lemma_no_subsampling};
use crate::jxl::compact::{block_of, block_views, whole_blocks, HfBlock, HfBlockModel};
use crate::jxl::dequant::{block_kernel_ok, grid_after, lemma_same_grid, BlockJob, Pixels};
use crate::jxl::error::VardctError;
use crate::jxl::frame_error::Error;
use crate::jxl::grid::Grid;
use crate::jxl::group_task::{
    lemma_block_placed, lemma_one_info, lemma_one_params, GroupTask, PassData,
};
use crate::jxl::hf_coeff::{group_run, CellModel, HfCoeffParams};
use crate::jxl::hf_store::{decoded_cell_fits, lemma_group_fits};
use crate::jxl::pass_group::{decode_hf_coeff_direct, params_for, HfGlobal};
use crate::jxl::plane_blocks::{
    block_held, dequant_cfl_direct_transform_block, direct_block_fits, direct_block_put,
    is_direct_job,
};
use crate::jxl::symbols::SymbolSource;
use crate::jxl::varblocks::{all_varblocks, is_varblock, lemma_listed, VarblockInfo};
use vstd::prelude::*;

verus! {

/// A decoded block as a block of its channels.
pub open spec fn varblock_of(block: HfBlockModel) -> VarblockInfo {
    VarblockInfo {
        shifted_bx: block.x,
        shifted_by: block.y,
        dct_select: block.dct_select,
        hf_mul: block.hf_mul,
    }
}

pub open spec fn varblocks_of(blocks: Seq<HfBlockModel>) -> Seq<VarblockInfo> {
    Seq::new(blocks.len(), |i: int| varblock_of(blocks[i]))
}

/// The coefficients of a channel of a decoded block.
pub open spec fn channel_coeffs(block: HfBlockModel, c: int) -> Seq<i32> {
    let size = 64 * block.dct_select.blocks();
    block.coeffs.subrange(c * size, (c + 1) * size)
}

/// The kernel may make these pixels of a decoded block.
pub open spec fn direct_made<K: Fn(&BlockJob) -> Pixels>(
    kernel: K,
    task: GroupTask,
    block: HfBlockModel,
    pixels: Pixels,
) -> bool {
    exists|job: BlockJob, coeffs: Seq<Vec<i32>>|
        {
            &&& #[trigger] is_direct_job(
                job,
                coeffs,
                task.lf@,
                task.x_from_y,
                task.b_from_y,
                varblock_of(block),
            )
            &&& forall|c: int| 0 <= c < 3 ==> (#[trigger] coeffs[c])@ == channel_coeffs(block, c)
            &&& call_ensures(kernel, (&job,), pixels)
        }
}

/// The grids after the pixels of decoded blocks were put into them.
pub open spec fn rendered_directly<K: Fn(&BlockJob) -> Pixels>(
    kernel: K,
    task: GroupTask,
    blocks: Seq<HfBlockModel>,
    before: Seq<Grid<u32>>,
    after: Seq<Grid<u32>>,
) -> bool {
    &&& after.len() == before.len()
    &&& forall|c: int|
        0 <= c < 3 ==> (#[trigger] after[c]).width == before[c].width && after[c].height
            == before[c].height
    &&& exists|outs: Seq<Pixels>|
        {
            &&& #[trigger] outs.len() == blocks.len()
            &&& forall|i: int|
                0 <= i < blocks.len() ==> direct_made(kernel, task, blocks[i], #[trigger] outs[i])
            &&& forall|c: int|
                0 <= c < 3 ==> (#[trigger] after[c]).data@ == grid_after(
                    before[c].data@,
                    before[c].width as int,
                    varblocks_of(blocks),
                    outs,
                    c,
                    blocks.len(),
                )
        }
}

/// A block of a group with its coefficients.
pub open spec fn block_placed(task: GroupTask, block: HfBlockModel) -> bool {
    &&& all_varblocks(task.info(), task.shift(0)).contains(varblock_of(block))
    &&& block.coeffs.len() == 3 * (64 * block.dct_select.blocks())
}

/// Every block that is decoded is one of the group.
proof fn lemma_whole_placed(task: GroupTask, p: HfCoeffParams, cells: Seq<CellModel>)
    requires
        p.block_info == task.info(),
        !task.subsampled(),
        forall|i: int| 0 <= i < cells.len() ==> decoded_cell_fits(p, #[trigger] cells[i]),
    ensures
        forall|i: int|
            0 <= i < whole_blocks(cells).len() ==> block_placed(
                task,
                #[trigger] whole_blocks(cells)[i],
            ),
    decreases cells.len(),
{
    if cells.len() > 0 {
        let rest = cells.drop_last();
        assert forall|i: int| 0 <= i < rest.len() implies decoded_cell_fits(
            p,
            #[trigger] rest[i],
        ) by {
            assert(rest[i] == cells[i]);
        }
        lemma_whole_placed(task, p, rest);
        let cell = cells.last();
        assert(decoded_cell_fits(p, cells[cells.len() - 1]));
        let v = varblock_of(block_of(cell));
        lemma_no_subsampling(task.frame_header.jpeg_upsampling@, 0);
        assert(is_varblock(task.info(), task.shift(0), cell.x as int, cell.y as int, v));
        lemma_listed(task.info(), task.shift(0), 0, 0, cell.x as int, cell.y as int, v);
        lemma_blocks(cell.dct_select);
        assert(block_placed(task, block_of(cell)));
        assert forall|i: int| 0 <= i < whole_blocks(cells).len() implies block_placed(
            task,
            #[trigger] whole_blocks(cells)[i],
        ) by {
            if i < whole_blocks(rest).len() {
                assert(whole_blocks(cells)[i] == whole_blocks(rest)[i]);
            }
        }
    }
}

/// Hands decoded blocks to the kernel, and puts their pixels into the grids.
fn render_blocks<K: Fn(&BlockJob) -> Pixels>(
    kernel: &K,
    task: &GroupTask<'_>,
    blocks: &Vec<HfBlock>,
    out: &mut Vec<Grid<u32>>,
)
    requires
        block_kernel_ok(*kernel),
        task.renderable(old(out)@),
        task.has_hf(),
        !task.subsampled(),
        task.info().width <= 128,
        task.info().height <= 128,
        forall|i: int| 0 <= i < blocks@.len() ==> block_placed(*task, (#[trigger] blocks@[i])@),
    ensures
        rendered_directly(*kernel, *task, block_views(blocks@), old(out)@, final(out)@),
{
    let ghost before = out@;
    let ghost views = block_views(blocks@);
    let ghost list = varblocks_of(views);
    let ghost mut outs: Seq<Pixels> = Seq::empty();
    let mut i: usize = 0;
    while i < blocks.len()
        invariant
            i <= blocks@.len(),
            views == block_views(blocks@),
            list == varblocks_of(views),
            block_kernel_ok(*kernel),
            task.renderable(before),
            task.has_hf(),
            !task.subsampled(),
            task.info().width <= 128,
            task.info().height <= 128,
            forall|i: int|
                0 <= i < blocks@.len() ==> block_placed(*task, (#[trigger] blocks@[i])@),
            outs.len() == i,
            out@.len() == before.len(),
            forall|c: int|
                0 <= c < 3 ==> (#[trigger] out@[c]).width == before[c].width && out@[c].height
                    == before[c].height,
            forall|k: int|
                0 <= k < i ==> direct_made(*kernel, *task, views[k], #[trigger] outs[k]),
            forall|c: int|
                0 <= c < 3 ==> (#[trigger] out@[c]).data@ == grid_after(
                    before[c].data@,
                    before[c].width as int,
                    list,
                    outs,
                    c,
                    i as nat,
                ),
        decreases blocks@.len() - i,
    {
        let block: &HfBlock = &blocks[i];
        let v = VarblockInfo {
            shifted_bx: block.x,
            shifted_by: block.y,
            dct_select: block.dct_select,
            hf_mul: block.hf_mul,
        };
        let ghost mid = out@;
        proof {
            assert(block_placed(*task, blocks@[i as int]@));
            assert(v == varblock_of(block@));
            assert(list[i as int] == v);
            lemma_block_placed(*task, before, v);
            lemma_fits_again(*task, before, mid, v, list, outs, i as nat);
        }
        let mut coeffs: Vec<Vec<i32>> = Vec::new();
        coeffs.push(vstd::slice::slice_to_vec(block.channel(0)));
        coeffs.push(vstd::slice::slice_to_vec(block.channel(1)));
        coeffs.push(vstd::slice::slice_to_vec(block.channel(2)));
        let ghost given = coeffs@;
        dequant_cfl_direct_transform_block(
            kernel,
            coeffs,
            out,
            &task.lf,
            v,
            &task.x_from_y,
            &task.b_from_y,
        );
        proof {
            let (job, pixels) = choose|job: BlockJob, pixels: Pixels|
                {
                    &&& #[trigger] call_ensures(*kernel, (&job,), pixels)
                    &&& is_direct_job(job, given, task.lf@, task.x_from_y, task.b_from_y, v)
                    &&& direct_block_put(v, pixels, mid, out@)
                };
            assert forall|c: int| 0 <= c < 3 implies (#[trigger] given[c])@ == channel_coeffs(
                views[i as int],
                c,
            ) by {
                assert(c == 0 || c == 1 || c == 2);
            }
            assert(direct_made(*kernel, *task, views[i as int], pixels));
            let outs2 = outs.push(pixels);
            assert forall|c: int| 0 <= c < 3 implies (#[trigger] out@[c]).data@ == grid_after(
                before[c].data@,
                before[c].width as int,
                list,
                outs2,
                c,
                (i + 1) as nat,
            ) by {
                lemma_same_grid(
                    before[c].data@,
                    before[c].width as int,
                    list,
                    outs,
                    outs2,
                    c,
                    i as nat,
                );
                assert(mid[c].width == before[c].width);
            }
            assert forall|k: int| 0 <= k < i + 1 implies direct_made(
                *kernel,
                *task,
                views[k],
                #[trigger] outs2[k],
            ) by {
                if k < i {
                    assert(outs2[k] == outs[k]);
                }
            }
            outs = outs2;
        }
        i = i + 1;
    }
    assert(outs.len() == views.len());
}

/// Putting pixels into the grids leaves the places of the blocks as they are.
proof fn lemma_fits_again(
    task: GroupTask,
    before: Seq<Grid<u32>>,
    mid: Seq<Grid<u32>>,
    v: VarblockInfo,
    list: Seq<VarblockInfo>,
    outs: Seq<Pixels>,
    n: nat,
)
    requires
        direct_block_fits(task.lf@, task.x_from_y, task.b_from_y, v, before),
        mid.len() == before.len(),
        n == outs.len(),
        forall|c: int|
            0 <= c < 3 ==> (#[trigger] mid[c]).width == before[c].width && mid[c].height
                == before[c].height && mid[c].data@ == grid_after(
                before[c].data@,
                before[c].width as int,
                list,
                outs,
                c,
                n,
            ),
    ensures
        direct_block_fits(task.lf@, task.x_from_y, task.b_from_y, v, mid),
{
    assert forall|c: int| 0 <= c < 3 implies (#[trigger] mid[c]).wf() && task.lf@[c].wf()
        && block_held(mid[c], v, Some(task.lf@[c])) by {
        assert(before[c].wf());
        lemma_same_grid(before[c].data@, before[c].width as int, list, outs, outs, c, n);
    }
}

/// How decoding a pass without a modular-coded image ends.
pub open spec fn direct_failure(
    coeffs: Result<(), VardctError>,
) -> Option<Error> {
    match coeffs {
        Ok(_) => None,
        Err(e) => Some(Error::VarDct(e)),
    }
}

/// Decodes the one pass of a group, and renders every block that is complete.
pub(crate) fn render_direct<R: SymbolSource, K: Fn(&BlockJob) -> Pixels>(
    kernel: &K,
    task: &GroupTask<'_>,
    hf_global: &HfGlobal,
    data: PassData<R>,
    out: &mut Vec<Grid<u32>>,
) -> (r: Option<Error>)
    requires
        block_kernel_ok(*kernel),
        task.decodable(1),
        task.hf_global == Some(hf_global),
        task.renderable(old(out)@),
        task.has_hf(),
        !task.subsampled(),
        task.info().width <= 128,
        task.info().height <= 128,
    ensures
        ({
            let run = task.pass_run::<R>(0, data.bitstream.model());
            &&& r == direct_failure(run.0)
            &&& rendered_directly(
                *kernel,
                *task,
                whole_blocks(run.2),
                old(out)@,
                final(out)@,
            )
        }),
{
    let mut bitstream: R = data.bitstream;
    let mut blocks: Vec<HfBlock> = Vec::new();
    let ghost m = bitstream.model();
    proof {
        assert forall|p: HfCoeffParams| #[trigger]
            params_for(
                p,
                *task.frame_header,
                *task.lf_group,
                0,
                task.group_idx as int,
                *task.lf_vardct,
                *hf_global,
                task.tracker,
            ) implies p.wf() by {
            assert(task.is_params(p, 0));
        }
    }
    let ended = decode_hf_coeff_direct(
        &mut bitstream,
        task.frame_header,
        task.lf_group,
        0,
        task.group_idx,
        task.lf_vardct,
        hf_global,
        task.tracker,
        &mut blocks,
    );
    proof {
        let none: Seq<HfBlock> = Seq::empty();
        let p = choose|p: HfCoeffParams|
            {
                let run = group_run::<R>(p, m);
                &&& #[trigger] params_for(
                    p,
                    *task.frame_header,
                    *task.lf_group,
                    0,
                    task.group_idx as int,
                    *task.lf_vardct,
                    *hf_global,
                    task.tracker,
                )
                &&& ended == (match run.0 {
                    Ok(_) => Ok::<(), Error>(()),
                    Err(e) => Err(Error::VarDct(e)),
                })
                &&& block_views(blocks@) == block_views(none) + whole_blocks(run.2)
            };
        assert(task.is_params(p, 0));
        lemma_one_params(*task, p, 0);
        assert(task.is_info(p.block_info));
        lemma_one_info(*task, p.block_info);
        let run = group_run::<R>(p, m);
        assert(block_views(blocks@) =~= whole_blocks(run.2));
        lemma_group_fits::<R>(p, m);
        lemma_whole_placed(*task, p, run.2);
        assert forall|i: int| 0 <= i < blocks@.len() implies block_placed(
            *task,
            (#[trigger] blocks@[i])@,
        ) by {
            assert(block_views(blocks@)[i] == whole_blocks(run.2)[i]);
        }
    }
    render_blocks(kernel, task, &blocks, out);
    match ended {
        Ok(_) => None,
        Err(e) => Some(e),
    }
}

} // verus!
