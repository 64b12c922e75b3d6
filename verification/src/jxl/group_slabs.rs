//! Decoding the passes of a group into slabs, and rendering the group from them.
use crate::jxl::block::{lemma_no_subsampling, BlockInfo, ChannelShift};
use crate::jxl::compact::{
    info_at, lemma_slab_size, slab_size, slabs_before, store_fits, CompactHfCoeffStore,
};
use crate::jxl::dequant::{
    block_kernel_ok, dequant_cfl_compact_transform_grouped,
    dequant_cfl_transform_compact_dct8_grouped, grids_hold, group_rendered, BlockJob, GroupInput,
    Pixels,
};
use crate::jxl::frame_error::Error;
use crate::jxl::grid::{lemma_flat, Grid, SharedSubgrid};
use crate::jxl::group_task::{
    last_failure, lemma_block_placed, lemma_one_info, lemma_one_params, lemma_stream_bound,
    modular_told, passes_added, GroupOutcome, GroupTask, PassData,
};
use crate::jxl::hf_coeff::{group_run, HfCoeffParams, HfUpdate};
use crate::jxl::hf_store::{added, all_updates, lemma_added_none};
use crate::jxl::pass_group::{
    decode_pass_group_compact, group_result, modular_task, params_for, HfGlobal, ModularTask,
    PassGroupParamsCompact, PassGroupParamsVardctCompact,
};
use crate::jxl::plane_blocks::{block_held, lf_options, plane_holds};
use crate::jxl::symbols::SymbolSource;
use crate::jxl::varblocks::{all_varblocks, only_dct8};
use vstd::prelude::*;

verus! {

/// Adding coefficients keeps the room for a group.
proof fn lemma_still_fits(p: HfCoeffParams, a: CompactHfCoeffStore, b: CompactHfCoeffStore)
    requires
        store_fits(p, a),
        b.cell_start == a.cell_start,
        b.cell_size == a.cell_size,
        b.grid_width == a.grid_width,
        b.grid_height == a.grid_height,
        b.data@.len() == a.data@.len(),
    ensures
        store_fits(p, b),
        b.slots() == a.slots(),
{
    assert forall|i: int| b.size(i) == a.size(i) && b.start(i) == a.start(i) by {}
    assert forall|i: int|
        0 <= i < b.cell_size@.len() && #[trigger] b.size(i) != 0 implies b.start(i) + 3 * b.size(i)
        <= b.data@.len() by {
        assert(a.size(i) != 0);
    }
    assert forall|i: int, j: int|
        #![trigger b.size(i), b.size(j)]
        0 <= i < j < b.cell_size@.len() && b.size(i) != 0 && b.size(j) != 0 implies b.start(i) + 3
        * b.size(i) <= b.start(j) by {
        assert(a.size(i) != 0 && a.size(j) != 0);
    }
    assert(b.wf());
    assert forall|x: int, y: int, c: int|
        #![trigger p.block_info.at(x, y), p.sx(c, x)]
        0 <= x < p.block_info.width && 0 <= y < p.block_info.height && 0 <= c < 3 && !p.skipped(
            c,
            x,
            y,
        ) implies (p.block_info.at(x, y) matches BlockInfo::Data { dct_select, .. } ==> p.sx(c, x)
        < b.grid_width && p.sy(c, y) < b.grid_height && b.size(b.cell(p.sx(c, x), p.sy(c, y)))
        >= 64 * dct_select.blocks()) by {
        assert(b.cell(p.sx(c, x), p.sy(c, y)) == a.cell(p.sx(c, x), p.sy(c, y)));
    }
    assert(b.slots() =~= a.slots());
}

/// Decodes the coefficients of all passes into slabs.
pub(crate) fn decode_into_store<R: SymbolSource>(
    task: &GroupTask<'_>,
    hf_global: &HfGlobal,
    passes: Vec<Option<PassData<R>>>,
    store: &mut CompactHfCoeffStore,
) -> (r: GroupOutcome)
    requires
        task.decodable(passes@.len() as int),
        task.hf_global == Some(hf_global),
        task.lf_group.hf_meta is Some,
        forall|p: HfCoeffParams, pass: int| #[trigger]
            task.is_params(p, pass) ==> store_fits(p, *old(store)),
    ensures
        r.failure == last_failure(*task, passes@, passes@.len()),
        r.modular@ == modular_told(*task, passes@, passes@.len()),
        final(store).cell_start == old(store).cell_start,
        final(store).cell_size == old(store).cell_size,
        final(store).grid_width == old(store).grid_width,
        final(store).grid_height == old(store).grid_height,
        final(store).data@ == passes_added(
            *task,
            passes@,
            old(store).slots(),
            old(store).data@,
            passes@.len(),
        ),
{
    let ghost given = passes@;
    let ghost start = *store;
    let count: usize = passes.len();
    let mut passes: Vec<Option<PassData<R>>> = passes;
    let mut failure: Option<Error> = None;
    let mut modular: Vec<Option<ModularTask>> = Vec::new();
    let mut pass: usize = 0;
    assert(given.skip(0) =~= given);
    while pass < count
        invariant
            pass <= count,
            count == given.len(),
            passes@ == given.skip(pass as int),
            task.decodable(count as int),
            task.hf_global == Some(hf_global),
            task.lf_group.hf_meta is Some,
            forall|p: HfCoeffParams, pass: int| #[trigger]
                task.is_params(p, pass) ==> store_fits(p, start),
            failure == last_failure(*task, given, pass as nat),
            modular@ == modular_told(*task, given, pass as nat),
            store.cell_start == start.cell_start,
            store.cell_size == start.cell_size,
            store.grid_width == start.grid_width,
            store.grid_height == start.grid_height,
            store.data@.len() == start.data@.len(),
            store.data@ == passes_added(*task, given, start.slots(), start.data@, pass as nat),
        decreases count - pass,
    {
        let entry: Option<PassData<R>> = passes.remove(0);
        let ghost shown = given[pass as int];
        let ghost before = *store;
        proof {
            assert(entry == shown);
            assert(passes@ =~= given.skip(pass + 1));
            lemma_stream_bound(
                *task.frame_header,
                pass as int,
                count as int,
                task.group_idx as int,
            );
        }
        match entry {
            None => {
                modular.push(None);
                proof {
                    lemma_added_none(store.data@, start.slots());
                }
            },
            Some(data) => {
                let mut bitstream: R = data.bitstream;
                proof {
                    assert forall|p: HfCoeffParams| #[trigger]
                        params_for(
                            p,
                            *task.frame_header,
                            *task.lf_group,
                            pass as int,
                            task.group_idx as int,
                            *task.lf_vardct,
                            *hf_global,
                            task.tracker,
                        ) implies p.wf() && store_fits(p, before) by {
                        assert(task.is_params(p, pass as int));
                        lemma_still_fits(p, start, before);
                    }
                }
                let r = decode_pass_group_compact(
                    &mut bitstream,
                    PassGroupParamsCompact {
                        frame_header: task.frame_header,
                        lf_group: task.lf_group,
                        pass_idx: pass as u32,
                        group_idx: task.group_idx,
                        modular: data.modular,
                        vardct: Some(
                            PassGroupParamsVardctCompact {
                                lf_vardct: task.lf_vardct,
                                hf_global,
                                hf_coeff_compact: &mut *store,
                            },
                        ),
                        allow_partial: data.partial,
                        tracker: task.tracker,
                    },
                );
                proof {
                    let p = choose|p: HfCoeffParams|
                        {
                            let run = group_run::<R>(p, data.bitstream.model());
                            &&& #[trigger] params_for(
                                p,
                                *task.frame_header,
                                *task.lf_group,
                                pass as int,
                                task.group_idx as int,
                                *task.lf_vardct,
                                *hf_global,
                                task.tracker,
                            )
                            &&& r == group_result(
                                run.0,
                                data.partial,
                                modular_task(
                                    data.modular,
                                    *task.frame_header,
                                    pass as int,
                                    task.group_idx as int,
                                    data.partial,
                                ),
                            )
                            &&& store.data@ == added(
                                before.data@,
                                all_updates(run.2),
                                before.slots(),
                            )
                        };
                    assert(task.is_params(p, pass as int));
                    lemma_one_params(*task, p, pass as int);
                    lemma_still_fits(p, start, before);
                }
                match r {
                    Ok(told) => {
                        modular.push(told);
                    },
                    Err(e) => {
                        modular.push(None);
                        if !data.partial {
                            failure = Some(e);
                        }
                    },
                }
            },
        }
        proof {
            assert(modular@ =~= modular_told(*task, given, (pass + 1) as nat));
        }
        pass = pass + 1;
    }
    GroupOutcome { failure, modular }
}

/// A group has at most 128 by 128 cells, so its slabs can be counted.
proof fn lemma_slabs_small(info: SharedSubgrid<BlockInfo>, i: int)
    requires
        0 <= i <= 16384,
    ensures
        0 <= slabs_before(info, i) <= i * 196608,
        slabs_before(info, i) <= u32::MAX,
    decreases i,
{
    if i > 0 {
        lemma_slabs_small(info, i - 1);
        lemma_slab_size(info_at(info, i - 1));
    }
}

/// A store made for the blocks of a group.
pub open spec fn made_for(store: CompactHfCoeffStore, info: SharedSubgrid<BlockInfo>) -> bool {
    &&& store.grid_width == info.width
    &&& store.grid_height == info.height
    &&& forall|i: int| 0 <= i < info.width * info.height ==> #[trigger] store.has_cell(info, i)
}

/// The slabs of the block at a cell.
pub proof fn lemma_made_cell(store: CompactHfCoeffStore, info: SharedSubgrid<BlockInfo>, x: int, y: int)
    requires
        made_for(store, info),
        0 <= x < info.width,
        0 <= y < info.height,
    ensures
        store.size(store.cell(x, y)) == slab_size(info.at(x, y)),
{
    lemma_flat(x, y, info.width as int, info.height as int);
    crate::vp8::planes::lemma_row_col(y, x, info.width as int);
    assert(store.has_cell(info, store.cell(x, y)));
}

/// Without subsampling a channel has the cells of the group.
proof fn lemma_plain_cells(p: HfCoeffParams, c: int, x: int, y: int)
    requires
        forall|k: int| 0 <= k < 3 ==> #[trigger] p.jpeg_upsampling@[k] == 0,
        0 <= c < 3,
    ensures
        p.sx(c, x) == x,
        p.sy(c, y) == y,
{
    lemma_no_subsampling(p.jpeg_upsampling@, c);
}

/// A store made for the blocks of a group has room for them.
pub proof fn lemma_made_fits(p: HfCoeffParams, store: CompactHfCoeffStore)
    requires
        store.wf(),
        made_for(store, p.block_info),
        forall|k: int| 0 <= k < 3 ==> #[trigger] p.jpeg_upsampling@[k] == 0,
    ensures
        store_fits(p, store),
{
    assert forall|x: int, y: int, c: int|
        #![trigger p.block_info.at(x, y), p.sx(c, x)]
        0 <= x < p.block_info.width && 0 <= y < p.block_info.height && 0 <= c < 3 && !p.skipped(
            c,
            x,
            y,
        ) implies (p.block_info.at(x, y) matches BlockInfo::Data { dct_select, .. } ==> p.sx(c, x)
        < store.grid_width && p.sy(c, y) < store.grid_height && store.size(
        store.cell(p.sx(c, x), p.sy(c, y)),
    ) >= 64 * dct_select.blocks()) by {
        lemma_plain_cells(p, c, x, y);
        lemma_made_cell(store, p.block_info, x, y);
    }
}

/// Makes room for the blocks of a group without subsampling.
pub(crate) fn make_store(task: &GroupTask<'_>, info: &SharedSubgrid<'_, BlockInfo>) -> (r: CompactHfCoeffStore)
    requires
        info.wf(),
        info.width <= 128,
        info.height <= 128,
        task.is_info(*info),
        !task.subsampled(),
    ensures
        r.wf(),
        made_for(r, *info),
        r.data@ == no_coefficients(*info),
        forall|p: HfCoeffParams, pass: int| #[trigger]
            task.is_params(p, pass) ==> store_fits(p, r),
{
    proof {
        let n = info.width * info.height;
        assert(0 <= n <= 16384) by (nonlinear_arith)
            requires
                0 <= info.width <= 128,
                0 <= info.height <= 128,
                n == info.width * info.height,
        ;
        assert forall|i: int| 0 <= i <= n implies #[trigger] slabs_before(*info, i)
            <= u32::MAX by {
            lemma_slabs_small(*info, i);
        }
        assert(slabs_before(*info, n) <= u32::MAX);
    }
    let r: CompactHfCoeffStore = CompactHfCoeffStore::new(info);
    proof {
        assert forall|p: HfCoeffParams, pass: int| #[trigger]
            task.is_params(p, pass) implies store_fits(p, r) by {
            assert(task.is_info(p.block_info));
            lemma_one_info(*task, p.block_info);
            lemma_one_info(*task, *info);
            lemma_made_fits(p, r);
        }
    }
    r
}

/// As many zeros as the blocks of a group have coefficients.
pub open spec fn no_coefficients(info: SharedSubgrid<BlockInfo>) -> Seq<i32> {
    Seq::new(slabs_before(info, info.width * info.height) as nat, |k: int| 0i32)
}

/// What a group without subsampling is rendered from once its passes were decoded.
pub open spec fn is_group_input<R: SymbolSource>(
    task: GroupTask,
    passes: Seq<Option<PassData<R>>>,
    input: GroupInput,
) -> bool {
    &&& made_for(*input.store, task.info())
    &&& input.store.data@ == passes_added(
        task,
        passes,
        input.store.slots(),
        no_coefficients(task.info()),
        passes.len(),
    )
    &&& input.block_info == task.info()
    &&& input.shift == task.shift(0)
    &&& input.lf@ == task.lf@
    &&& input.x_from_y == task.x_from_y
    &&& input.b_from_y == task.b_from_y
}

/// There is a place for every block of a group.
proof fn lemma_input_fits(task: GroupTask, grids: Seq<Grid<u32>>, input: GroupInput)
    requires
        task.renderable(grids),
        task.has_hf(),
        !task.subsampled(),
        task.info().wf(),
        task.info().width <= 128,
        task.info().height <= 128,
        input.store.wf(),
        made_for(*input.store, task.info()),
        input.block_info == task.info(),
        input.shift == task.shift(0),
        input.lf@ == task.lf@,
        input.x_from_y == task.x_from_y,
        input.b_from_y == task.b_from_y,
    ensures
        input.wf(),
        grids_hold(grids, input.blocks()),
{
    let info = task.info();
    let blocks = input.blocks();
    let shifts = task.shifts();
    let lf = lf_options(task.lf@);
    assert forall|c: int| 0 <= c < 3 implies (#[trigger] grids[c]).wf() && task.lf@[c].wf() by {
        assert(plane_holds(grids[c], all_varblocks(info, shifts[c]), lf[c]));
        assert(lf[c] == Some(task.lf@[c]));
    }
    assert forall|c: int| 0 <= c < 3 implies (#[trigger] input.lf@[c]).wf() by {
        assert(grids[c].wf());
    }
    assert forall|i: int| 0 <= i < blocks.len() implies input.block_fits(#[trigger] blocks[i]) by {
        let v = blocks[i];
        lemma_block_placed(task, grids, v);
        lemma_made_cell(*input.store, info, v.shifted_bx as int, v.shifted_by as int);
        assert forall|c: int| 0 <= c < 3 implies v.shifted_bx + v.dct_select.size().0 <= (
        #[trigger] input.lf@[c]).width && v.shifted_by + v.dct_select.size().1
            <= input.lf@[c].height by {
            assert(block_held(grids[c], v, Some(task.lf@[c])));
        }
    }
    assert forall|c: int, i: int|
        #![trigger grids[c], blocks[i]]
        0 <= c < 3 && 0 <= i < blocks.len() implies (blocks[i].shifted_bx
        + blocks[i].dct_select.size().0) * 8 <= grids[c].width && (blocks[i].shifted_by
        + blocks[i].dct_select.size().1) * 8 <= grids[c].height by {
        lemma_block_placed(task, grids, blocks[i]);
        assert(block_held(grids[c], blocks[i], Some(task.lf@[c])));
    }
}

fn same_part<'a, T: Copy>(part: &SharedSubgrid<'a, T>) -> (r: SharedSubgrid<'a, T>)
    ensures
        r == *part,
{
    SharedSubgrid {
        grid: part.grid,
        left: part.left,
        top: part.top,
        width: part.width,
        height: part.height,
    }
}

/// The group was rendered from the coefficients of all its passes.
pub open spec fn rendered_from_slabs<R: SymbolSource, K: Fn(&BlockJob) -> Pixels>(
    kernel: K,
    task: GroupTask,
    passes: Seq<Option<PassData<R>>>,
    before: Seq<Grid<u32>>,
    after: Seq<Grid<u32>>,
) -> bool {
    exists|input: GroupInput| #[trigger]
        is_group_input(task, passes, input) && group_rendered(kernel, input, before, after)
}

/// Renders a group from its slabs.
pub(crate) fn render_slabs<R: SymbolSource, K: Fn(&BlockJob) -> Pixels>(
    kernel: &K,
    task: &GroupTask<'_>,
    Ghost(passes): Ghost<Seq<Option<PassData<R>>>>,
    store: &CompactHfCoeffStore,
    info: &SharedSubgrid<'_, BlockInfo>,
    all_dct8: bool,
    out: &mut Vec<Grid<u32>>,
)
    requires
        block_kernel_ok(*kernel),
        task.renderable(old(out)@),
        task.has_hf(),
        !task.subsampled(),
        *info == task.info(),
        info.wf(),
        info.width <= 128,
        info.height <= 128,
        all_dct8 == only_dct8(*info),
        store.wf(),
        made_for(*store, *info),
        store.data@ == passes_added(
            *task,
            passes,
            store.slots(),
            no_coefficients(*info),
            passes.len(),
        ),
    ensures
        rendered_from_slabs(*kernel, *task, passes, old(out)@, final(out)@),
{
    let mut lf: Vec<SharedSubgrid<'_, u32>> = Vec::new();
    lf.push(same_part(&task.lf[0]));
    lf.push(same_part(&task.lf[1]));
    lf.push(same_part(&task.lf[2]));
    assert(lf@ =~= task.lf@);
    let input = GroupInput {
        store,
        block_info: same_part(info),
        shift: ChannelShift::from_jpeg_upsampling(&task.frame_header.jpeg_upsampling, 0),
        lf,
        x_from_y: same_part(&task.x_from_y),
        b_from_y: same_part(&task.b_from_y),
    };
    proof {
        lemma_input_fits(*task, out@, input);
        assert(is_group_input(*task, passes, input));
    }
    if all_dct8 {
        dequant_cfl_transform_compact_dct8_grouped(kernel, &input, out);
    } else {
        dequant_cfl_compact_transform_grouped(kernel, &input, out);
    }
}

/// Adding coefficients keeps their number.
pub proof fn lemma_added_len<R: SymbolSource>(
    task: GroupTask,
    passes: Seq<Option<PassData<R>>>,
    position: spec_fn(HfUpdate) -> int,
    data: Seq<i32>,
    n: nat,
)
    ensures
        passes_added(task, passes, position, data, n).len() == data.len(),
    decreases n,
{
    if n > 0 {
        lemma_added_len(task, passes, position, data, (n - 1) as nat);
    }
}

/// Adding coefficients leaves the cells of a store as they are.
pub proof fn lemma_same_cells(
    a: CompactHfCoeffStore,
    b: CompactHfCoeffStore,
    info: SharedSubgrid<BlockInfo>,
)
    requires
        a.wf(),
        made_for(a, info),
        b.cell_start == a.cell_start,
        b.cell_size == a.cell_size,
        b.grid_width == a.grid_width,
        b.grid_height == a.grid_height,
        b.data@.len() == a.data@.len(),
    ensures
        b.wf(),
        made_for(b, info),
        b.slots() == a.slots(),
{
    assert forall|i: int|
        0 <= i < b.cell_size@.len() && #[trigger] b.size(i) != 0 implies b.start(i) + 3 * b.size(i)
        <= b.data@.len() by {
        assert(a.size(i) != 0);
    }
    assert forall|i: int, j: int|
        #![trigger b.size(i), b.size(j)]
        0 <= i < j < b.cell_size@.len() && b.size(i) != 0 && b.size(j) != 0 implies b.start(i) + 3
        * b.size(i) <= b.start(j) by {
        assert(a.size(i) != 0 && a.size(j) != 0);
    }
    assert forall|i: int| 0 <= i < info.width * info.height implies #[trigger] b.has_cell(
        info,
        i,
    ) by {
        assert(a.has_cell(info, i));
    }
    assert(b.slots() =~= a.slots());
}

} // verus!
