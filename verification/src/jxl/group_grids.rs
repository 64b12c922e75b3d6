//! Decoding the passes of a subsampled group into its grids, and transforms with low frequencies.
use crate::jxl::block::{shifted, BlockInfo, ChannelShift};
use crate::jxl::frame_error::Error;
use crate::jxl::grid::{Grid, SharedSubgrid};
use crate::jxl::group_task::{
    group_blocks, last_failure, lemma_one_info, lemma_one_params, lemma_stream_bound, modular_told,
    passes_added, GroupOutcome, GroupTask, PassData,
};
use crate::jxl::hf_coeff::{group_run, HfCoeffParams};
use crate::jxl::hf_store::{all_updates, grids_added, grids_fit, lemma_added_none, on_grid};
use crate::jxl::pass_group::{
    decode_pass_group, group_fits, group_result, modular_task, params_for, HfGlobal, ModularTask,
    PassGroupParams, PassGroupParamsVardct,
};
use crate::jxl::plane_blocks::{
    block_held, dequant_hf_varblock_grouped, filled_from_lf, lemma_plane_len, lf_options,
    plane_holds, plane_kernel_ok, planes_done, planes_hold, transform_with_lf_grouped, GroupBlocks,
    PlaneJob,
};
use crate::jxl::symbols::SymbolSource;
use crate::jxl::varblocks::{all_varblocks, is_varblock, lemma_listed, VarblockInfo};
use vstd::prelude::*;

verus! {

/// Coefficients held by their bits.
fn coefficients_of(values: &Vec<u32>) -> (r: Vec<i32>)
    ensures
        r@ == as_coefficients(values@),
{
    let mut r: Vec<i32> = Vec::new();
    let mut i: usize = 0;
    while i < values.len()
        invariant
            i <= values@.len(),
            r@.len() == i,
            forall|k: int| 0 <= k < i ==> #[trigger] r@[k] == values@[k] as i32,
        decreases values@.len() - i,
    {
        r.push(#[verifier::truncate] (values[i] as i32));
        i = i + 1;
    }
    assert(r@ =~= as_coefficients(values@));
    r
}

/// The bits of coefficients.
fn bits_of(values: &Vec<i32>) -> (r: Vec<u32>)
    ensures
        r@ == as_bits(values@),
{
    let mut r: Vec<u32> = Vec::new();
    let mut i: usize = 0;
    while i < values.len()
        invariant
            i <= values@.len(),
            r@.len() == i,
            forall|k: int| 0 <= k < i ==> #[trigger] r@[k] == values@[k] as u32,
        decreases values@.len() - i,
    {
        r.push(#[verifier::truncate] (values[i] as u32));
        i = i + 1;
    }
    assert(r@ =~= as_bits(values@));
    r
}

pub open spec fn as_coefficients(bits: Seq<u32>) -> Seq<i32> {
    Seq::new(bits.len(), |k: int| bits[k] as i32)
}

pub open spec fn as_bits(coeffs: Seq<i32>) -> Seq<u32> {
    Seq::new(coeffs.len(), |k: int| coeffs[k] as u32)
}

/// The grids after the coefficients of all passes were added to what they held.
pub open spec fn decoded_in_grids<R: SymbolSource>(
    task: GroupTask,
    passes: Seq<Option<PassData<R>>>,
    before: Seq<Grid<u32>>,
    after: Seq<Grid<u32>>,
) -> bool {
    &&& after.len() == before.len()
    &&& forall|c: int|
        0 <= c < 3 ==> {
            &&& (#[trigger] after[c]).width == before[c].width
            &&& after[c].height == before[c].height
            &&& after[c].data@ == as_bits(
                passes_added(
                    task,
                    passes,
                    on_grid(c, before[c].width as int),
                    as_coefficients(before[c].data@),
                    passes.len(),
                ),
            )
        }
}

/// The grids hold the coefficients of a group where they hold its blocks.
proof fn lemma_grids_fit(
    task: GroupTask,
    p: HfCoeffParams,
    pass: int,
    grids: Seq<Grid<u32>>,
    coeffs: Seq<Grid<i32>>,
)
    requires
        task.is_params(p, pass),
        task.renderable(grids),
        task.lf_group.hf_meta is Some,
        task.info().width <= 128,
        task.info().height <= 128,
        coeffs.len() == 3,
        forall|c: int|
            0 <= c < 3 ==> (#[trigger] coeffs[c]).wf() && coeffs[c].width == grids[c].width
                && coeffs[c].height == grids[c].height,
    ensures
        grids_fit(p, coeffs),
{
    assert(task.is_info(p.block_info));
    lemma_one_info(task, p.block_info);
    let info = task.info();
    assert forall|x: int, y: int, c: int|
        #![trigger p.block_info.at(x, y), coeffs[c]]
        0 <= x < p.block_info.width && 0 <= y < p.block_info.height && 0 <= c < 3 && !p.skipped(
            c,
            x,
            y,
        ) implies (p.block_info.at(x, y) matches BlockInfo::Data { dct_select, .. } ==> (p.sx(c, x)
        + dct_select.size().0) * 8 <= coeffs[c].width && (p.sy(c, y) + dct_select.size().1) * 8
        <= coeffs[c].height) by {
        match p.block_info.at(x, y) {
            BlockInfo::Data { dct_select, hf_mul } => {
                let s = task.shift(c);
                let v = VarblockInfo {
                    shifted_bx: shifted(x, s.h_subsample) as usize,
                    shifted_by: shifted(y, s.v_subsample) as usize,
                    dct_select,
                    hf_mul,
                };
                assert(task.shifts()[c] == s);
                assert(is_varblock(info, s, x, y, v));
                lemma_listed(info, s, 0, 0, x, y, v);
                let list = all_varblocks(info, s);
                let i = choose|i: int| 0 <= i < list.len() && list[i] == v;
                assert(plane_holds(grids[c], list, lf_options(task.lf@)[c]));
                assert(block_held(grids[c], list[i], lf_options(task.lf@)[c]));
            },
            _ => {},
        }
    }
}

/// Decodes the coefficients of all passes into grids.
fn decode_into_grids<R: SymbolSource>(
    task: &GroupTask<'_>,
    hf_global: &HfGlobal,
    passes: Vec<Option<PassData<R>>>,
    grids: &mut Vec<Grid<i32>>,
    Ghost(out): Ghost<Seq<Grid<u32>>>,
) -> (r: GroupOutcome)
    requires
        task.decodable(passes@.len() as int),
        task.hf_global == Some(hf_global),
        task.renderable(out),
        task.lf_group.hf_meta is Some,
        task.info().width <= 128,
        task.info().height <= 128,
        old(grids)@.len() == 3,
        forall|c: int|
            0 <= c < 3 ==> (#[trigger] old(grids)@[c]).wf() && old(grids)@[c].width == out[c].width
                && old(grids)@[c].height == out[c].height,
    ensures
        r.failure == last_failure(*task, passes@, passes@.len()),
        r.modular@ == modular_told(*task, passes@, passes@.len()),
        final(grids)@.len() == 3,
        forall|c: int|
            0 <= c < 3 ==> {
                &&& (#[trigger] final(grids)@[c]).width == old(grids)@[c].width
                &&& final(grids)@[c].height == old(grids)@[c].height
                &&& final(grids)@[c].wf()
                &&& final(grids)@[c].data@ == passes_added(
                    *task,
                    passes@,
                    on_grid(c, old(grids)@[c].width as int),
                    old(grids)@[c].data@,
                    passes@.len(),
                )
            },
{
    let ghost given = passes@;
    let ghost start = grids@;
    let count: usize = passes.len();
    let mut passes: Vec<Option<PassData<R>>> = passes;
    let mut failure: Option<Error> = None;
    let mut modular: Vec<Option<ModularTask>> = Vec::new();
    let mut pass: usize = 0;
    assert(given.skip(0) =~= given);
    while pass < count
        invariant
            pass <= count,
            count == given.len(),
            passes@ == given.skip(pass as int),
            task.decodable(count as int),
            task.hf_global == Some(hf_global),
            task.renderable(out),
            task.lf_group.hf_meta is Some,
            task.info().width <= 128,
            task.info().height <= 128,
            failure == last_failure(*task, given, pass as nat),
            modular@ == modular_told(*task, given, pass as nat),
            start.len() == 3,
            forall|c: int|
                0 <= c < 3 ==> (#[trigger] start[c]).wf() && start[c].width == out[c].width
                    && start[c].height == out[c].height,
            grids@.len() == 3,
            forall|c: int|
                0 <= c < 3 ==> {
                    &&& (#[trigger] grids@[c]).width == start[c].width
                    &&& grids@[c].height == start[c].height
                    &&& grids@[c].wf()
                    &&& grids@[c].data@ == passes_added(
                        *task,
                        given,
                        on_grid(c, start[c].width as int),
                        start[c].data@,
                        pass as nat,
                    )
                },
        decreases count - pass,
    {
        let entry: Option<PassData<R>> = passes.remove(0);
        let ghost shown = given[pass as int];
        let ghost before = grids@;
        proof {
            assert(entry == shown);
            assert(passes@ =~= given.skip(pass + 1));
            lemma_stream_bound(
                *task.frame_header,
                pass as int,
                count as int,
                task.group_idx as int,
            );
        }
        match entry {
            None => {
                modular.push(None);
                proof {
                    lemma_added_none(before[0].data@, on_grid(0, start[0].width as int));
                    lemma_added_none(before[1].data@, on_grid(1, start[1].width as int));
                    lemma_added_none(before[2].data@, on_grid(2, start[2].width as int));
                }
            },
            Some(data) => {
                let mut bitstream: R = data.bitstream;
                proof {
                    assert forall|p: HfCoeffParams| #[trigger]
                        params_for(
                            p,
                            *task.frame_header,
                            *task.lf_group,
                            pass as int,
                            task.group_idx as int,
                            *task.lf_vardct,
                            *hf_global,
                            task.tracker,
                        ) implies p.wf() && grids_fit(p, before) by {
                        assert(task.is_params(p, pass as int));
                        assert forall|c: int| 0 <= c < 3 implies (#[trigger] before[c]).wf()
                            && before[c].width == out[c].width && before[c].height
                            == out[c].height by {
                            assert(start[c].width == out[c].width);
                        }
                        lemma_grids_fit(*task, p, pass as int, out, before);
                    }
                }
                let r = decode_pass_group(
                    &mut bitstream,
                    PassGroupParams {
                        frame_header: task.frame_header,
                        lf_group: task.lf_group,
                        pass_idx: pass as u32,
                        group_idx: task.group_idx,
                        modular: data.modular,
                        vardct: Some(
                            PassGroupParamsVardct {
                                lf_vardct: task.lf_vardct,
                                hf_global,
                                hf_coeff_output: &mut *grids,
                            },
                        ),
                        allow_partial: data.partial,
                        tracker: task.tracker,
                    },
                );
                proof {
                    let p = choose|p: HfCoeffParams|
                        {
                            let run = group_run::<R>(p, data.bitstream.model());
                            &&& #[trigger] params_for(
                                p,
                                *task.frame_header,
                                *task.lf_group,
                                pass as int,
                                task.group_idx as int,
                                *task.lf_vardct,
                                *hf_global,
                                task.tracker,
                            )
                            &&& r == group_result(
                                run.0,
                                data.partial,
                                modular_task(
                                    data.modular,
                                    *task.frame_header,
                                    pass as int,
                                    task.group_idx as int,
                                    data.partial,
                                ),
                            )
                            &&& grids_added(before, grids@, all_updates(run.2))
                        };
                    assert(task.is_params(p, pass as int));
                    lemma_one_params(*task, p, pass as int);
                    assert forall|c: int| 0 <= c < 3 implies {
                        &&& (#[trigger] grids@[c]).width == start[c].width
                        &&& grids@[c].height == start[c].height
                        &&& grids@[c].wf()
                        &&& grids@[c].data@ == passes_added(
                            *task,
                            given,
                            on_grid(c, start[c].width as int),
                            start[c].data@,
                            (pass + 1) as nat,
                        )
                    } by {
                        assert(before[c].width == start[c].width);
                    }
                }
                match r {
                    Ok(told) => {
                        modular.push(told);
                    },
                    Err(e) => {
                        modular.push(None);
                        if !data.partial {
                            failure = Some(e);
                        }
                    },
                }
            },
        }
        proof {
            assert(modular@ =~= modular_told(*task, given, (pass + 1) as nat));
        }
        pass = pass + 1;
    }
    GroupOutcome { failure, modular }
}

/// The grids after what they held was transformed with the low frequencies.
pub open spec fn transformed<K: Fn(&PlaneJob) -> Vec<u32>>(
    kernel: K,
    task: GroupTask,
    before: Seq<Grid<u32>>,
    after: Seq<Grid<u32>>,
) -> bool {
    if task.lf_group.hf_meta is Some {
        planes_done(kernel, task.info(), task.shifts(), lf_options(task.lf@), before, after)
    } else {
        filled_from_lf(task.lf@, before, after)
    }
}

fn channel_shifts(task: &GroupTask<'_>) -> (r: [ChannelShift; 3])
    ensures
        r@ == task.shifts(),
{
    let up = &task.frame_header.jpeg_upsampling;
    let r: [ChannelShift; 3] = [
        ChannelShift::from_jpeg_upsampling(up, 0),
        ChannelShift::from_jpeg_upsampling(up, 1),
        ChannelShift::from_jpeg_upsampling(up, 2),
    ];
    assert(r@ =~= task.shifts());
    r
}

/// Transforms a group with its low frequencies, where there are no coefficients to decode or they
/// are in the grids.
pub fn transform_group<K: Fn(&PlaneJob) -> Vec<u32>>(
    kernel: &K,
    task: &GroupTask<'_>,
    out: &mut Vec<Grid<u32>>,
)
    requires
        plane_kernel_ok(*kernel),
        group_fits(*task.frame_header, *task.lf_group, task.group_idx as int),
        task.frame_header.group_dim <= 1024,
        task.renderable(old(out)@),
    ensures
        transformed(*kernel, *task, old(out)@, final(out)@),
{
    let shifts: [ChannelShift; 3] = channel_shifts(task);
    match &task.lf_group.hf_meta {
        None => {
            transform_with_lf_grouped(kernel, &task.lf, out, &shifts, &GroupBlocks::LfOnly);
        },
        Some(blocks) => {
            let info = group_blocks(task, blocks);
            transform_with_lf_grouped(kernel, &task.lf, out, &shifts, &GroupBlocks::Blocks(info));
        },
    }
}

/// Grids of the same sizes hold the blocks as well.
proof fn lemma_still_renderable(task: GroupTask, a: Seq<Grid<u32>>, b: Seq<Grid<u32>>)
    requires
        task.renderable(a),
        task.lf_group.hf_meta is Some,
        b.len() == a.len(),
        forall|c: int|
            0 <= c < 3 ==> (#[trigger] b[c]).wf() && b[c].width == a[c].width && b[c].height
                == a[c].height,
    ensures
        task.renderable(b),
        planes_hold(b, task.info(), task.shifts(), seq![None, None, None]),
{
    let info = task.info();
    let shifts = task.shifts();
    let lf = lf_options(task.lf@);
    let none: Seq<Option<SharedSubgrid<u32>>> = seq![None, None, None];
    assert forall|c: int| 0 <= c < 3 implies plane_holds(
        #[trigger] b[c],
        all_varblocks(info, shifts[c]),
        lf[c],
    ) && plane_holds(b[c], all_varblocks(info, shifts[c]), none[c]) by {
        let blocks = all_varblocks(info, shifts[c]);
        assert(plane_holds(a[c], blocks, lf[c]));
        assert forall|i: int| 0 <= i < blocks.len() implies block_held(
            b[c],
            #[trigger] blocks[i],
            lf[c],
        ) && block_held(b[c], blocks[i], none[c]) by {
            assert(block_held(a[c], blocks[i], lf[c]));
        }
    }
}

fn grids_to_coefficients(grids: &Vec<Grid<u32>>) -> (r: Vec<Grid<i32>>)
    requires
        grids@.len() == 3,
        forall|c: int| 0 <= c < 3 ==> (#[trigger] grids@[c]).wf(),
    ensures
        r@.len() == 3,
        forall|c: int|
            0 <= c < 3 ==> (#[trigger] r@[c]).wf() && r@[c].width == grids@[c].width
                && r@[c].height == grids@[c].height && r@[c].data@ == as_coefficients(
                grids@[c].data@,
            ),
{
    let mut r: Vec<Grid<i32>> = Vec::new();
    let mut i: usize = 0;
    while i < 3
        invariant
            i <= 3,
            grids@.len() == 3,
            forall|c: int| 0 <= c < 3 ==> (#[trigger] grids@[c]).wf(),
            r@.len() == i,
            forall|c: int|
                0 <= c < i ==> (#[trigger] r@[c]).wf() && r@[c].width == grids@[c].width
                    && r@[c].height == grids@[c].height && r@[c].data@ == as_coefficients(
                    grids@[c].data@,
                ),
        decreases 3 - i,
    {
        let grid: &Grid<u32> = &grids[i];
        assert(grids@[i as int].wf());
        r.push(
            Grid { data: coefficients_of(&grid.data), width: grid.width, height: grid.height },
        );
        i = i + 1;
    }
    r
}

fn coefficients_to_grids(grids: &Vec<Grid<i32>>) -> (r: Vec<Grid<u32>>)
    requires
        grids@.len() == 3,
        forall|c: int| 0 <= c < 3 ==> (#[trigger] grids@[c]).wf(),
    ensures
        r@.len() == 3,
        forall|c: int|
            0 <= c < 3 ==> (#[trigger] r@[c]).wf() && r@[c].width == grids@[c].width
                && r@[c].height == grids@[c].height && r@[c].data@ == as_bits(grids@[c].data@),
{
    let mut r: Vec<Grid<u32>> = Vec::new();
    let mut i: usize = 0;
    while i < 3
        invariant
            i <= 3,
            grids@.len() == 3,
            forall|c: int| 0 <= c < 3 ==> (#[trigger] grids@[c]).wf(),
            r@.len() == i,
            forall|c: int|
                0 <= c < i ==> (#[trigger] r@[c]).wf() && r@[c].width == grids@[c].width
                    && r@[c].height == grids@[c].height && r@[c].data@ == as_bits(grids@[c].data@),
        decreases 3 - i,
    {
        let grid: &Grid<i32> = &grids[i];
        assert(grids@[i as int].wf());
        r.push(Grid { data: bits_of(&grid.data), width: grid.width, height: grid.height });
        i = i + 1;
    }
    r
}

/// The grids of a subsampled group: decoded, dequantized unless a pass failed, and transformed.
pub open spec fn rendered_in_grids<
    R: SymbolSource,
    D: Fn(&PlaneJob) -> Vec<u32>,
    T: Fn(&PlaneJob) -> Vec<u32>,
>(
    dequant: D,
    transform: T,
    task: GroupTask,
    passes: Seq<Option<PassData<R>>>,
    before: Seq<Grid<u32>>,
    after: Seq<Grid<u32>>,
) -> bool {
    exists|decoded: Seq<Grid<u32>>, ready: Seq<Grid<u32>>|
        {
            &&& #[trigger] decoded_in_grids(task, passes, before, decoded)
            &&& if last_failure(task, passes, passes.len()) is None {
                planes_done(
                    dequant,
                    task.info(),
                    task.shifts(),
                    seq![None, None, None],
                    decoded,
                    ready,
                )
            } else {
                ready == decoded
            }
            &&& #[trigger] transformed(transform, task, ready, after)
        }
}

/// Decodes and renders a subsampled group.
pub(crate) fn render_strided<
    R: SymbolSource,
    D: Fn(&PlaneJob) -> Vec<u32>,
    T: Fn(&PlaneJob) -> Vec<u32>,
>(
    dequant: &D,
    transform: &T,
    task: &GroupTask<'_>,
    hf_global: &HfGlobal,
    info: &SharedSubgrid<'_, BlockInfo>,
    passes: Vec<Option<PassData<R>>>,
    out: &mut Vec<Grid<u32>>,
) -> (r: GroupOutcome)
    requires
        plane_kernel_ok(*dequant),
        plane_kernel_ok(*transform),
        task.decodable(passes@.len() as int),
        task.hf_global == Some(hf_global),
        task.renderable(old(out)@),
        task.has_hf(),
        *info == task.info(),
        info.width <= 128,
        info.height <= 128,
    ensures
        r.failure == last_failure(*task, passes@, passes@.len()),
        r.modular@ == modular_told(*task, passes@, passes@.len()),
        rendered_in_grids(*dequant, *transform, *task, passes@, old(out)@, final(out)@),
{
    let ghost before = out@;
    let ghost given = passes@;
    proof {
        assert forall|c: int| 0 <= c < 3 implies (#[trigger] before[c]).wf() by {
            assert(plane_holds(
                before[c],
                all_varblocks(*info, task.shifts()[c]),
                lf_options(task.lf@)[c],
            ));
        }
    }
    let mut coeffs: Vec<Grid<i32>> = grids_to_coefficients(out);
    let outcome: GroupOutcome = decode_into_grids(
        task,
        hf_global,
        passes,
        &mut coeffs,
        Ghost(before),
    );
    *out = coefficients_to_grids(&coeffs);
    let ghost decoded = out@;
    proof {
        assert forall|c: int| 0 <= c < 3 implies {
            &&& (#[trigger] decoded[c]).wf()
            &&& decoded[c].width == before[c].width
            &&& decoded[c].height == before[c].height
            &&& decoded[c].data@ == as_bits(
                passes_added(
                    *task,
                    given,
                    on_grid(c, before[c].width as int),
                    as_coefficients(before[c].data@),
                    given.len(),
                ),
            )
        } by {
            assert(coeffs@[c].wf());
        }
        assert(decoded_in_grids(*task, given, before, decoded));
        lemma_still_renderable(*task, before, decoded);
    }
    if outcome.failure.is_none() {
        dequant_hf_varblock_grouped(dequant, info, &channel_shifts(task), out);
        proof {
            let none: Seq<Option<SharedSubgrid<u32>>> = seq![None, None, None];
            assert forall|c: int| 0 <= c < 3 implies (#[trigger] out@[c]).wf() && out@[c].width
                == decoded[c].width && out@[c].height == decoded[c].height by {
                assert(decoded[c].wf());
                lemma_plane_len(
                    *dequant,
                    c,
                    all_varblocks(*info, task.shifts()[c]),
                    none[c],
                    decoded[c].width as int,
                    decoded[c].data@,
                    out@[c].data@,
                );
            }
            lemma_still_renderable(*task, decoded, out@);
        }
    }
    let ghost ready = out@;
    transform_group(transform, task, out);
    assert(transformed(*transform, *task, ready, out@));
    outcome
}

} // verus!
