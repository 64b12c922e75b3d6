//! Decoding of one group of one pass of a frame.
use crate::jxl::block::{channel_shift, shifted, shifted_len, BlockInfo, ChannelShift};
use crate::jxl::compact::{
    block_views, store_fits, whole_blocks, write_hf_coeff_compact, write_hf_coeff_direct,
    CompactHfCoeffStore, HfBlock,
};
use crate::jxl::error::VardctError;
use crate::jxl::frame_error::{Error, Result};
use crate::jxl::grid::{Grid, SharedSubgrid};
use crate::jxl::hf_coeff::{group_run, HfBlockContext, HfCoeffParams, HfPass};
use crate::jxl::hf_store::{added, all_updates, grids_added, grids_fit, write_hf_coeff};
use crate::jxl::symbols::SymbolSource;
use crate::math::least;
use vstd::prelude::*;

verus! {

/// What decoding a group reads of a frame header.
pub struct FrameHeader {
    pub groups_per_row: u32,
    pub num_groups: u32,
    pub num_lf_groups: u32,
    /// Pixels in a row of a group.
    pub group_dim: u32,
    pub jpeg_upsampling: [u32; 3],
    /// How far the coefficients of each pass are shifted up.
    pub pass_shifts: Vec<u32>,
}

/// Metadata and low frequencies of eight by eight groups.
pub struct LfGroup {
    pub hf_meta: Option<Grid<BlockInfo>>,
    /// Quantized low frequencies; luma comes first.
    pub lf_quant: Option<[Grid<i32>; 3]>,
}

pub struct LfGlobalVarDct {
    pub hf_block_ctx: HfBlockContext,
}

pub struct HfGlobal {
    pub num_hf_presets: u32,
    pub hf_passes: Vec<HfPass>,
}

/// A modular-coded image that is part of a group.
#[derive(Clone, Copy)]
pub struct ModularSubimage {
    pub is_empty: bool,
}

/// A modular-coded image that is to be decoded next, from the stream with the given number.
#[derive(Clone, Copy, PartialEq, Eq, Structural)]
pub struct ModularTask {
    pub stream_index: u32,
    pub allow_partial: bool,
}

pub struct PassGroupParamsVardct<'frame, 'buf> {
    pub lf_vardct: &'frame LfGlobalVarDct,
    pub hf_global: &'frame HfGlobal,
    pub hf_coeff_output: &'buf mut Vec<Grid<i32>>,
}

pub struct PassGroupParams<'frame, 'buf> {
    pub frame_header: &'frame FrameHeader,
    pub lf_group: &'frame LfGroup,
    pub pass_idx: u32,
    pub group_idx: u32,
    pub modular: Option<ModularSubimage>,
    pub vardct: Option<PassGroupParamsVardct<'frame, 'buf>>,
    pub allow_partial: bool,
    pub tracker: Option<usize>,
}

pub struct PassGroupParamsVardctCompact<'frame, 'buf> {
    pub lf_vardct: &'frame LfGlobalVarDct,
    pub hf_global: &'frame HfGlobal,
    pub hf_coeff_compact: &'buf mut CompactHfCoeffStore,
}

pub struct PassGroupParamsCompact<'frame, 'buf> {
    pub frame_header: &'frame FrameHeader,
    pub lf_group: &'frame LfGroup,
    pub pass_idx: u32,
    pub group_idx: u32,
    pub modular: Option<ModularSubimage>,
    pub vardct: Option<PassGroupParamsVardctCompact<'frame, 'buf>>,
    pub allow_partial: bool,
    pub tracker: Option<usize>,
}

/// Which part of its low-frequency group a group covers, in blocks.
pub struct GroupArea {
    pub left: int,
    pub top: int,
    pub width: int,
    pub height: int,
}

/// Groups are numbered in row order, and a low-frequency group has eight by eight of them.
pub open spec fn group_area(header: FrameHeader, group_idx: int, blocks: Grid<BlockInfo>) -> GroupArea {
    let per_row = header.groups_per_row as int;
    let dim = header.group_dim as int / 8;
    let left = (group_idx % per_row) % 8 * dim;
    let top = (group_idx / per_row) % 8 * dim;
    GroupArea {
        left,
        top,
        width: least(blocks.width - left, dim),
        height: least(blocks.height - top, dim),
    }
}

/// Part of a channel's low-frequency grid that an area covers.
pub open spec fn channel_area(area: GroupArea, shift: ChannelShift) -> GroupArea {
    GroupArea {
        left: shifted(area.left, shift.h_subsample),
        top: shifted(area.top, shift.v_subsample),
        width: shifted_len(area.width, shift.has_h_subsample, shift.h_subsample),
        height: shifted_len(area.height, shift.has_v_subsample, shift.v_subsample),
    }
}

pub open spec fn covers<T>(part: SharedSubgrid<T>, grid: Grid<T>, area: GroupArea) -> bool {
    &&& *part.grid == grid
    &&& part.left == area.left
    &&& part.top == area.top
    &&& part.width == area.width
    &&& part.height == area.height
}

pub open spec fn area_within(area: GroupArea, grid: Grid<i32>) -> bool {
    &&& grid.wf()
    &&& area.left + area.width <= grid.width
    &&& area.top + area.height <= grid.height
}

/// The area starts within the blocks of its low-frequency group, and its channels lie within the
/// low-frequency grids.
pub open spec fn group_fits(header: FrameHeader, lf_group: LfGroup, group_idx: int) -> bool {
    &&& header.groups_per_row >= 1
    &&& lf_group.hf_meta matches Some(blocks) ==> {
        let area = group_area(header, group_idx, blocks);
        &&& blocks.wf()
        &&& area.left <= blocks.width
        &&& area.top <= blocks.height
        &&& lf_group.lf_quant matches Some(grids) ==> forall|idx: int|
            0 <= idx < 3 ==> #[trigger] area_within(
                channel_area(area, channel_shift(header.jpeg_upsampling@, idx)),
                grids@[lf_channel(idx)],
            )
    }
}

/// The low-frequency grids hold luma first.
pub open spec fn lf_channel(idx: int) -> int {
    if idx == 0 {
        1
    } else if idx == 1 {
        0
    } else {
        2
    }
}

/// The shift of a pass; none where the header gives none.
pub open spec fn pass_shift(header: FrameHeader, pass_idx: int) -> u32 {
    if pass_idx < header.pass_shifts@.len() {
        header.pass_shifts@[pass_idx]
    } else {
        0
    }
}

/// The parameters for the coefficients of a group.
pub open spec fn params_for(
    p: HfCoeffParams,
    header: FrameHeader,
    lf_group: LfGroup,
    pass_idx: int,
    group_idx: int,
    lf_vardct: LfGlobalVarDct,
    hf_global: HfGlobal,
    tracker: Option<usize>,
) -> bool {
    lf_group.hf_meta matches Some(blocks) && {
        let area = group_area(header, group_idx, blocks);
        &&& p.num_hf_presets == hf_global.num_hf_presets
        &&& *p.hf_block_ctx == lf_vardct.hf_block_ctx
        &&& covers(p.block_info, blocks, area)
        &&& p.jpeg_upsampling == header.jpeg_upsampling
        &&& *p.hf_pass == hf_global.hf_passes@[pass_idx]
        &&& p.coeff_shift == pass_shift(header, pass_idx)
        &&& p.tracker == tracker
        &&& match (p.lf_quant, lf_group.lf_quant) {
            (None, None) => true,
            (Some(parts), Some(grids)) => forall|idx: int|
                0 <= idx < 3 ==> covers(
                    #[trigger] parts@[idx],
                    grids@[lf_channel(idx)],
                    channel_area(area, channel_shift(header.jpeg_upsampling@, idx)),
                ),
            _ => false,
        }
    }
}

fn lf_part<'a>(grid: &'a Grid<i32>, shift: ChannelShift, left: usize, top: usize, width: usize, height: usize) -> (r:
    SharedSubgrid<'a, i32>)
    requires
        grid.wf(),
        width < usize::MAX,
        height < usize::MAX,
        ({
            let a = channel_area(
                GroupArea {
                    left: left as int,
                    top: top as int,
                    width: width as int,
                    height: height as int,
                },
                shift,
            );
            a.left + a.width <= grid.width && a.top + a.height <= grid.height
        }),
    ensures
        covers(
            r,
            *grid,
            channel_area(
                GroupArea {
                    left: left as int,
                    top: top as int,
                    width: width as int,
                    height: height as int,
                },
                shift,
            ),
        ),
{
    let (w, h) = shift.shift_size(width, height);
    SharedSubgrid { grid, left: shift.hshift(left), top: shift.vshift(top), width: w, height: h }
}

/// Gathers the parameters for the coefficients of a group; none where there is no metadata.
fn make_hf_coeff_params<'frame>(
    frame_header: &'frame FrameHeader,
    lf_group: &'frame LfGroup,
    pass_idx: u32,
    group_idx: u32,
    lf_vardct: &'frame LfGlobalVarDct,
    hf_global: &'frame HfGlobal,
    tracker: Option<usize>,
) -> (r: Option<HfCoeffParams<'frame>>)
    requires
        group_fits(*frame_header, *lf_group, group_idx as int),
        lf_group.hf_meta is Some ==> pass_idx < hf_global.hf_passes@.len(),
    ensures
        r is Some == lf_group.hf_meta is Some,
        r matches Some(p) ==> params_for(
            p,
            *frame_header,
            *lf_group,
            pass_idx as int,
            group_idx as int,
            *lf_vardct,
            *hf_global,
            tracker,
        ),
{
    let blocks: &'frame Grid<BlockInfo> = match &lf_group.hf_meta {
        None => {
            return None;
        },
        Some(blocks) => blocks,
    };
    let coeff_shift: u32 = if (pass_idx as usize) < frame_header.pass_shifts.len() {
        frame_header.pass_shifts[pass_idx as usize]
    } else {
        0
    };
    let lf_col: u32 = group_idx % frame_header.groups_per_row % 8;
    let lf_row: u32 = group_idx / frame_header.groups_per_row % 8;
    let dim: usize = (frame_header.group_dim / 8) as usize;
    let ghost area = group_area(*frame_header, group_idx as int, *blocks);
    assert(area.left == lf_col * dim && area.top == lf_row * dim);
    let left: usize = lf_col as usize * dim;
    let top: usize = lf_row as usize * dim;
    let width: usize = if blocks.width - left < dim {
        blocks.width - left
    } else {
        dim
    };
    let height: usize = if blocks.height - top < dim {
        blocks.height - top
    } else {
        dim
    };
    assert(area == (GroupArea {
        left: left as int,
        top: top as int,
        width: width as int,
        height: height as int,
    }));
    let block_info = SharedSubgrid { grid: blocks, left, top, width, height };
    let lf_quant: Option<[SharedSubgrid<'frame, i32>; 3]> = match &lf_group.lf_quant {
        None => None,
        Some(grids) => {
            let up = &frame_header.jpeg_upsampling;
            proof {
                let u = frame_header.jpeg_upsampling@;
                assert(area_within(channel_area(area, channel_shift(u, 0)), grids@[lf_channel(0)]));
                assert(area_within(channel_area(area, channel_shift(u, 1)), grids@[lf_channel(1)]));
                assert(area_within(channel_area(area, channel_shift(u, 2)), grids@[lf_channel(2)]));
            }
            let parts: [SharedSubgrid<'frame, i32>; 3] = [
                lf_part(
                    &grids[1],
                    ChannelShift::from_jpeg_upsampling(up, 0),
                    left,
                    top,
                    width,
                    height,
                ),
                lf_part(
                    &grids[0],
                    ChannelShift::from_jpeg_upsampling(up, 1),
                    left,
                    top,
                    width,
                    height,
                ),
                lf_part(
                    &grids[2],
                    ChannelShift::from_jpeg_upsampling(up, 2),
                    left,
                    top,
                    width,
                    height,
                ),
            ];
            Some(parts)
        },
    };
    Some(
        HfCoeffParams {
            num_hf_presets: hf_global.num_hf_presets,
            hf_block_ctx: &lf_vardct.hf_block_ctx,
            block_info,
            jpeg_upsampling: frame_header.jpeg_upsampling,
            lf_quant,
            hf_pass: &hf_global.hf_passes[pass_idx as usize],
            coeff_shift,
            tracker,
        },
    )
}

/// Number of the stream of a group's modular-coded image.
pub open spec fn stream_index(header: FrameHeader, pass_idx: int, group_idx: int) -> int {
    1 + 3 * header.num_lf_groups + 17 + pass_idx * header.num_groups + group_idx
}

/// What is to be decoded of a modular-coded image.
pub open spec fn modular_task(
    modular: Option<ModularSubimage>,
    header: FrameHeader,
    pass_idx: int,
    group_idx: int,
    allow_partial: bool,
) -> Option<ModularTask> {
    match modular {
        Some(sub) => if sub.is_empty {
            None
        } else {
            Some(
                ModularTask {
                    stream_index: stream_index(header, pass_idx, group_idx) as u32,
                    allow_partial,
                },
            )
        },
        None => None,
    }
}

/// Names the stream of a modular-coded image that is to be decoded; none if it is empty.
pub fn decode_pass_group_modular(
    frame_header: &FrameHeader,
    pass_idx: u32,
    group_idx: u32,
    modular: ModularSubimage,
    allow_partial: bool,
) -> (r: Option<ModularTask>)
    requires
        stream_index(*frame_header, pass_idx as int, group_idx as int) <= u32::MAX,
    ensures
        r == modular_task(
            Some(modular),
            *frame_header,
            pass_idx as int,
            group_idx as int,
            allow_partial,
        ),
{
    if modular.is_empty {
        return None;
    }
    assert(0 <= pass_idx * frame_header.num_groups) by (nonlinear_arith);
    let stream_index: u32 = 1 + 3 * frame_header.num_lf_groups + 17 + pass_idx
        * frame_header.num_groups + group_idx;
    Some(ModularTask { stream_index, allow_partial })
}

/// Different groups of different passes have different streams.
pub proof fn lemma_streams_differ(
    header: FrameHeader,
    pass: int,
    group: int,
    pass2: int,
    group2: int,
)
    requires
        0 <= group < header.num_groups,
        0 <= group2 < header.num_groups,
        (pass, group) != (pass2, group2),
    ensures
        stream_index(header, pass, group) != stream_index(header, pass2, group2),
{
    if stream_index(header, pass, group) == stream_index(header, pass2, group2) {
        crate::jxl::grid::lemma_flat_injective(
            group,
            pass,
            group2,
            pass2,
            header.num_groups as int,
        );
    }
}

/// How the coefficients of a group end: data that may be partial ends the group, other errors are
/// handed on, and otherwise the modular-coded image follows.
pub open spec fn group_result(
    coeffs: core::result::Result<(), VardctError>,
    allow_partial: bool,
    task: Option<ModularTask>,
) -> Result<Option<ModularTask>> {
    match coeffs {
        Ok(_) => Ok(task),
        Err(e) => if e.is_eof() && allow_partial {
            Ok(None)
        } else {
            Err(Error::VarDct(e))
        },
    }
}

fn end_group(
    coeffs: core::result::Result<(), VardctError>,
    allow_partial: bool,
    task: Option<ModularTask>,
) -> (r: Result<Option<ModularTask>>)
    ensures
        r == group_result(coeffs, allow_partial, task),
{
    match coeffs {
        Ok(_) => Ok(task),
        Err(e) => {
            if e.unexpected_eof() && allow_partial {
                Ok(None)
            } else {
                Err(Error::VarDct(e))
            }
        },
    }
}

/// Decodes the coefficients of a group into grids, and tells what modular-coded image follows.
pub fn decode_pass_group<R: SymbolSource>(bitstream: &mut R, params: PassGroupParams<'_, '_>) -> (r:
    Result<Option<ModularTask>>)
    requires
        stream_index(*params.frame_header, params.pass_idx as int, params.group_idx as int)
            <= u32::MAX,
        params.vardct matches Some(v) ==> {
            &&& group_fits(*params.frame_header, *params.lf_group, params.group_idx as int)
            &&& params.lf_group.hf_meta is Some ==> params.pass_idx
                < v.hf_global.hf_passes@.len()
            &&& forall|p: HfCoeffParams|
                #[trigger] params_for(
                    p,
                    *params.frame_header,
                    *params.lf_group,
                    params.pass_idx as int,
                    params.group_idx as int,
                    *v.lf_vardct,
                    *v.hf_global,
                    params.tracker,
                ) ==> p.wf() && grids_fit(p, v.hf_coeff_output@)
        },
    ensures
        ({
            let task = modular_task(
                params.modular,
                *params.frame_header,
                params.pass_idx as int,
                params.group_idx as int,
                params.allow_partial,
            );
            match params.vardct {
                Some(v) => if params.lf_group.hf_meta is Some {
                    exists|p: HfCoeffParams|
                        {
                            let run = group_run::<R>(p, old(bitstream).model());
                            &&& #[trigger] params_for(
                                p,
                                *params.frame_header,
                                *params.lf_group,
                                params.pass_idx as int,
                                params.group_idx as int,
                                *v.lf_vardct,
                                *v.hf_global,
                                params.tracker,
                            )
                            &&& r == group_result(run.0, params.allow_partial, task)
                            &&& final(bitstream).model() == run.1
                            &&& grids_added(
                                v.hf_coeff_output@,
                                final(v.hf_coeff_output)@,
                                all_updates(run.2),
                            )
                        }
                } else {
                    r == Ok::<Option<ModularTask>, Error>(task) && *final(bitstream) == *old(
                        bitstream,
                    ) && *final(v.hf_coeff_output) == *v.hf_coeff_output
                },
                None => r == Ok::<Option<ModularTask>, Error>(task) && *final(bitstream) == *old(
                    bitstream,
                ),
            }
        }),
{
    let PassGroupParams {
        frame_header,
        lf_group,
        pass_idx,
        group_idx,
        modular,
        vardct,
        allow_partial,
        tracker,
    } = params;
    let task: Option<ModularTask> = match modular {
        None => None,
        Some(sub) => decode_pass_group_modular(
            frame_header,
            pass_idx,
            group_idx,
            sub,
            allow_partial,
        ),
    };
    if let Some(v) = vardct {
        let made = make_hf_coeff_params(
            frame_header,
            lf_group,
            pass_idx,
            group_idx,
            v.lf_vardct,
            v.hf_global,
            tracker,
        );
        if let Some(p) = made {
            let coeffs = write_hf_coeff(bitstream, p, v.hf_coeff_output);
            return end_group(coeffs, allow_partial, task);
        }
    }
    Ok(task)
}

/// Decodes the coefficients of a group into slabs, and tells what modular-coded image follows.
pub fn decode_pass_group_compact<R: SymbolSource>(
    bitstream: &mut R,
    params: PassGroupParamsCompact<'_, '_>,
) -> (r: Result<Option<ModularTask>>)
    requires
        stream_index(*params.frame_header, params.pass_idx as int, params.group_idx as int)
            <= u32::MAX,
        params.vardct matches Some(v) ==> {
            &&& group_fits(*params.frame_header, *params.lf_group, params.group_idx as int)
            &&& params.lf_group.hf_meta is Some ==> params.pass_idx
                < v.hf_global.hf_passes@.len()
            &&& forall|p: HfCoeffParams|
                #[trigger] params_for(
                    p,
                    *params.frame_header,
                    *params.lf_group,
                    params.pass_idx as int,
                    params.group_idx as int,
                    *v.lf_vardct,
                    *v.hf_global,
                    params.tracker,
                ) ==> p.wf() && store_fits(p, *v.hf_coeff_compact)
        },
    ensures
        ({
            let task = modular_task(
                params.modular,
                *params.frame_header,
                params.pass_idx as int,
                params.group_idx as int,
                params.allow_partial,
            );
            match params.vardct {
                Some(v) => if params.lf_group.hf_meta is Some {
                    exists|p: HfCoeffParams|
                        {
                            let run = group_run::<R>(p, old(bitstream).model());
                            &&& #[trigger] params_for(
                                p,
                                *params.frame_header,
                                *params.lf_group,
                                params.pass_idx as int,
                                params.group_idx as int,
                                *v.lf_vardct,
                                *v.hf_global,
                                params.tracker,
                            )
                            &&& r == group_result(run.0, params.allow_partial, task)
                            &&& final(bitstream).model() == run.1
                            &&& final(v.hf_coeff_compact).cell_start
                                == v.hf_coeff_compact.cell_start
                            &&& final(v.hf_coeff_compact).cell_size
                                == v.hf_coeff_compact.cell_size
                            &&& final(v.hf_coeff_compact).grid_width
                                == v.hf_coeff_compact.grid_width
                            &&& final(v.hf_coeff_compact).grid_height
                                == v.hf_coeff_compact.grid_height
                            &&& final(v.hf_coeff_compact).data@ == added(
                                v.hf_coeff_compact.data@,
                                all_updates(run.2),
                                v.hf_coeff_compact.slots(),
                            )
                        }
                } else {
                    r == Ok::<Option<ModularTask>, Error>(task) && *final(bitstream) == *old(
                        bitstream,
                    ) && *final(v.hf_coeff_compact) == *v.hf_coeff_compact
                },
                None => r == Ok::<Option<ModularTask>, Error>(task) && *final(bitstream) == *old(
                    bitstream,
                ),
            }
        }),
{
    let PassGroupParamsCompact {
        frame_header,
        lf_group,
        pass_idx,
        group_idx,
        modular,
        vardct,
        allow_partial,
        tracker,
    } = params;
    let task: Option<ModularTask> = match modular {
        None => None,
        Some(sub) => decode_pass_group_modular(
            frame_header,
            pass_idx,
            group_idx,
            sub,
            allow_partial,
        ),
    };
    if let Some(v) = vardct {
        let made = make_hf_coeff_params(
            frame_header,
            lf_group,
            pass_idx,
            group_idx,
            v.lf_vardct,
            v.hf_global,
            tracker,
        );
        if let Some(p) = made {
            let coeffs = write_hf_coeff_compact(bitstream, p, v.hf_coeff_compact);
            return end_group(coeffs, allow_partial, task);
        }
    }
    Ok(task)
}

/// Decodes the coefficients of a group of a pass that is not progressive, a block at a time.
pub fn decode_hf_coeff_direct<R: SymbolSource>(
    bitstream: &mut R,
    frame_header: &FrameHeader,
    lf_group: &LfGroup,
    pass_idx: u32,
    group_idx: u32,
    lf_vardct: &LfGlobalVarDct,
    hf_global: &HfGlobal,
    tracker: Option<usize>,
    blocks: &mut Vec<HfBlock>,
) -> (r: Result<()>)
    requires
        group_fits(*frame_header, *lf_group, group_idx as int),
        lf_group.hf_meta is Some ==> pass_idx < hf_global.hf_passes@.len(),
        lf_group.hf_meta is Some ==> forall|k: int|
            0 <= k < 3 ==> #[trigger] frame_header.jpeg_upsampling@[k] == 0,
        forall|p: HfCoeffParams|
            #[trigger] params_for(
                p,
                *frame_header,
                *lf_group,
                pass_idx as int,
                group_idx as int,
                *lf_vardct,
                *hf_global,
                tracker,
            ) ==> p.wf(),
    ensures
        if lf_group.hf_meta is Some {
            exists|p: HfCoeffParams|
                {
                    let run = group_run::<R>(p, old(bitstream).model());
                    &&& #[trigger] params_for(
                        p,
                        *frame_header,
                        *lf_group,
                        pass_idx as int,
                        group_idx as int,
                        *lf_vardct,
                        *hf_global,
                        tracker,
                    )
                    &&& r == (match run.0 {
                        Ok(_) => Ok::<(), Error>(()),
                        Err(e) => Err(Error::VarDct(e)),
                    })
                    &&& final(bitstream).model() == run.1
                    &&& block_views(final(blocks)@) == block_views(old(blocks)@) + whole_blocks(
                        run.2,
                    )
                }
        } else {
            r == Ok::<(), Error>(()) && *final(bitstream) == *old(bitstream) && *final(blocks)
                == *old(blocks)
        },
{
    let made = make_hf_coeff_params(
        frame_header,
        lf_group,
        pass_idx,
        group_idx,
        lf_vardct,
        hf_global,
        tracker,
    );
    match made {
        None => Ok(()),
        Some(p) => match write_hf_coeff_direct(bitstream, p, blocks) {
            Ok(_) => Ok(()),
            Err(e) => Err(Error::VarDct(e)),
        },
    }
}

} // verus!
